//! Randomness and enumeration at the library's edge.
//!
//! Every decoder re-randomizes its index partition per iteration.  The draws
//! themselves come from the `rand` crate and the exhaustive subset lists from
//! `itertools`; each call is wrapped in one trusted function whose contract
//! states only what holds of every possible outcome.

use vstd::prelude::*;
use itertools::Itertools;
use rand::RngExt;
use rand::seq::IndexedRandom;
use rand::seq::SliceRandom;

verus! {

/// Relies on rand's `SliceRandom::shuffle`: the slice is permuted in place,
/// so its length, its multiset of values, and hence its membership are kept.
#[verifier::external_body]
pub fn shuffle_indices(v: &mut Vec<usize>)
    ensures
        final(v)@.len() == old(v)@.len(),
        final(v)@.to_multiset() == old(v)@.to_multiset(),
        forall|x: usize| final(v)@.contains(x) <==> old(v)@.contains(x),
        final(v)@.no_duplicates() <==> old(v)@.no_duplicates(),
{
    v.shuffle(&mut rand::rng());
}

/// Relies on rand's `IndexedRandom::sample` (formerly `choose_multiple`):
/// `min(amount, len)` elements of the slice, drawn at distinct positions,
/// so distinct slice entries yield distinct samples.
#[verifier::external_body]
pub fn sample_indices(v: &Vec<usize>, amount: usize) -> (r: Vec<usize>)
    ensures
        r@.len() == if amount <= v@.len() {
            amount as int
        } else {
            v@.len() as int
        },
        forall|i: int| 0 <= i < r@.len() ==> v@.contains(#[trigger] r@[i]),
        v@.no_duplicates() ==> r@.no_duplicates(),
{
    v.sample(&mut rand::rng(), amount).copied().collect()
}

/// Relies on rand's `Rng::random_range`: a value drawn below the bound.
#[verifier::external_body]
pub fn random_below(bound: u32) -> (r: u32)
    requires
        bound >= 1,
    ensures
        r < bound,
{
    rand::rng().random_range(0..bound)
}

/// Number of `k`-element subsets of an `n`-element set, by Pascal's rule.
pub open spec fn binomial(n: nat, k: nat) -> nat
    decreases n, k,
{
    if k == 0 {
        1
    } else if n == 0 {
        0
    } else {
        binomial((n - 1) as nat, (k - 1) as nat) + binomial((n - 1) as nat, k)
    }
}

/// Relies on itertools' `combinations`: every `size`-element combination of
/// the input, each drawn at distinct positions, in lexicographic order.
/// The enumeration is exhaustive: exactly `C(len, size)` subsets come back,
/// and on a duplicate-free input every `size`-element selection of its
/// values appears.
#[verifier::external_body]
pub fn generate_subsets(indices: &Vec<usize>, size: usize) -> (r: Vec<Vec<usize>>)
    ensures
        r@.len() == binomial(indices@.len() as nat, size as nat),
        forall|k: int| 0 <= k < r@.len() ==> (#[trigger] r@[k])@.len() == size,
        forall|k: int, i: int|
            0 <= k < r@.len() && 0 <= i < r@[k]@.len() ==> indices@.contains(
                #[trigger] r@[k]@[i],
            ),
        forall|k: int| 0 <= k < r@.len() ==> indices@.no_duplicates() ==> (
        #[trigger] r@[k])@.no_duplicates(),
        indices@.no_duplicates() ==> forall|s: Seq<usize>|
            ((#[trigger] s.to_multiset()).len() == size && s.no_duplicates() && (forall|i: int|
                0 <= i < s.len() ==> indices@.contains(#[trigger] s[i]))) ==> exists|j: int|
                0 <= j < r@.len() && (#[trigger] r@[j])@.to_multiset() == s.to_multiset(),
        size == 0 ==> r@.len() == 1,
        size > indices@.len() ==> r@.len() == 0,
{
    indices.iter().cloned().combinations(size).collect()
}

/// The vector `[lo, lo + 1, ..., hi - 1]`.
pub fn range_vec(lo: usize, hi: usize) -> (r: Vec<usize>)
    requires
        lo <= hi,
    ensures
        r@.len() == hi - lo,
        forall|j: int| 0 <= j < r@.len() ==> r@[j] == lo + j,
        r@.no_duplicates(),
        forall|x: usize| r@.contains(x) <==> lo <= x < hi,
{
    let mut out: Vec<usize> = Vec::new();
    let mut i: usize = lo;
    while i < hi
        invariant
            lo <= i <= hi,
            out@.len() == i - lo,
            forall|j: int| 0 <= j < out@.len() ==> out@[j] == lo + j,
        decreases hi - i,
    {
        out.push(i);
        i = i + 1;
    }
    proof {
        assert forall|x: usize| out@.contains(x) implies lo <= x < hi by {
            let j = choose|j: int| 0 <= j < out@.len() && out@[j] == x;
        }
        assert forall|x: usize| lo <= x < hi implies out@.contains(x) by {
            assert(out@[x - lo] == x);
        }
    }
    out
}

/// The positions `v[lo], ..., v[hi - 1]` as a fresh vector.
pub fn slice_positions(v: &Vec<usize>, lo: usize, hi: usize) -> (r: Vec<usize>)
    requires
        lo <= hi <= v@.len(),
    ensures
        r@ == v@.subrange(lo as int, hi as int),
{
    let mut out: Vec<usize> = Vec::new();
    let mut i: usize = lo;
    while i < hi
        invariant
            lo <= i <= hi <= v@.len(),
            out@ == v@.subrange(lo as int, i as int),
        decreases hi - i,
    {
        proof {
            assert(v@.subrange(lo as int, i + 1) =~= v@.subrange(lo as int, i as int).push(
                v@[i as int],
            ));
        }
        out.push(v[i]);
        i = i + 1;
    }
    out
}

/// A uniformly random permutation of `0, 1, ..., n - 1`.
pub fn random_permutation(n: usize) -> (r: Vec<usize>)
    ensures
        r@.len() == n,
        r@.no_duplicates(),
        forall|x: usize| r@.contains(x) <==> x < n,
{
    let mut v = range_vec(0, n);
    shuffle_indices(&mut v);
    v
}

/// A random bit vector of length `n` with exactly `weight` ones.
pub fn generate_random_error_vector(n: usize, weight: usize) -> (r: Vec<u8>)
    requires
        weight <= n,
    ensures
        r@.len() == n,
        crate::bits::is_bits(r@),
        crate::bits::weight_of(r@) == weight,
{
    let perm = random_permutation(n);
    let mut chosen: Vec<usize> = Vec::new();
    let mut i: usize = 0;
    while i < weight
        invariant
            0 <= i <= weight,
            weight <= perm@.len(),
            perm@.no_duplicates(),
            forall|x: usize| perm@.contains(x) <==> x < n,
            chosen@ == perm@.take(i as int),
        decreases weight - i,
    {
        proof {
            assert(perm@.take(i + 1) =~= perm@.take(i as int).push(perm@[i as int]));
        }
        chosen.push(perm[i]);
        i = i + 1;
    }
    proof {
        assert(perm@.take(weight as int).no_duplicates());
        assert forall|j: int| 0 <= j < chosen@.len() implies chosen@[j] < n by {
            assert(perm@.contains(perm@[j]));
        }
    }
    crate::bits::indicator_vector(n, &chosen)
}

} // verus!
