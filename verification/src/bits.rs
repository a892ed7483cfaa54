//! Bit vectors over GF(2): the ground model shared by every decoder.
//!
//! An error vector or a codeword is a `Vec<u8>` whose entries are 0 or 1.
//! Its weight is the number of ones; two vectors combine by pointwise XOR.

use vstd::prelude::*;

verus! {

/// Every entry of the sequence is 0 or 1.
pub open spec fn is_bits(s: Seq<u8>) -> bool {
    forall|i: int| 0 <= i < s.len() ==> s[i] == 0 || s[i] == 1
}

/// Every entry of the sequence is 0.
pub open spec fn all_zero(s: Seq<u8>) -> bool {
    forall|i: int| 0 <= i < s.len() ==> s[i] == 0
}

/// The all-zero vector of length `n`.
pub open spec fn zero_bits(n: nat) -> Seq<u8> {
    Seq::new(n, |i: int| 0u8)
}

/// Number of ones in the sequence.
pub open spec fn weight_of(s: Seq<u8>) -> nat
    decreases s.len(),
{
    if s.len() == 0 {
        0
    } else {
        weight_of(s.drop_last()) + (if s.last() == 1 {
            1nat
        } else {
            0nat
        })
    }
}

/// Pointwise XOR of two sequences of equal length.
pub open spec fn xor_bits(a: Seq<u8>, b: Seq<u8>) -> Seq<u8>
    recommends
        a.len() == b.len(),
{
    Seq::new(a.len(), |i: int| a[i] ^ b[i])
}

/// The length-`n` indicator vector of a set of positions.
pub open spec fn indicator(n: nat, positions: Seq<usize>) -> Seq<u8> {
    Seq::new(n, |i: int| if positions.contains(i as usize) {
        1u8
    } else {
        0u8
    })
}

/// XOR facts on single bytes used throughout the syndrome proofs.
pub proof fn lemma_xor_u8_basics(x: u8, y: u8)
    by (bit_vector)
    ensures
        x ^ 0 == x,
        0 ^ x == x,
        x ^ x == 0,
        x ^ y == y ^ x,
        x ^ (y ^ x) == y,
{
}

/// The all-zero vector has weight 0.
pub proof fn lemma_all_zero_weight(s: Seq<u8>)
    requires
        all_zero(s),
    ensures
        weight_of(s) == 0,
    decreases s.len(),
{
    if s.len() > 0 {
        lemma_all_zero_weight(s.drop_last());
    }
}

/// Setting one position of a bit vector to 1 raises the weight by at most 1.
pub proof fn lemma_weight_update(s: Seq<u8>, i: int)
    requires
        0 <= i < s.len(),
    ensures
        weight_of(s.update(i, 1u8)) <= weight_of(s) + 1,
        s[i] != 1 ==> weight_of(s.update(i, 1u8)) == weight_of(s) + 1,
        s[i] == 1 ==> weight_of(s.update(i, 1u8)) == weight_of(s),
    decreases s.len(),
{
    let t = s.update(i, 1u8);
    if i == s.len() - 1 {
        assert(t.drop_last() =~= s.drop_last());
    } else {
        assert(t.drop_last() =~= s.drop_last().update(i, 1u8));
        lemma_weight_update(s.drop_last(), i);
    }
}

/// Count the ones in a bit vector.
pub fn calculate_weight(vec: &Vec<u8>) -> (r: usize)
    ensures
        r == weight_of(vec@),
{
    let mut count: usize = 0;
    let mut i: usize = 0;
    while i < vec.len()
        invariant
            0 <= i <= vec@.len(),
            count == weight_of(vec@.take(i as int)),
            count <= i,
        decreases vec@.len() - i,
    {
        proof {
            assert(vec@.take(i + 1).drop_last() =~= vec@.take(i as int));
            assert(vec@.take(i + 1).last() == vec@[i as int]);
        }
        if vec[i] == 1 {
            count = count + 1;
        }
        i = i + 1;
    }
    proof {
        assert(vec@.take(vec@.len() as int) =~= vec@);
    }
    count
}

/// XOR an error pattern into a codeword, pointwise.
pub fn apply_errors(codeword: &Vec<u8>, error_vector: &Vec<u8>) -> (r: Vec<u8>)
    requires
        codeword@.len() == error_vector@.len(),
    ensures
        r@ == xor_bits(codeword@, error_vector@),
{
    let mut out: Vec<u8> = Vec::new();
    let mut i: usize = 0;
    while i < codeword.len()
        invariant
            0 <= i <= codeword@.len(),
            codeword@.len() == error_vector@.len(),
            out@.len() == i,
            forall|j: int| 0 <= j < i ==> out@[j] == (codeword@[j] ^ error_vector@[j]),
        decreases codeword@.len() - i,
    {
        out.push(codeword[i] ^ error_vector[i]);
        i = i + 1;
    }
    proof {
        assert(out@ =~= xor_bits(codeword@, error_vector@));
    }
    out
}

/// Compare two byte vectors for equality.
pub fn bytes_eq(a: &Vec<u8>, b: &Vec<u8>) -> (r: bool)
    ensures
        r <==> a@ =~= b@,
{
    if a.len() != b.len() {
        return false;
    }
    let mut i: usize = 0;
    while i < a.len()
        invariant
            0 <= i <= a@.len(),
            a@.len() == b@.len(),
            forall|j: int| 0 <= j < i ==> a@[j] == b@[j],
        decreases a@.len() - i,
    {
        if a[i] != b[i] {
            return false;
        }
        i = i + 1;
    }
    true
}

/// Is every entry zero?
pub fn is_all_zero(v: &Vec<u8>) -> (r: bool)
    ensures
        r <==> all_zero(v@),
{
    let mut i: usize = 0;
    while i < v.len()
        invariant
            0 <= i <= v@.len(),
            forall|j: int| 0 <= j < i ==> v@[j] == 0,
        decreases v@.len() - i,
    {
        if v[i] != 0 {
            return false;
        }
        i = i + 1;
    }
    true
}

/// Build the indicator vector of a list of positions.
///
/// The weight is at most the number of positions listed, with equality when
/// the positions are distinct.
pub fn indicator_vector(n: usize, positions: &Vec<usize>) -> (r: Vec<u8>)
    requires
        forall|i: int| 0 <= i < positions@.len() ==> positions@[i] < n,
    ensures
        r@ == indicator(n as nat, positions@),
        r@.len() == n,
        is_bits(r@),
        weight_of(r@) <= positions@.len(),
        positions@.no_duplicates() ==> weight_of(r@) == positions@.len(),
{
    let mut out: Vec<u8> = vec_zeros(n);
    let mut i: usize = 0;
    while i < positions.len()
        invariant
            0 <= i <= positions@.len(),
            forall|k: int| 0 <= k < positions@.len() ==> positions@[k] < n,
            out@.len() == n,
            forall|j: int| 0 <= j < n ==> out@[j] == (if positions@.take(i as int).contains(
                j as usize,
            ) {
                1u8
            } else {
                0u8
            }),
            weight_of(out@) <= i,
            positions@.no_duplicates() ==> weight_of(out@) == i,
        decreases positions@.len() - i,
    {
        let p = positions[i];
        proof {
            lemma_weight_update(out@, p as int);
            assert(positions@.take(i + 1) =~= positions@.take(i as int).push(positions@[i as int]));
            assert forall|j: int|
                #![trigger positions@.take(i + 1).contains(j as usize)]
                0 <= j < n implies (positions@.take(i + 1).contains(j as usize)
                <==> (positions@.take(i as int).contains(j as usize) || j == p)) by {
                let t = positions@.take(i + 1);
                if positions@.take(i as int).contains(j as usize) {
                    let w = choose|w: int|
                        0 <= w < i && positions@.take(i as int)[w] == j as usize;
                    assert(t[w] == j as usize);
                }
                if j == p {
                    assert(t[i as int] == j as usize);
                }
                if t.contains(j as usize) {
                    let w = choose|w: int| 0 <= w < t.len() && t[w] == j as usize;
                    if w < i {
                        assert(positions@.take(i as int)[w] == j as usize);
                    }
                }
            }
            if positions@.no_duplicates() {
                assert forall|w: int| 0 <= w < i implies positions@.take(i as int)[w]
                    != p by {
                    assert(positions@[w] != positions@[i as int]);
                }
                assert(!positions@.take(i as int).contains(p));
                assert(out@[p as int] == 0);
            }
        }
        out.set(p, 1);
        proof {
            assert forall|j: int| 0 <= j < n implies out@[j] == (if positions@.take(
                i + 1,
            ).contains(j as usize) {
                1u8
            } else {
                0u8
            }) by {}
        }
        i = i + 1;
    }
    proof {
        assert(positions@.take(positions@.len() as int) =~= positions@);
        assert(out@ =~= indicator(n as nat, positions@));
    }
    out
}

/// Concatenate two position lists.
pub fn concat_positions(a: &Vec<usize>, b: &Vec<usize>) -> (r: Vec<usize>)
    ensures
        r@ == a@ + b@,
{
    let mut out: Vec<usize> = Vec::new();
    let mut i: usize = 0;
    while i < a.len()
        invariant
            0 <= i <= a@.len(),
            out@ == a@.take(i as int),
        decreases a@.len() - i,
    {
        proof {
            assert(a@.take(i + 1) =~= a@.take(i as int).push(a@[i as int]));
        }
        out.push(a[i]);
        i = i + 1;
    }
    proof {
        assert(a@.take(a@.len() as int) =~= a@);
    }
    let mut j: usize = 0;
    while j < b.len()
        invariant
            0 <= j <= b@.len(),
            out@ == a@ + b@.take(j as int),
        decreases b@.len() - j,
    {
        proof {
            assert(b@.take(j + 1) =~= b@.take(j as int).push(b@[j as int]));
            assert(a@ + b@.take(j + 1) =~= (a@ + b@.take(j as int)).push(b@[j as int]));
        }
        out.push(b[j]);
        j = j + 1;
    }
    proof {
        assert(b@.take(b@.len() as int) =~= b@);
    }
    out
}

/// Membership in a concatenation is membership in either part.
pub proof fn lemma_concat_contains(a: Seq<usize>, b: Seq<usize>, x: usize)
    ensures
        (a + b).contains(x) <==> (a.contains(x) || b.contains(x)),
{
    if a.contains(x) {
        let i = choose|i: int| 0 <= i < a.len() && a[i] == x;
        assert((a + b)[i] == x);
    }
    if b.contains(x) {
        let i = choose|i: int| 0 <= i < b.len() && b[i] == x;
        assert((a + b)[a.len() + i] == x);
    }
    if (a + b).contains(x) {
        let i = choose|i: int| 0 <= i < (a + b).len() && (a + b)[i] == x;
        if i < a.len() {
            assert(a[i] == x);
        } else {
            assert(b[i - a.len()] == x);
        }
    }
}

/// The indicator of a union of disjoint position lists is the XOR of the
/// two indicators.
pub proof fn lemma_indicator_split(n: nat, a: Seq<usize>, b: Seq<usize>)
    requires
        forall|x: usize| !(a.contains(x) && b.contains(x)),
    ensures
        indicator(n, a + b) =~= xor_bits(indicator(n, a), indicator(n, b)),
{
    assert forall|j: int| 0 <= j < n implies indicator(n, a + b)[j] == (indicator(n, a)[j]
        ^ indicator(n, b)[j]) by {
        lemma_concat_contains(a, b, j as usize);
        lemma_xor_u8_basics(1u8, 0u8);
        lemma_xor_u8_basics(0u8, 0u8);
    }
}

/// The all-zero vector of length `n`, as executable data.
pub fn vec_zeros(n: usize) -> (r: Vec<u8>)
    ensures
        r@ == zero_bits(n as nat),
        r@.len() == n,
        is_bits(r@),
        all_zero(r@),
        weight_of(r@) == 0,
{
    let mut out: Vec<u8> = Vec::new();
    let mut i: usize = 0;
    while i < n
        invariant
            0 <= i <= n,
            out@.len() == i,
            forall|j: int| 0 <= j < i ==> out@[j] == 0,
        decreases n - i,
    {
        out.push(0);
        i = i + 1;
    }
    proof {
        assert(out@ =~= zero_bits(n as nat));
        lemma_all_zero_weight(out@);
    }
    out
}

} // verus!
