//! Lexicographic stepping through `k`-element position combinations.
//!
//! The bounded completion and brute-force searches of the algebraic decoder
//! walk `k`-subsets of `0..n` in lexicographic order up to a pattern cap, so
//! the enumeration must be lazy: one combination is held and advanced in
//! place.

use vstd::prelude::*;

verus! {

/// A combination is kept strictly increasing, with all entries below `n`.
pub open spec fn combo_wf(s: Seq<usize>, n: nat) -> bool {
    &&& forall|i: int| 0 <= i < s.len() - 1 ==> #[trigger] s[i] < s[i + 1]
    &&& forall|i: int| 0 <= i < s.len() ==> #[trigger] s[i] < n
}

/// The first `k`-combination of `0..n`: the positions `0, 1, ..., k - 1`,
/// or `None` when `0..n` holds fewer than `k` positions.
pub fn first_combination(k: usize, n: usize) -> (r: Option<Vec<usize>>)
    ensures
        r matches Some(c) ==> c@.len() == k && combo_wf(c@, n as nat),
        r is None <==> k > n,
{
    if k > n {
        return None;
    }
    let mut combo: Vec<usize> = Vec::new();
    let mut i: usize = 0;
    while i < k
        invariant
            0 <= i <= k <= n,
            combo@.len() == i,
            forall|j: int| 0 <= j < i ==> combo@[j] == j,
        decreases k - i,
    {
        combo.push(i);
        i = i + 1;
    }
    Some(combo)
}

/// Advance to the next combination in lexicographic order; `false` when the
/// current one is the last.
#[verifier::rlimit(60)]
pub fn next_combination(combo: &mut Vec<usize>, n: usize) -> (more: bool)
    requires
        combo_wf(old(combo)@, n as nat),
        old(combo)@.len() <= n,
    ensures
        final(combo)@.len() == old(combo)@.len(),
        combo_wf(final(combo)@, n as nat),
{
    let k = combo.len();
    let mut i: usize = k;
    while i > 0 && combo[i - 1] >= n - (k - (i - 1))
        invariant
            0 <= i <= k,
            k == combo@.len(),
            k <= n,
            combo@ == old(combo)@,
            combo_wf(combo@, n as nat),
        decreases i,
    {
        i = i - 1;
    }
    if i == 0 {
        return false;
    }
    let idx = i - 1;
    let base = combo[idx] + 1;
    proof {
        assert(combo@[idx as int] < n - (k - idx));
    }
    let mut j: usize = idx;
    while j < k
        invariant
            idx <= j <= k,
            idx < k,
            k == combo@.len(),
            k <= n,
            base == old(combo)@[idx as int] + 1,
            base + (k - 1 - idx) <= n - 1,
            forall|q: int| 0 <= q < idx ==> combo@[q] == old(combo)@[q],
            forall|q: int| idx <= q < j ==> combo@[q] == base + (q - idx),
            forall|q: int|
                0 <= q < old(combo)@.len() - 1 ==> #[trigger] old(combo)@[q] < old(combo)@[q + 1],
            forall|q: int| 0 <= q < old(combo)@.len() ==> #[trigger] old(combo)@[q] < n,
        decreases k - j,
    {
        let v = base + (j - idx);
        combo.set(j, v);
        j = j + 1;
    }
    proof {
        assert forall|q: int| 0 <= q < combo@.len() - 1 implies #[trigger] combo@[q] < combo@[q
            + 1] by {
            if q == idx - 1 {
                assert(combo@[q] == old(combo)@[q]);
                assert(old(combo)@[idx - 1] < old(combo)@[idx as int]);
            }
        }
        assert forall|q: int| 0 <= q < combo@.len() implies combo@[q] < n by {}
    }
    true
}

} // verus!
