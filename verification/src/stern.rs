//! Stern's information-set-decoding search.
//!
//! The coordinates are split into two halves.  Every `weight/2`-subset of
//! each half is enumerated exhaustively; the subsets of each half are keyed
//! by their syndrome, and a match pairs a left subset with a right subset
//! whose syndromes XOR to the target.  By linearity of the syndrome map the
//! union of such a pair has the target syndrome, so no final recheck is
//! needed: that step is proved here once and for all.

use vstd::prelude::*;
use crate::bits::{
    all_zero, indicator, indicator_vector, is_bits, lemma_indicator_split, lemma_xor_u8_basics,
    weight_of, zero_bits,
};
use crate::candidates::{copy_positions, find_entry};
use crate::matrix::{calculate_syndrome, lemma_syndrome_linear, syndrome_of, BinaryMatrix};
use crate::sampling::{generate_subsets, range_vec, shuffle_indices};

verus! {

/// Entries of a candidate list hold the syndrome of the indicator vector of
/// their subset, and every listed position lies in `[lo, hi)`.
pub open spec fn stern_list_inv(
    m: Seq<(Vec<u8>, Vec<usize>)>,
    h: Seq<Seq<u8>>,
    n: nat,
    lo: usize,
    hi: usize,
    size: nat,
) -> bool {
    forall|k: int|
        0 <= k < m.len() ==> {
            &&& (#[trigger] m[k]).0@ == syndrome_of(h, indicator(n, m[k].1@))
            &&& m[k].1@.len() == size
            &&& m[k].1@.no_duplicates()
            &&& forall|i: int| 0 <= i < m[k].1@.len() ==> lo <= #[trigger] m[k].1@[i] < hi
        }
}

/// Build the candidate list of all `size`-subsets of `half`, keyed by the
/// syndrome of their indicator vector.  The enumeration is exhaustive:
/// every duplicate-free `size`-element selection of the half's values
/// appears as some entry's subset.
pub(crate) fn build_half_list(half: &Vec<usize>, size: usize, h: &BinaryMatrix, lo: usize, hi: usize) -> (m:
    Vec<(Vec<u8>, Vec<usize>)>)
    requires
        h.wf(),
        hi <= h.cols,
        lo <= hi,
        half@.no_duplicates(),
        forall|x: usize| half@.contains(x) <==> lo <= x < hi,
    ensures
        stern_list_inv(m@, h.mat(), h.cols as nat, lo, hi, size as nat),
        size == 0 ==> m@.len() == 1,
        forall|s: Seq<usize>|
            ((#[trigger] s.to_multiset()).len() == size && s.no_duplicates() && (forall|i: int|
                0 <= i < s.len() ==> half@.contains(#[trigger] s[i]))) ==> exists|j: int|
                0 <= j < m@.len() && (#[trigger] m@[j]).1@.to_multiset() == s.to_multiset(),
{
    let n = h.cols;
    let subsets = generate_subsets(half, size);
    let mut m: Vec<(Vec<u8>, Vec<usize>)> = Vec::new();
    let mut k: usize = 0;
    while k < subsets.len()
        invariant
            0 <= k <= subsets@.len(),
            h.wf(),
            n == h.cols,
            hi <= h.cols,
            lo <= hi,
            half@.no_duplicates(),
            forall|x: usize| half@.contains(x) <==> lo <= x < hi,
            forall|q: int| 0 <= q < subsets@.len() ==> (#[trigger] subsets@[q])@.len() == size,
            forall|q: int|
                0 <= q < subsets@.len() ==> (#[trigger] subsets@[q])@.no_duplicates(),
            forall|q: int, i: int|
                0 <= q < subsets@.len() && 0 <= i < subsets@[q]@.len() ==> half@.contains(
                    #[trigger] subsets@[q]@[i],
                ),
            m@.len() == k,
            stern_list_inv(m@, h.mat(), h.cols as nat, lo, hi, size as nat),
            forall|q: int| 0 <= q < k ==> (#[trigger] m@[q]).1@ == subsets@[q]@,
        decreases subsets@.len() - k,
    {
        let subset = copy_positions(&subsets[k]);
        proof {
            assert forall|i: int| 0 <= i < subset@.len() implies lo <= #[trigger] subset@[i]
                < hi by {
                assert(half@.contains(subsets@[k as int]@[i]));
            }
        }
        let candidate_error = indicator_vector(n, &subset);
        let syndrome = calculate_syndrome(&candidate_error, h);
        m.push((syndrome, subset));
        k = k + 1;
    }
    proof {
        assert forall|s: Seq<usize>|
            ((#[trigger] s.to_multiset()).len() == size && s.no_duplicates() && (forall|i: int|
                0 <= i < s.len() ==> half@.contains(#[trigger] s[i]))) implies exists|j: int|
            0 <= j < m@.len() && (#[trigger] m@[j]).1@.to_multiset() == s.to_multiset() by {
            let j = choose|j: int|
                0 <= j < subsets@.len() && (#[trigger] subsets@[j])@.to_multiset()
                    == s.to_multiset();
            assert(m@[j].1@.to_multiset() == s.to_multiset());
        }
    }
    m
}

/// Search for an error vector of weight exactly `weight` with the syndrome
/// of the received vector, by exhaustive two-half collision search.
///
/// A returned vector always has the target syndrome; when the received
/// vector is already a codeword and the weight asked for is zero, the search
/// is guaranteed to succeed with the zero vector.
pub fn run_stern_algorithm(received_vector: &Vec<u8>, h: &BinaryMatrix, weight: usize) -> (r:
    Option<Vec<u8>>)
    requires
        h.wf(),
        received_vector@.len() == h.cols,
    ensures
        r matches Some(e) ==> {
            &&& e@.len() == h.cols
            &&& is_bits(e@)
            &&& weight_of(e@) == weight
            &&& syndrome_of(h.mat(), e@) == syndrome_of(h.mat(), received_vector@)
        },
        (weight == 0 && all_zero(syndrome_of(h.mat(), received_vector@))) ==> (r matches Some(e)
            && e@ == zero_bits(h.cols as nat)),
{
    let n = h.cols;
    let target_syndrome = calculate_syndrome(received_vector, h);
    let m = n / 2 + (n % 2);

    let mut left_indices = range_vec(0, m);
    let mut right_indices = range_vec(m, n);
    shuffle_indices(&mut left_indices);
    shuffle_indices(&mut right_indices);

    let left_weight = weight / 2;
    let right_weight = weight - left_weight;

    let left_map = build_half_list(&left_indices, left_weight, h, 0, m);
    let right_map = build_half_list(&right_indices, right_weight, h, m, n);

    let mut li: usize = 0;
    while li < left_map.len()
        invariant
            h.wf(),
            n == h.cols,
            m == n / 2 + (n % 2),
            received_vector@.len() == h.cols,
            target_syndrome@ == syndrome_of(h.mat(), received_vector@),
            left_weight == weight / 2,
            right_weight == weight - left_weight,
            stern_list_inv(left_map@, h.mat(), n as nat, 0, m, left_weight as nat),
            stern_list_inv(right_map@, h.mat(), n as nat, m, n, right_weight as nat),
            weight == 0 ==> left_map@.len() == 1 && right_map@.len() == 1,
            0 <= li <= left_map@.len(),
            li >= 1 ==> !(weight == 0 && all_zero(target_syndrome@)),
        decreases left_map@.len() - li,
    {
        let left_syndrome = &left_map[li].0;
        let complement_syndrome = crate::bits::apply_errors(&target_syndrome, left_syndrome);
        match find_entry(&right_map, &complement_syndrome) {
            Some(ri) => {
                let left_subset = copy_positions(&left_map[li].1);
                let right_subset = copy_positions(&right_map[ri].1);
                let combined = crate::bits::concat_positions(&left_subset, &right_subset);
                proof {
                    assert forall|i: int| 0 <= i < combined@.len() implies combined@[i] < n by {
                        if i < left_subset@.len() {
                            assert(combined@[i] == left_subset@[i]);
                        } else {
                            assert(combined@[i] == right_subset@[i - left_subset@.len()]);
                        }
                    }
                }
                let candidate_error = indicator_vector(n, &combined);
                proof {
                    let hm = h.mat();
                    let il = indicator(n as nat, left_subset@);
                    let ir = indicator(n as nat, right_subset@);
                    assert forall|x: usize| !(left_subset@.contains(x)
                        && right_subset@.contains(x)) by {
                        if left_subset@.contains(x) {
                            let i = choose|i: int|
                                0 <= i < left_subset@.len() && left_subset@[i] == x;
                            assert(x < m);
                        }
                        if right_subset@.contains(x) {
                            let i = choose|i: int|
                                0 <= i < right_subset@.len() && right_subset@[i] == x;
                            assert(x >= m);
                        }
                    }
                    lemma_indicator_split(n as nat, left_subset@, right_subset@);
                    lemma_syndrome_linear(hm, il, ir);
                    assert(syndrome_of(hm, candidate_error@) =~= crate::bits::xor_bits(
                        syndrome_of(hm, il),
                        syndrome_of(hm, ir),
                    ));
                    assert(syndrome_of(hm, il) == left_map@[li as int].0@);
                    assert(syndrome_of(hm, ir) == right_map@[ri as int].0@);
                    assert(right_map@[ri as int].0@ == complement_syndrome@);
                    assert forall|j: int|
                        0 <= j < syndrome_of(hm, candidate_error@).len() implies syndrome_of(
                        hm,
                        candidate_error@,
                    )[j] == target_syndrome@[j] by {
                        let lsj = left_map@[li as int].0@[j];
                        let tj = target_syndrome@[j];
                        assert(complement_syndrome@[j] == (tj ^ lsj));
                        lemma_xor_u8_basics(lsj, tj);
                    }
                    assert(syndrome_of(hm, candidate_error@) =~= target_syndrome@);
                    assert(combined@.len() == weight);
                    assert forall|q1: int, q2: int|
                        0 <= q1 < combined@.len() && 0 <= q2 < combined@.len() && q1
                            != q2 implies combined@[q1] != combined@[q2] by {
                        let ll = left_subset@.len() as int;
                        if q1 < ll && q2 < ll {
                            assert(combined@[q1] == left_subset@[q1]);
                            assert(combined@[q2] == left_subset@[q2]);
                        } else if q1 >= ll && q2 >= ll {
                            assert(combined@[q1] == right_subset@[q1 - ll]);
                            assert(combined@[q2] == right_subset@[q2 - ll]);
                        } else if q1 < ll {
                            assert(combined@[q1] == left_subset@[q1] && combined@[q1] < m);
                            assert(combined@[q2] == right_subset@[q2 - ll] && combined@[q2]
                                >= m);
                        } else {
                            assert(combined@[q2] == left_subset@[q2] && combined@[q2] < m);
                            assert(combined@[q1] == right_subset@[q1 - ll] && combined@[q1]
                                >= m);
                        }
                    }
                    assert(combined@.no_duplicates());
                    if weight == 0 {
                        assert(candidate_error@ =~= zero_bits(n as nat));
                    }
                }
                return Some(candidate_error);
            },
            None => {
                proof {
                    if weight == 0 && all_zero(target_syndrome@) {
                        let hm = h.mat();
                        assert(left_map@[0].1@ =~= Seq::<usize>::empty());
                        assert(right_map@[0].1@ =~= Seq::<usize>::empty());
                        assert(indicator(n as nat, left_map@[0].1@) =~= zero_bits(n as nat));
                        crate::matrix::lemma_syndrome_of_zero(
                            hm,
                            indicator(n as nat, left_map@[0].1@),
                        );
                        crate::matrix::lemma_syndrome_of_zero(
                            hm,
                            indicator(n as nat, right_map@[0].1@),
                        );
                        lemma_xor_u8_basics(0u8, 0u8);
                        assert(right_map@[0].0@ =~= complement_syndrome@);
                        assert(false);
                    }
                }
            },
        }
        li = li + 1;
    }
    proof {
        if weight == 0 && all_zero(target_syndrome@) {
            assert(left_map@.len() == 1);
        }
    }
    None
}

} // verus!
