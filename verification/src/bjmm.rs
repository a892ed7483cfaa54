//! The BJMM-style four-way representation search.
//!
//! The coordinates are split into four quarters; each quarter contributes a
//! list of random weight-`w/4` samples keyed by their partial syndrome.
//! Pairwise merges look for `rep_AB XOR rep_CD == target`; since partial
//! keys may collide without a true match, every candidate is verified
//! against the full target syndrome before it is returned.

use vstd::prelude::*;
use crate::ball_collision::sample_list_inv;
use crate::bits::{all_zero, indicator_vector, is_bits, weight_of, zero_bits};
use crate::candidates::{copy_positions, find_entry};
use crate::matrix::{calculate_partial_syndrome, calculate_syndrome, syndrome_of, BinaryMatrix};
use crate::sampling::{random_permutation, sample_indices, slice_positions};

verus! {

/// With no weight to place, every sample in each quarter's list is the
/// empty pattern with an all-zero partial syndrome.
pub open spec fn bjmm_lists_trivial(
    a: Seq<(Vec<u8>, Vec<usize>)>,
    b: Seq<(Vec<u8>, Vec<usize>)>,
    c: Seq<(Vec<u8>, Vec<usize>)>,
    d: Seq<(Vec<u8>, Vec<usize>)>,
) -> bool {
    &&& forall|k: int|
        0 <= k < a.len() ==> all_zero((#[trigger] a[k]).0@) && a[k].1@.len() == 0
    &&& forall|k: int|
        0 <= k < b.len() ==> all_zero((#[trigger] b[k]).0@) && b[k].1@.len() == 0
    &&& forall|k: int|
        0 <= k < c.len() ==> all_zero((#[trigger] c[k]).0@) && c[k].1@.len() == 0
    &&& forall|k: int|
        0 <= k < d.len() ==> all_zero((#[trigger] d[k]).0@) && d[k].1@.len() == 0
}

/// Build one quarter's list: `list_size` random samples of at most `w_part`
/// positions, keyed by their partial syndrome.
fn build_quarter_list(part: &Vec<usize>, w_part: usize, list_size: usize, h: &BinaryMatrix) -> (m:
    Vec<(Vec<u8>, Vec<usize>)>)
    requires
        h.wf(),
        forall|i: int| 0 <= i < part@.len() ==> #[trigger] part@[i] < h.cols,
    ensures
        sample_list_inv(m@, h.cols as nat, w_part as nat, h.rows as nat),
        m@.len() == list_size,
        w_part == 0 ==> forall|q: int|
            0 <= q < m@.len() ==> all_zero((#[trigger] m@[q]).0@) && m@[q].1@.len() == 0,
{
    let r_rows = h.rows;
    let mut m: Vec<(Vec<u8>, Vec<usize>)> = Vec::new();
    let mut s: usize = 0;
    while s < list_size
        invariant
            h.wf(),
            r_rows == h.rows,
            0 <= s <= list_size,
            m@.len() == s,
            forall|i: int| 0 <= i < part@.len() ==> #[trigger] part@[i] < h.cols,
            sample_list_inv(m@, h.cols as nat, w_part as nat, h.rows as nat),
            w_part == 0 ==> forall|q: int|
                0 <= q < m@.len() ==> all_zero((#[trigger] m@[q]).0@) && m@[q].1@.len() == 0,
        decreases list_size - s,
    {
        let amount = if w_part < part.len() {
            w_part
        } else {
            part.len()
        };
        let selected_indices = sample_indices(part, amount);
        proof {
            assert forall|i: int|
                0 <= i < selected_indices@.len() implies #[trigger] selected_indices@[i]
                < h.cols by {
                assert(part@.contains(selected_indices@[i]));
            }
        }
        let representation = calculate_partial_syndrome(h, &selected_indices, r_rows);
        m.push((representation, selected_indices));
        s = s + 1;
    }
    m
}

/// Search for an error vector of weight at most `weight` with the syndrome
/// of the received vector, by the four-way representation merge.
pub fn run_bjmm_algorithm(
    received_vector: &Vec<u8>,
    h: &BinaryMatrix,
    n: usize,
    weight: usize,
    max_iterations: usize,
    list_size: usize,
) -> (r: Option<Vec<u8>>)
    requires
        h.wf(),
        n == h.cols,
        received_vector@.len() == h.cols,
    ensures
        r matches Some(e) ==> {
            &&& e@.len() == h.cols
            &&& is_bits(e@)
            &&& weight_of(e@) <= weight
            &&& syndrome_of(h.mat(), e@) == syndrome_of(h.mat(), received_vector@)
        },
        (weight == 0 && max_iterations >= 1 && list_size >= 1 && all_zero(
            syndrome_of(h.mat(), received_vector@),
        )) ==> (r matches Some(e) && e@ == zero_bits(h.cols as nat)),
{
    let target_syndrome = calculate_syndrome(received_vector, h);

    let quarter = n / 4;
    let w1 = weight / 4;
    let w2 = weight / 4;
    let w3 = weight / 4;
    let w4 = weight - w1 - w2 - w3;

    let mut iteration: usize = 0;
    while iteration < max_iterations
        invariant
            h.wf(),
            n == h.cols,
            received_vector@.len() == h.cols,
            target_syndrome@ == syndrome_of(h.mat(), received_vector@),
            quarter == n / 4,
            w1 == weight / 4 && w2 == weight / 4 && w3 == weight / 4,
            w1 + w2 + w3 <= weight,
            w4 == weight - w1 - w2 - w3,
            iteration >= 1 ==> !(weight == 0 && list_size >= 1 && all_zero(target_syndrome@)),
        decreases max_iterations - iteration,
    {
        let indices = random_permutation(n);
        proof {
            assert forall|i: int| 0 <= i < indices@.len() implies #[trigger] indices@[i] < n by {
                assert(indices@.contains(indices@[i]));
            }
        }
        let part1 = slice_positions(&indices, 0, quarter);
        let part2 = slice_positions(&indices, quarter, 2 * quarter);
        let part3 = slice_positions(&indices, 2 * quarter, 3 * quarter);
        let part4 = slice_positions(&indices, 3 * quarter, n);

        let list_a = build_quarter_list(&part1, w1, list_size, h);
        let list_b = build_quarter_list(&part2, w2, list_size, h);
        let list_c = build_quarter_list(&part3, w3, list_size, h);
        let list_d = build_quarter_list(&part4, w4, list_size, h);

        let mut ai: usize = 0;
        while ai < list_a.len()
            invariant
                h.wf(),
                n == h.cols,
                received_vector@.len() == h.cols,
                target_syndrome@ == syndrome_of(h.mat(), received_vector@),
                w1 + w2 + w3 + w4 == weight,
                sample_list_inv(list_a@, n as nat, w1 as nat, h.rows as nat),
                sample_list_inv(list_b@, n as nat, w2 as nat, h.rows as nat),
                sample_list_inv(list_c@, n as nat, w3 as nat, h.rows as nat),
                sample_list_inv(list_d@, n as nat, w4 as nat, h.rows as nat),
                weight == 0 ==> bjmm_lists_trivial(list_a@, list_b@, list_c@, list_d@),
                list_a@.len() == list_size,
                list_b@.len() == list_size,
                list_c@.len() == list_size,
                list_d@.len() == list_size,
                ai >= 1 ==> !(weight == 0 && list_size >= 1 && all_zero(target_syndrome@)),
            decreases list_a@.len() - ai,
        {
            let mut bi: usize = 0;
            while bi < list_b.len()
                invariant
                    h.wf(),
                    n == h.cols,
                    received_vector@.len() == h.cols,
                    target_syndrome@ == syndrome_of(h.mat(), received_vector@),
                    w1 + w2 + w3 + w4 == weight,
                    ai < list_a@.len(),
                    sample_list_inv(list_a@, n as nat, w1 as nat, h.rows as nat),
                    sample_list_inv(list_b@, n as nat, w2 as nat, h.rows as nat),
                    sample_list_inv(list_c@, n as nat, w3 as nat, h.rows as nat),
                    sample_list_inv(list_d@, n as nat, w4 as nat, h.rows as nat),
                    weight == 0 ==> bjmm_lists_trivial(list_a@, list_b@, list_c@, list_d@),
                    list_b@.len() == list_size,
                    list_c@.len() == list_size,
                    list_d@.len() == list_size,
                    bi >= 1 ==> !(weight == 0 && list_size >= 1 && all_zero(target_syndrome@)),
                decreases list_b@.len() - bi,
            {
                let rep_ab = crate::bits::apply_errors(&list_a[ai].0, &list_b[bi].0);
                let needed_rep_cd = crate::bits::apply_errors(&target_syndrome, &rep_ab);
                proof {
                    if weight == 0 && list_size >= 1 && all_zero(target_syndrome@) {
                        crate::bits::lemma_xor_u8_basics(0u8, 0u8);
                        assert(all_zero(rep_ab@));
                        assert(all_zero(needed_rep_cd@));
                    }
                }

                let mut ci: usize = 0;
                while ci < list_c.len()
                    invariant
                        h.wf(),
                        n == h.cols,
                        received_vector@.len() == h.cols,
                        target_syndrome@ == syndrome_of(h.mat(), received_vector@),
                        w1 + w2 + w3 + w4 == weight,
                        ai < list_a@.len(),
                        bi < list_b@.len(),
                        needed_rep_cd@.len() == h.rows,
                        sample_list_inv(list_a@, n as nat, w1 as nat, h.rows as nat),
                        sample_list_inv(list_b@, n as nat, w2 as nat, h.rows as nat),
                        sample_list_inv(list_c@, n as nat, w3 as nat, h.rows as nat),
                        sample_list_inv(list_d@, n as nat, w4 as nat, h.rows as nat),
                        weight == 0 ==> bjmm_lists_trivial(list_a@, list_b@, list_c@, list_d@),
                        list_c@.len() == list_size,
                        list_d@.len() == list_size,
                        (weight == 0 && list_size >= 1 && all_zero(target_syndrome@))
                            ==> all_zero(needed_rep_cd@),
                        ci >= 1 ==> !(weight == 0 && list_size >= 1 && all_zero(
                            target_syndrome@,
                        )),
                    decreases list_c@.len() - ci,
                {
                    let needed_rep_d = crate::bits::apply_errors(&needed_rep_cd, &list_c[ci].0);
                    proof {
                        if weight == 0 && list_size >= 1 && all_zero(target_syndrome@) {
                            crate::bits::lemma_xor_u8_basics(0u8, 0u8);
                            assert(all_zero(needed_rep_d@));
                        }
                    }
                    match find_entry(&list_d, &needed_rep_d) {
                        Some(di) => {
                        let subset_a = copy_positions(&list_a[ai].1);
                        let subset_b = copy_positions(&list_b[bi].1);
                        let subset_c = copy_positions(&list_c[ci].1);
                        let subset_d = copy_positions(&list_d[di].1);
                        let ab = crate::bits::concat_positions(&subset_a, &subset_b);
                        let cd = crate::bits::concat_positions(&subset_c, &subset_d);
                        let combined = crate::bits::concat_positions(&ab, &cd);
                        proof {
                            assert(combined@.len() <= weight);
                            assert forall|i: int| 0 <= i < combined@.len() implies combined@[i]
                                < n by {
                                if i < ab@.len() {
                                    if i < subset_a@.len() {
                                        assert(combined@[i] == subset_a@[i]);
                                    } else {
                                        assert(combined@[i] == subset_b@[i - subset_a@.len()]);
                                    }
                                } else {
                                    let j = i - ab@.len();
                                    if j < subset_c@.len() {
                                        assert(combined@[i] == subset_c@[j]);
                                    } else {
                                        assert(combined@[i] == subset_d@[j - subset_c@.len()]);
                                    }
                                }
                            }
                        }
                        let candidate_error = indicator_vector(n, &combined);
                        let check_syndrome = calculate_syndrome(&candidate_error, h);
                        if crate::bits::bytes_eq(&check_syndrome, &target_syndrome) {
                            proof {
                                if weight == 0 {
                                    assert(combined@.len() == 0);
                                    assert(candidate_error@ =~= zero_bits(n as nat));
                                }
                            }
                            return Some(candidate_error);
                        }
                        proof {
                            if weight == 0 && list_size >= 1 && all_zero(target_syndrome@) {
                                assert(combined@.len() == 0);
                                assert(candidate_error@ =~= zero_bits(n as nat));
                                crate::matrix::lemma_syndrome_of_zero(
                                    h.mat(),
                                    candidate_error@,
                                );
                                assert(check_syndrome@ =~= target_syndrome@);
                                assert(false);
                            }
                        }
                        },
                        None => {
                            proof {
                                if weight == 0 && list_size >= 1 && all_zero(
                                    target_syndrome@,
                                ) {
                                    assert(all_zero(list_d@[0].0@));
                                    assert(list_d@[0].0@.len() == h.rows);
                                    assert(list_d@[0].0@ =~= needed_rep_d@);
                                    assert(false);
                                }
                            }
                        },
                    }
                    ci = ci + 1;
                }
                bi = bi + 1;
            }
            ai = ai + 1;
        }
        iteration = iteration + 1;
    }
    None
}

} // verus!
