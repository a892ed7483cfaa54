//! The ball-collision decoding search.
//!
//! Like Stern's search this splits the coordinates in two halves, but each
//! list holds only `list_size` random samples per half instead of an
//! exhaustive enumeration.  A partial-syndrome key collision is therefore
//! only a hint: every candidate is verified against the full target syndrome
//! before it is returned.

use vstd::prelude::*;
use crate::bits::{all_zero, indicator_vector, is_bits, weight_of, zero_bits};
use crate::candidates::{copy_positions, find_entry};
use crate::matrix::{calculate_partial_syndrome, calculate_syndrome, syndrome_of, BinaryMatrix};
use crate::sampling::{random_permutation, sample_indices, slice_positions};

verus! {

/// Entries hold a partial syndrome of `rows` bits and at most `size`
/// positions, all below `n`.
pub open spec fn sample_list_inv(m: Seq<(Vec<u8>, Vec<usize>)>, n: nat, size: nat, rows: nat) -> bool {
    forall|k: int|
        0 <= k < m.len() ==> {
            &&& (#[trigger] m[k]).0@.len() == rows
            &&& m[k].1@.len() <= size
            &&& forall|i: int| 0 <= i < m[k].1@.len() ==> #[trigger] m[k].1@[i] < n
        }
}

/// Search for an error vector of weight at most `weight` with the syndrome
/// of the received vector, by randomized two-half collision search.
pub fn run_ball_collision_algorithm(
    received_vector: &Vec<u8>,
    h: &BinaryMatrix,
    n: usize,
    weight: usize,
    max_iterations: usize,
    list_size: usize,
) -> (r: Option<Vec<u8>>)
    requires
        h.wf(),
        n == h.cols,
        received_vector@.len() == h.cols,
    ensures
        r matches Some(e) ==> {
            &&& e@.len() == h.cols
            &&& is_bits(e@)
            &&& weight_of(e@) <= weight
            &&& syndrome_of(h.mat(), e@) == syndrome_of(h.mat(), received_vector@)
        },
        (weight == 0 && max_iterations >= 1 && list_size >= 1 && all_zero(
            syndrome_of(h.mat(), received_vector@),
        )) ==> (r matches Some(e) && e@ == zero_bits(h.cols as nat)),
{
    let target_syndrome = calculate_syndrome(received_vector, h);
    let r_rows = h.rows;

    let p1 = weight / 2;
    let p2 = weight - p1;
    let half = n / 2;

    let mut iteration: usize = 0;
    while iteration < max_iterations
        invariant
            h.wf(),
            n == h.cols,
            received_vector@.len() == h.cols,
            r_rows == h.rows,
            target_syndrome@ == syndrome_of(h.mat(), received_vector@),
            p1 == weight / 2,
            p2 == weight - p1,
            half == n / 2,
            iteration >= 1 ==> !(weight == 0 && list_size >= 1 && all_zero(target_syndrome@)),
        decreases max_iterations - iteration,
    {
        let indices = random_permutation(n);
        let part1 = slice_positions(&indices, 0, half);
        let part2 = slice_positions(&indices, half, n);
        proof {
            assert forall|i: int| 0 <= i < part1@.len() implies part1@[i] < n by {
                assert(indices@.contains(indices@[i]));
            }
            assert forall|i: int| 0 <= i < part2@.len() implies part2@[i] < n by {
                assert(indices@.contains(indices@[half + i]));
            }
        }

        let mut list1: Vec<(Vec<u8>, Vec<usize>)> = Vec::new();
        let mut s: usize = 0;
        while s < list_size
            invariant
                h.wf(),
                n == h.cols,
                r_rows == h.rows,
                p1 == weight / 2,
                0 <= s <= list_size,
                forall|i: int| 0 <= i < part1@.len() ==> #[trigger] part1@[i] < n,
                sample_list_inv(list1@, n as nat, p1 as nat, h.rows as nat),
                weight == 0 ==> list1@.len() == s,
                weight == 0 ==> forall|q: int|
                    0 <= q < list1@.len() ==> all_zero((#[trigger] list1@[q]).0@)
                        && list1@[q].1@.len() == 0,
            decreases list_size - s,
        {
            let amount = if p1 < part1.len() {
                p1
            } else {
                part1.len()
            };
            let selected_indices = sample_indices(&part1, amount);
            // A sample can only be empty when the requested half-weight is
            // zero or the half itself is empty; the zero-weight sample is
            // the trivial candidate and is kept.
            if selected_indices.len() > 0 || p1 == 0 {
                proof {
                    assert forall|i: int|
                        0 <= i < selected_indices@.len() implies #[trigger] selected_indices@[i]
                        < n by {
                        assert(part1@.contains(selected_indices@[i]));
                    }
                }
                let partial_syndrome = calculate_partial_syndrome(h, &selected_indices, r_rows);
                list1.push((partial_syndrome, selected_indices));
            }
            s = s + 1;
        }

        let mut t: usize = 0;
        while t < list_size
            invariant
                h.wf(),
                n == h.cols,
                received_vector@.len() == h.cols,
                r_rows == h.rows,
                target_syndrome@ == syndrome_of(h.mat(), received_vector@),
                p1 == weight / 2,
                p2 == weight - p1,
                forall|i: int| 0 <= i < part2@.len() ==> #[trigger] part2@[i] < n,
                sample_list_inv(list1@, n as nat, p1 as nat, h.rows as nat),
                weight == 0 ==> list1@.len() == list_size,
                weight == 0 ==> forall|q: int|
                    0 <= q < list1@.len() ==> all_zero((#[trigger] list1@[q]).0@)
                        && list1@[q].1@.len() == 0,
                t >= 1 ==> !(weight == 0 && list_size >= 1 && all_zero(target_syndrome@)),
            decreases list_size - t,
        {
            let amount = if p2 < part2.len() {
                p2
            } else {
                part2.len()
            };
            let selected_indices = sample_indices(&part2, amount);
            if selected_indices.len() > 0 || p2 == 0 {
                proof {
                    assert forall|i: int|
                        0 <= i < selected_indices@.len() implies #[trigger] selected_indices@[i]
                        < n by {
                        assert(part2@.contains(selected_indices@[i]));
                    }
                }
                let partial_syndrome = calculate_partial_syndrome(h, &selected_indices, r_rows);
                let needed_syndrome = crate::bits::apply_errors(
                    &target_syndrome,
                    &partial_syndrome,
                );
                if let Some(k) = find_entry(&list1, &needed_syndrome) {
                    let indices1 = copy_positions(&list1[k].1);
                    let combined = crate::bits::concat_positions(&indices1, &selected_indices);
                    proof {
                        assert forall|i: int| 0 <= i < combined@.len() implies combined@[i]
                            < n by {
                            if i < indices1@.len() {
                                assert(combined@[i] == indices1@[i]);
                            } else {
                                assert(combined@[i] == selected_indices@[i - indices1@.len()]);
                            }
                        }
                    }
                    let candidate_error = indicator_vector(n, &combined);
                    let check_syndrome = calculate_syndrome(&candidate_error, h);
                    if crate::bits::bytes_eq(&check_syndrome, &target_syndrome) {
                        proof {
                            if weight == 0 {
                                assert(indices1@.len() == 0);
                                assert(combined@.len() == 0);
                                assert(candidate_error@ =~= zero_bits(n as nat));
                            }
                        }
                        return Some(candidate_error);
                    }
                    proof {
                        if weight == 0 && list_size >= 1 && all_zero(target_syndrome@) {
                            assert(combined@.len() == 0);
                            assert(candidate_error@ =~= zero_bits(n as nat));
                            crate::matrix::lemma_syndrome_of_zero(h.mat(), candidate_error@);
                            assert(check_syndrome@ =~= target_syndrome@);
                            assert(false);
                        }
                    }
                } else {
                    proof {
                        if weight == 0 && list_size >= 1 && all_zero(target_syndrome@) {
                            assert(list1@[0].0@.len() == h.rows);
                            crate::bits::lemma_xor_u8_basics(0u8, 0u8);
                            assert(list1@[0].0@ =~= needed_syndrome@);
                            assert(false);
                        }
                    }
                }
            }
            t = t + 1;
        }
        proof {
            if weight == 0 && list_size >= 1 && all_zero(target_syndrome@) {
                assert(list1@.len() >= 1);
            }
        }
        iteration = iteration + 1;
    }
    None
}

} // verus!
