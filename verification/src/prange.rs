//! Prange's information-set-decoding search.
//!
//! Each iteration draws a fresh random weight-`w` candidate and accepts it
//! exactly when its syndrome equals the target syndrome of the received
//! vector.  Failure after the iteration cap is an expected outcome of the
//! probabilistic search, reported as `None`.

use vstd::prelude::*;
use crate::bits::{all_zero, indicator, is_bits, weight_of, zero_bits};
use crate::matrix::{calculate_syndrome, syndrome_of, BinaryMatrix};
use crate::sampling::random_permutation;

verus! {

/// Search for an error vector of weight exactly `weight` whose syndrome
/// matches that of the received vector, by random information-set guessing.
///
/// A returned vector always has the target syndrome; when the received
/// vector is already a codeword and the weight asked for is zero, the first
/// iteration is guaranteed to succeed with the zero vector.
pub fn run_prange_algorithm(
    received_vector: &Vec<u8>,
    h: &BinaryMatrix,
    weight: usize,
    max_iterations: usize,
) -> (r: Option<Vec<u8>>)
    requires
        h.wf(),
        received_vector@.len() == h.cols,
        weight <= h.cols,
    ensures
        r matches Some(e) ==> {
            &&& e@.len() == h.cols
            &&& is_bits(e@)
            &&& weight_of(e@) == weight
            &&& syndrome_of(h.mat(), e@) == syndrome_of(h.mat(), received_vector@)
        },
        (weight == 0 && max_iterations >= 1 && all_zero(
            syndrome_of(h.mat(), received_vector@),
        )) ==> (r matches Some(e) && e@ == zero_bits(h.cols as nat)),
{
    let n = h.cols;
    let target_syndrome = calculate_syndrome(received_vector, h);
    let mut loop_count: usize = 0;

    while loop_count < max_iterations
        invariant
            h.wf(),
            n == h.cols,
            target_syndrome@ == syndrome_of(h.mat(), received_vector@),
            received_vector@.len() == h.cols,
            weight <= h.cols,
            0 <= loop_count <= max_iterations,
            loop_count >= 1 ==> !(weight == 0 && all_zero(target_syndrome@)),
        decreases max_iterations - loop_count,
    {
        let indices = random_permutation(n);
        let mut chosen: Vec<usize> = Vec::new();
        let mut i: usize = 0;
        while i < weight
            invariant
                0 <= i <= weight,
                weight <= indices@.len(),
                forall|x: usize| indices@.contains(x) <==> x < n,
                chosen@ == indices@.take(i as int),
            decreases weight - i,
        {
            proof {
                assert(indices@.take(i + 1) =~= indices@.take(i as int).push(
                    indices@[i as int],
                ));
            }
            chosen.push(indices[i]);
            i = i + 1;
        }
        proof {
            assert(indices@.take(weight as int).no_duplicates());
            assert forall|j: int| 0 <= j < chosen@.len() implies chosen@[j] < n by {
                assert(indices@.contains(indices@[j]));
            }
        }
        let candidate_error = crate::bits::indicator_vector(n, &chosen);
        let candidate_syndrome = calculate_syndrome(&candidate_error, h);
        if crate::bits::bytes_eq(&candidate_syndrome, &target_syndrome) {
            proof {
                if weight == 0 {
                    assert(candidate_error@ =~= zero_bits(n as nat));
                }
            }
            return Some(candidate_error);
        }
        proof {
            if weight == 0 && all_zero(target_syndrome@) {
                assert(chosen@ =~= Seq::<usize>::empty());
                assert(candidate_error@ =~= zero_bits(n as nat));
                crate::matrix::lemma_syndrome_of_zero(h.mat(), candidate_error@);
                assert(candidate_syndrome@ =~= target_syndrome@);
                assert(false);
            }
        }
        loop_count = loop_count + 1;
    }
    None
}

} // verus!
