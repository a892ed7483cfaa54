//! One full decoding experiment: generate a code, inject a random error,
//! run the chosen decoder, and judge its answer.
//!
//! The runner switches on the closed `Algorithm` variant set, never on a
//! loosely typed name.  A candidate counts as a success only when its
//! syndrome check passes and its weight respects the bound; a success is
//! further classified by whether it reproduces the injected error exactly
//! or is an alternative coset-equivalent pattern.

use vstd::prelude::*;
use crate::bits::weight_of;
use crate::code_generator::{generate_code, CodeGenError};
use crate::matrix::{calculate_syndrome, syndrome_of, BinaryMatrix};
use crate::sampling::generate_random_error_vector;
use crate::types::{Algorithm, CodeParams, CodeType, GoppaParams, PartitionParams};

verus! {

/// How a decoding run ended.
#[derive(Clone, Copy, PartialEq, Eq, Structural, Debug)]
pub enum DecodeVerdict {
    /// The decoder reproduced the injected error exactly.
    ExactError,
    /// The decoder found a different valid error pattern of admissible
    /// weight and matching syndrome.
    AlternativeError,
    /// The decoder returned a vector that fails the syndrome or weight
    /// check.
    InvalidCandidate,
    /// The decoder exhausted its budget without an answer.
    NotFound,
}

/// Everything one decoding experiment produced.
pub struct RunReport {
    pub h: BinaryMatrix,
    pub g: BinaryMatrix,
    pub goppa: Option<GoppaParams>,
    pub original_error: Vec<u8>,
    pub received_vector: Vec<u8>,
    pub decoded_error: Option<Vec<u8>>,
    pub verdict: DecodeVerdict,
}

/// Generate a code of the requested family, inject a weight-`w` error, run
/// the chosen decoder, and classify the outcome.
pub fn run_algorithm(
    algorithm_name: Algorithm,
    code_params: &CodeParams,
    partition_params: Option<&PartitionParams>,
    max_iterations: usize,
    list_size: usize,
) -> (r: Result<RunReport, CodeGenError>)
    requires
        code_params.k >= 1,
        code_params.k < code_params.n,
        code_params.code_type == CodeType::Hamming ==> code_params.n - code_params.k <= 32,
        code_params.w >= 1,
        code_params.w <= code_params.n,
        code_params.w <= usize::MAX / 16,
        algorithm_name == Algorithm::Patterson ==> code_params.code_type == CodeType::Goppa,
    ensures
        r matches Ok(rep) ==> {
            &&& (rep.verdict == DecodeVerdict::NotFound <==> rep.decoded_error is None)
            &&& ((rep.verdict == DecodeVerdict::ExactError || rep.verdict
                == DecodeVerdict::AlternativeError) ==> (rep.decoded_error matches Some(d)
                && weight_of(d@) <= code_params.w && syndrome_of(rep.h.mat(), d@)
                == syndrome_of(rep.h.mat(), rep.original_error@)))
            &&& (rep.verdict == DecodeVerdict::ExactError ==> (rep.decoded_error matches Some(d)
                && d@ == rep.original_error@))
        },
        (code_params.code_type == CodeType::Random || code_params.code_type == CodeType::Hamming)
            ==> r is Ok,
{
    let n = code_params.n;
    let k = code_params.k;
    let w = code_params.w;

    let generated = generate_code(n, k, w, code_params.code_type);
    let (g, h, goppa) = match generated {
        Ok(out) => out,
        Err(e) => {
            return Err(e);
        },
    };

    let original_error = generate_random_error_vector(n, w);

    let is_mmt = matches!(algorithm_name, Algorithm::Mmt);
    let received_vector = if !is_mmt {
        let codeword = g.row(0);
        crate::bits::apply_errors(&codeword, &original_error)
    } else {
        Vec::new()
    };

    let target_syndrome = calculate_syndrome(&original_error, &h);

    let decoded_error: Option<Vec<u8>> = match algorithm_name {
        Algorithm::Prange => {
            crate::prange::run_prange_algorithm(&received_vector, &h, w, max_iterations)
        },
        Algorithm::Stern => crate::stern::run_stern_algorithm(&received_vector, &h, w),
        Algorithm::LeeBrickell => {
            crate::lee_brickell::run_lee_brickell_algorithm(&received_vector, &h, n, w)
        },
        Algorithm::BallCollision => {
            crate::ball_collision::run_ball_collision_algorithm(
                &received_vector,
                &h,
                n,
                w,
                max_iterations,
                list_size,
            )
        },
        Algorithm::Bjmm => {
            crate::bjmm::run_bjmm_algorithm(
                &received_vector,
                &h,
                n,
                w,
                max_iterations,
                list_size,
            )
        },
        Algorithm::Mmt => {
            match partition_params {
                Some(params) => {
                    let p = match params.p {
                        Some(v) => v,
                        None => 2,
                    };
                    let l1 = match params.l1 {
                        Some(v) => v,
                        None => 256,
                    };
                    let l2 = match params.l2 {
                        Some(v) => v,
                        None => 256,
                    };
                    crate::mmt::run_mmt_algorithm(&h, &target_syndrome, n, w, p, l1, l2)
                },
                None => None,
            }
        },
        Algorithm::Patterson => {
            match &goppa {
                Some(gp) => {
                    crate::patterson::run_patterson_algorithm(&received_vector, &h, gp, w)
                },
                None => None,
            }
        },
    };

    let verdict: DecodeVerdict = match &decoded_error {
        None => DecodeVerdict::NotFound,
        Some(decoded) => {
            let weight_ok = crate::bits::calculate_weight(decoded) <= w;
            let syndrome_ok = if decoded.len() != h.cols {
                false
            } else if is_mmt {
                crate::matrix::validate_syndrome(decoded, &target_syndrome, &h)
            } else if received_vector.len() == decoded.len() {
                let corrected = crate::bits::apply_errors(&received_vector, decoded);
                let corrected_syndrome = calculate_syndrome(&corrected, &h);
                crate::bits::is_all_zero(&corrected_syndrome)
            } else {
                false
            };
            if syndrome_ok && weight_ok {
                proof {
                    if !is_mmt {
                        crate::matrix::lemma_syndrome_xor_zero(
                            h.mat(),
                            received_vector@,
                            decoded@,
                        );
                        crate::matrix::lemma_round_trip(
                            h.mat(),
                            g.mat()[0],
                            original_error@,
                            decoded@,
                        );
                    }
                }
                if crate::bits::bytes_eq(decoded, &original_error) {
                    DecodeVerdict::ExactError
                } else {
                    DecodeVerdict::AlternativeError
                }
            } else {
                DecodeVerdict::InvalidCandidate
            }
        },
    };

    Ok(
        RunReport {
            h,
            g,
            goppa,
            original_error,
            received_vector,
            decoded_error,
            verdict,
        },
    )
}

} // verus!
