//! Shared parameter and result types.

use vstd::prelude::*;
use crate::field::FiniteField;
use crate::polynomial_utils::coeffs_wf;

verus! {

/// The parameters that define a binary Goppa code: the field, the Goppa
/// polynomial of degree `t`, and the support set.
#[derive(Clone)]
pub struct GoppaParams {
    pub field: FiniteField,
    pub goppa_poly: Vec<u32>,
    pub support: Vec<u32>,
    pub t: usize,
}

impl GoppaParams {
    /// The field is valid, the polynomial has degree `t`, and every
    /// coefficient and support element lies in the field.
    pub open spec fn wf(&self) -> bool {
        &&& self.field.wf()
        &&& self.t >= 1
        &&& self.goppa_poly@.len() == self.t + 1
        &&& coeffs_wf(self.field, self.goppa_poly@)
        &&& forall|i: int|
            0 <= i < self.support@.len() ==> self.field.elem_wf(#[trigger] self.support@[i])
    }
}

/// The six decoding strategies, as a closed set of variants.
#[derive(Clone, Copy, PartialEq, Eq, Structural, Debug)]
pub enum Algorithm {
    Prange,
    Stern,
    LeeBrickell,
    BallCollision,
    Bjmm,
    Mmt,
    Patterson,
}

/// The code families the generator can produce.
#[derive(Clone, Copy, PartialEq, Eq, Structural, Debug)]
pub enum CodeType {
    Random,
    Hamming,
    Goppa,
    QuasiCyclic,
}

/// Parameters of one code instance: length, dimension, and error weight.
#[derive(Clone)]
pub struct CodeParams {
    pub n: usize,
    pub k: usize,
    pub w: usize,
    pub code_type: CodeType,
}

/// Optional partition parameters, used only by the MMT search.
#[derive(Clone)]
pub struct PartitionParams {
    pub p: Option<usize>,
    pub l1: Option<usize>,
    pub l2: Option<usize>,
}

impl Default for PartitionParams {
    /// Two partitions with single-sample lists.
    fn default() -> (r: Self)
        ensures
            r.p == Some(2usize),
            r.l1 == Some(1usize),
            r.l2 == Some(1usize),
    {
        PartitionParams { p: Some(2), l1: Some(1), l2: Some(1) }
    }
}

/// One benchmark configuration: an algorithm, a code, and a run count.
pub struct BenchmarkConfig {
    pub runs: usize,
    pub algorithm_name: Algorithm,
    pub n: usize,
    pub k: usize,
    pub w: usize,
    pub code_type: CodeType,
    pub p: Option<usize>,
    pub l1: Option<usize>,
    pub l2: Option<usize>,
}

impl Default for BenchmarkConfig {
    /// One hundred Prange runs on the Hamming(15, 11) code with one error.
    fn default() -> (r: Self)
        ensures
            r.runs == 100,
            r.algorithm_name == Algorithm::Prange,
            r.n == 15,
            r.k == 11,
            r.w == 1,
            r.code_type == CodeType::Hamming,
            r.p is None,
            r.l1 is None,
            r.l2 is None,
    {
        BenchmarkConfig {
            runs: 100,
            algorithm_name: Algorithm::Prange,
            n: 15,
            k: 11,
            w: 1,
            code_type: CodeType::Hamming,
            p: None,
            l1: None,
            l2: None,
        }
    }
}

/// Timing and success of one benchmark run, as the harness measured it.
pub struct BenchmarkResult {
    pub duration: u64,
    pub memory: u64,
    pub success: bool,
}

/// Opaque counters a decoder invocation may report: elapsed time and peak
/// memory, filled in by the measuring caller.
pub struct AlgorithmMetrics {
    pub time: usize,
    pub peak_memory: usize,
}

} // verus!
