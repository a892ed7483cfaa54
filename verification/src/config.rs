//! Ready-made benchmark configurations: scaling series per code family,
//! MMT-specific setups, and real-world parameter sets.

use vstd::prelude::*;
use crate::types::{Algorithm, BenchmarkConfig, CodeType};

verus! {

impl BenchmarkConfig {
    /// Hamming codes of growing length, one error.
    pub fn hamming_scaling_size(size_index: usize) -> (r: Self)
        requires
            size_index < 4,
        ensures
            r.runs == 100,
            r.algorithm_name == Algorithm::Prange,
            r.p is None,
            r.l1 is None,
            r.l2 is None,
            r.code_type == CodeType::Hamming,
            r.w == 1,
            (r.n, r.k) == (if size_index == 0 {
                (7usize, 4usize)
            } else if size_index == 1 {
                (15usize, 11usize)
            } else if size_index == 2 {
                (31usize, 26usize)
            } else {
                (63usize, 57usize)
            }),
    {
        let (n, k): (usize, usize) = if size_index == 0 {
            (7, 4)
        } else if size_index == 1 {
            (15, 11)
        } else if size_index == 2 {
            (31, 26)
        } else {
            (63, 57)
        };
        BenchmarkConfig { n, k, w: 1, code_type: CodeType::Hamming, ..Default::default() }
    }

    /// The Hamming(31, 26) code with growing error weight.
    pub fn hamming_scaling_weight(weight_index: usize) -> (r: Self)
        requires
            weight_index < 4,
        ensures
            r.runs == 100,
            r.algorithm_name == Algorithm::Prange,
            r.p is None,
            r.l1 is None,
            r.l2 is None,
            r.code_type == CodeType::Hamming,
            r.n == 31 && r.k == 26,
            r.w == (if weight_index == 0 {
                1usize
            } else if weight_index == 1 {
                3usize
            } else if weight_index == 2 {
                5usize
            } else {
                7usize
            }),
    {
        let w: usize = if weight_index == 0 {
            1
        } else if weight_index == 1 {
            3
        } else if weight_index == 2 {
            5
        } else {
            7
        };
        BenchmarkConfig { n: 31, k: 26, w, code_type: CodeType::Hamming, ..Default::default() }
    }

    /// Goppa codes of growing length, two correctable errors.
    pub fn goppa_scaling_size(size_index: usize) -> (r: Self)
        requires
            size_index < 4,
        ensures
            r.runs == 100,
            r.algorithm_name == Algorithm::Prange,
            r.p is None,
            r.l1 is None,
            r.l2 is None,
            r.code_type == CodeType::Goppa,
            r.w == 2,
            (r.n, r.k) == (if size_index == 0 {
                (15usize, 7usize)
            } else if size_index == 1 {
                (31usize, 21usize)
            } else if size_index == 2 {
                (63usize, 51usize)
            } else {
                (127usize, 113usize)
            }),
    {
        let (n, k): (usize, usize) = if size_index == 0 {
            (15, 7)
        } else if size_index == 1 {
            (31, 21)
        } else if size_index == 2 {
            (63, 51)
        } else {
            (127, 113)
        };
        BenchmarkConfig { n, k, w: 2, code_type: CodeType::Goppa, ..Default::default() }
    }

    /// Goppa codes with growing error-correction capability.
    pub fn goppa_scaling_weight(weight_index: usize) -> (r: Self)
        requires
            weight_index < 4,
        ensures
            r.runs == 100,
            r.algorithm_name == Algorithm::Prange,
            r.p is None,
            r.l1 is None,
            r.l2 is None,
            r.code_type == CodeType::Goppa,
            (r.n, r.k, r.w) == (if weight_index == 0 {
                (62usize, 56usize, 1usize)
            } else if weight_index == 1 {
                (63usize, 51usize, 2usize)
            } else if weight_index == 2 {
                (63usize, 45usize, 3usize)
            } else {
                (63usize, 39usize, 4usize)
            }),
    {
        let (n, k, w): (usize, usize, usize) = if weight_index == 0 {
            (62, 56, 1)
        } else if weight_index == 1 {
            (63, 51, 2)
        } else if weight_index == 2 {
            (63, 45, 3)
        } else {
            (63, 39, 4)
        };
        BenchmarkConfig { n, k, w, code_type: CodeType::Goppa, ..Default::default() }
    }

    /// Quasi-cyclic codes of growing length.
    pub fn qc_scaling_size(size_index: usize) -> (r: Self)
        requires
            size_index < 4,
        ensures
            r.runs == 100,
            r.algorithm_name == Algorithm::Prange,
            r.p is None,
            r.l1 is None,
            r.l2 is None,
            r.code_type == CodeType::QuasiCyclic,
            r.w == 2,
            (r.n, r.k) == (if size_index == 0 {
                (30usize, 20usize)
            } else if size_index == 1 {
                (60usize, 40usize)
            } else if size_index == 2 {
                (90usize, 60usize)
            } else {
                (120usize, 80usize)
            }),
    {
        let (n, k): (usize, usize) = if size_index == 0 {
            (30, 20)
        } else if size_index == 1 {
            (60, 40)
        } else if size_index == 2 {
            (90, 60)
        } else {
            (120, 80)
        };
        BenchmarkConfig { n, k, w: 2, code_type: CodeType::QuasiCyclic, ..Default::default() }
    }

    /// The quasi-cyclic (60, 40) code with growing error weight.
    pub fn qc_scaling_weight(weight_index: usize) -> (r: Self)
        requires
            weight_index < 4,
        ensures
            r.runs == 100,
            r.algorithm_name == Algorithm::Prange,
            r.p is None,
            r.l1 is None,
            r.l2 is None,
            r.code_type == CodeType::QuasiCyclic,
            r.n == 60 && r.k == 40,
            r.w == weight_index + 1,
    {
        let w: usize = weight_index + 1;
        BenchmarkConfig { n: 60, k: 40, w, code_type: CodeType::QuasiCyclic, ..Default::default() }
    }

    /// An MMT configuration with explicit partition parameters.
    pub fn mmt_config(n: usize, k: usize, w: usize, code_type: CodeType) -> (r: Self)
        ensures
            r.runs == 100,
            r.algorithm_name == Algorithm::Mmt,
            r.n == n && r.k == k && r.w == w,
            r.code_type == code_type,
            r.p == Some(2usize),
            r.l1 == Some(256usize),
            r.l2 == Some(256usize),
    {
        BenchmarkConfig {
            runs: 100,
            algorithm_name: Algorithm::Mmt,
            n,
            k,
            w,
            code_type,
            p: Some(2),
            l1: Some(256),
            l2: Some(256),
        }
    }

    /// Goppa parameter sets at approximate classical security levels.
    pub fn real_world_goppa(security_level: usize) -> (r: Self)
        requires
            security_level < 4,
        ensures
            r.runs == 100,
            r.algorithm_name == Algorithm::Prange,
            r.p is None,
            r.l1 is None,
            r.l2 is None,
            r.code_type == CodeType::Goppa,
            (r.n, r.k, r.w) == (if security_level == 0 {
                (2047usize, 1695usize, 27usize)
            } else if security_level == 1 {
                (3487usize, 2719usize, 64usize)
            } else if security_level == 2 {
                (4095usize, 3359usize, 96usize)
            } else {
                (6939usize, 5412usize, 119usize)
            }),
    {
        let (n, k, w): (usize, usize, usize) = if security_level == 0 {
            (2047, 1695, 27)
        } else if security_level == 1 {
            (3487, 2719, 64)
        } else if security_level == 2 {
            (4095, 3359, 96)
        } else {
            (6939, 5412, 119)
        };
        BenchmarkConfig { n, k, w, code_type: CodeType::Goppa, ..Default::default() }
    }

    /// Quasi-cyclic parameter sets at approximate security levels.
    pub fn real_world_qc(security_level: usize) -> (r: Self)
        requires
            security_level < 3,
        ensures
            r.runs == 100,
            r.algorithm_name == Algorithm::Prange,
            r.p is None,
            r.l1 is None,
            r.l2 is None,
            r.code_type == CodeType::QuasiCyclic,
            (r.n, r.k, r.w) == (if security_level == 0 {
                (8190usize, 4095usize, 142usize)
            } else if security_level == 1 {
                (16382usize, 8191usize, 159usize)
            } else {
                (24573usize, 8191usize, 199usize)
            }),
    {
        let (n, k, w): (usize, usize, usize) = if security_level == 0 {
            (8190, 4095, 142)
        } else if security_level == 1 {
            (16382, 8191, 159)
        } else {
            (24573, 8191, 199)
        };
        BenchmarkConfig { n, k, w, code_type: CodeType::QuasiCyclic, ..Default::default() }
    }

    /// Replace the algorithm.
    pub fn with_algorithm(self, alg: Algorithm) -> (r: Self)
        ensures
            r.algorithm_name == alg,
            r.runs == self.runs,
            r.n == self.n && r.k == self.k && r.w == self.w,
            r.code_type == self.code_type,
            r.p == self.p && r.l1 == self.l1 && r.l2 == self.l2,
    {
        BenchmarkConfig { algorithm_name: alg, ..self }
    }

    /// Replace the run count.
    pub fn with_runs(self, runs: usize) -> (r: Self)
        ensures
            r.runs == runs,
            r.algorithm_name == self.algorithm_name,
            r.n == self.n && r.k == self.k && r.w == self.w,
            r.code_type == self.code_type,
            r.p == self.p && r.l1 == self.l1 && r.l2 == self.l2,
    {
        BenchmarkConfig { runs, ..self }
    }

    /// Replace the MMT partition parameters.
    pub fn with_mmt_params(self, p: usize, l1: usize, l2: usize) -> (r: Self)
        ensures
            r.p == Some(p) && r.l1 == Some(l1) && r.l2 == Some(l2),
            r.runs == self.runs,
            r.algorithm_name == self.algorithm_name,
            r.n == self.n && r.k == self.k && r.w == self.w,
            r.code_type == self.code_type,
    {
        BenchmarkConfig { p: Some(p), l1: Some(l1), l2: Some(l2), ..self }
    }
}

} // verus!
