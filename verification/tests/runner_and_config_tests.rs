use pqcat::algorithm_runner::{run_algorithm, DecodeVerdict};
use pqcat::bits::calculate_weight;
use pqcat::types::{Algorithm, BenchmarkConfig, CodeParams, CodeType, PartitionParams};

#[test]
fn runner_prange_on_hamming_succeeds() {
    let params = CodeParams { n: 7, k: 4, w: 1, code_type: CodeType::Hamming };
    let report = run_algorithm(Algorithm::Prange, &params, None, 2000, 256).unwrap();
    assert!(matches!(
        report.verdict,
        DecodeVerdict::ExactError | DecodeVerdict::AlternativeError
    ));
    let decoded = report.decoded_error.unwrap();
    assert!(calculate_weight(&decoded) <= 1);
}

#[test]
fn runner_not_found_means_no_vector() {
    // MMT without partition parameters cannot decode at all.
    let params = CodeParams { n: 12, k: 6, w: 2, code_type: CodeType::Random };
    let report = run_algorithm(Algorithm::Mmt, &params, None, 10, 16).unwrap();
    assert!(matches!(report.verdict, DecodeVerdict::NotFound));
    assert!(report.decoded_error.is_none());
}

#[test]
fn runner_mmt_with_partitions_reports_consistently() {
    let params = CodeParams { n: 12, k: 6, w: 2, code_type: CodeType::Random };
    let partitions = PartitionParams { p: Some(2), l1: Some(64), l2: Some(64) };
    let report = run_algorithm(Algorithm::Mmt, &params, Some(&partitions), 10, 16).unwrap();
    match report.verdict {
        DecodeVerdict::ExactError | DecodeVerdict::AlternativeError => {
            let decoded = report.decoded_error.unwrap();
            assert!(calculate_weight(&decoded) <= 2);
        }
        DecodeVerdict::NotFound => assert!(report.decoded_error.is_none()),
        DecodeVerdict::InvalidCandidate => {
            panic!("MMT verifies weight and syndrome before returning");
        }
    }
}

#[test]
fn hamming_scaling_size_table() {
    let c = BenchmarkConfig::hamming_scaling_size(0);
    assert_eq!((c.n, c.k, c.w), (7, 4, 1));
    assert!(matches!(c.code_type, CodeType::Hamming));
    let c3 = BenchmarkConfig::hamming_scaling_size(3);
    assert_eq!((c3.n, c3.k), (63, 57));
}

#[test]
fn hamming_scaling_weight_table() {
    let c = BenchmarkConfig::hamming_scaling_weight(2);
    assert_eq!((c.n, c.k, c.w), (31, 26, 5));
}

#[test]
fn goppa_scaling_tables() {
    let c = BenchmarkConfig::goppa_scaling_size(1);
    assert_eq!((c.n, c.k, c.w), (31, 21, 2));
    let c2 = BenchmarkConfig::goppa_scaling_weight(3);
    assert_eq!((c2.n, c2.k, c2.w), (63, 39, 4));
}

#[test]
fn qc_scaling_tables() {
    let c = BenchmarkConfig::qc_scaling_size(2);
    assert_eq!((c.n, c.k, c.w), (90, 60, 2));
    let c2 = BenchmarkConfig::qc_scaling_weight(0);
    assert_eq!((c2.n, c2.k, c2.w), (60, 40, 1));
}

#[test]
fn real_world_tables() {
    let c = BenchmarkConfig::real_world_goppa(0);
    assert_eq!((c.n, c.k, c.w), (2047, 1695, 27));
    let c2 = BenchmarkConfig::real_world_qc(2);
    assert_eq!((c2.n, c2.k, c2.w), (24573, 8191, 199));
}

#[test]
fn mmt_config_sets_partition_parameters() {
    let c = BenchmarkConfig::mmt_config(31, 15, 4, CodeType::Random);
    assert!(matches!(c.algorithm_name, Algorithm::Mmt));
    assert_eq!((c.p, c.l1, c.l2), (Some(2), Some(256), Some(256)));
    assert_eq!(c.runs, 100);
}

#[test]
fn builders_replace_single_fields() {
    let c = BenchmarkConfig::hamming_scaling_size(1)
        .with_algorithm(Algorithm::Stern)
        .with_runs(7)
        .with_mmt_params(2, 9, 11);
    assert!(matches!(c.algorithm_name, Algorithm::Stern));
    assert_eq!(c.runs, 7);
    assert_eq!((c.p, c.l1, c.l2), (Some(2), Some(9), Some(11)));
    assert_eq!((c.n, c.k, c.w), (15, 11, 1));
}

#[test]
fn default_configs() {
    let c = BenchmarkConfig::default();
    assert_eq!((c.runs, c.n, c.k, c.w), (100, 15, 11, 1));
    assert!(matches!(c.algorithm_name, Algorithm::Prange));
    assert!(matches!(c.code_type, CodeType::Hamming));
    let p = PartitionParams::default();
    assert_eq!((p.p, p.l1, p.l2), (Some(2), Some(1), Some(1)));
}
