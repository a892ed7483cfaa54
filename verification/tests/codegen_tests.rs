use pqcat::bits::vec_zeros;
use pqcat::code_generator::{
    generate_code, generate_goppa_code, generate_hamming_code, generate_qc_code,
    generate_random_code, CodeGenError,
};
use pqcat::goppa::generate_valid_goppa_params;
use pqcat::matrix::{calculate_syndrome, BinaryMatrix};
use pqcat::polynomial_utils::evaluate_poly;
use pqcat::types::CodeType;

fn rows_are_codewords(g: &BinaryMatrix, h: &BinaryMatrix) -> bool {
    let zero = vec_zeros(h.rows);
    for i in 0..g.rows {
        let row = g.row(i);
        if calculate_syndrome(&row, h) != zero {
            return false;
        }
    }
    true
}

#[test]
fn random_code_is_systematic_and_consistent() {
    let (g, h) = generate_random_code(10, 4).unwrap();
    assert_eq!((g.rows, g.cols), (4, 10));
    assert_eq!((h.rows, h.cols), (6, 10));
    assert!(rows_are_codewords(&g, &h));
}

#[test]
fn hamming_code_is_systematic_and_consistent() {
    let (g, h) = generate_hamming_code(7, 4).unwrap();
    assert_eq!((g.rows, g.cols), (4, 7));
    assert_eq!((h.rows, h.cols), (3, 7));
    assert!(rows_are_codewords(&g, &h));
}

#[test]
fn qc_code_is_systematic_and_consistent() {
    let (g, h) = generate_qc_code(30, 20).unwrap();
    assert_eq!((g.rows, g.cols), (20, 30));
    assert_eq!((h.rows, h.cols), (10, 30));
    assert!(rows_are_codewords(&g, &h));
}

#[test]
fn qc_code_rejects_non_multiple_lengths() {
    assert_eq!(
        generate_qc_code(10, 3).map(|_| ()),
        Err(CodeGenError::InvalidParameters)
    );
}

#[test]
fn goppa_code_rejects_oversized_dimension() {
    // n = 15 gives m = 4, so k must stay at or below n - m*t = 7.
    assert_eq!(
        generate_goppa_code(15, 14, 2).map(|_| ()),
        Err(CodeGenError::InvalidParameters)
    );
}

#[test]
fn goppa_code_produces_valid_parameters() {
    let (g, h, gp) = generate_goppa_code(15, 7, 2).unwrap();
    assert_eq!(g.cols, 15);
    assert_eq!(h.cols, 15);
    assert_eq!(gp.t, 2);
    assert_eq!(gp.support.len(), 15);
    for &x in &gp.support {
        assert!(x != 0);
        assert!(evaluate_poly(&gp.goppa_poly, x, &gp.field) != 0);
    }
}

#[test]
fn generate_code_dispatches_on_family() {
    let (_g, h, gp) = generate_code(10, 4, 1, CodeType::Random).unwrap();
    assert_eq!(h.cols, 10);
    assert!(gp.is_none());

    let (_g, h, gp) = generate_code(15, 11, 1, CodeType::Hamming).unwrap();
    assert_eq!(h.cols, 15);
    assert!(gp.is_none());

    let (_g, h, gp) = generate_code(30, 20, 2, CodeType::QuasiCyclic).unwrap();
    assert_eq!(h.cols, 30);
    assert!(gp.is_none());

    let (_g, h, gp) = generate_code(15, 7, 2, CodeType::Goppa).unwrap();
    assert_eq!(h.cols, 15);
    assert!(gp.is_some());
}

#[test]
fn valid_goppa_params_have_distinct_nonroot_support() {
    let (gpoly, support, field) = generate_valid_goppa_params(12, 2).unwrap();
    assert!(gpoly.len() >= 2);
    for i in 0..support.len() {
        assert!(support[i] != 0);
        assert!(evaluate_poly(&gpoly, support[i], &field) != 0);
        for j in (i + 1)..support.len() {
            assert!(support[i] != support[j]);
        }
    }
}

#[test]
fn goppa_code_reports_construction_failure_for_oversized_length() {
    // No field degree up to 16 can hold a support of this size.
    assert_eq!(
        generate_goppa_code(70000, 1, 1).map(|_| ()),
        Err(CodeGenError::ConstructionFailed)
    );
}
