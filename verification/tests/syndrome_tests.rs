use pqcat::bits::{apply_errors, calculate_weight, indicator_vector, vec_zeros};
use pqcat::matrix::{
    calculate_partial_syndrome, calculate_syndrome, validate_syndrome, BinaryMatrix,
};

fn matrix_from(rows: usize, cols: usize, entries: &[&[u8]]) -> BinaryMatrix {
    let mut h = BinaryMatrix::zeros(rows, cols);
    for (i, row) in entries.iter().enumerate() {
        for (j, &bit) in row.iter().enumerate() {
            h.set(i, j, bit);
        }
    }
    h
}

#[test]
fn syndrome_of_concrete_vector() {
    let h = matrix_from(2, 3, &[&[1, 0, 1], &[0, 1, 1]]);
    let e: Vec<u8> = vec![1, 1, 0];
    assert_eq!(calculate_syndrome(&e, &h), vec![1, 1]);
    let e2: Vec<u8> = vec![0, 0, 1];
    assert_eq!(calculate_syndrome(&e2, &h), vec![1, 1]);
}

#[test]
fn zero_vector_has_zero_syndrome() {
    let h = matrix_from(3, 5, &[&[1, 1, 0, 1, 0], &[0, 1, 1, 0, 1], &[1, 0, 1, 1, 1]]);
    let zero = vec_zeros(5);
    assert_eq!(calculate_syndrome(&zero, &h), vec![0, 0, 0]);
}

#[test]
fn syndrome_is_linear_on_concrete_vectors() {
    let h = matrix_from(3, 6, &[
        &[1, 0, 1, 1, 0, 0],
        &[0, 1, 1, 0, 1, 0],
        &[1, 1, 0, 0, 0, 1],
    ]);
    let a: Vec<u8> = vec![1, 0, 1, 0, 1, 0];
    let b: Vec<u8> = vec![0, 1, 1, 1, 0, 1];
    let a_xor_b = apply_errors(&a, &b);
    let sa = calculate_syndrome(&a, &h);
    let sb = calculate_syndrome(&b, &h);
    let s_sum = apply_errors(&sa, &sb);
    assert_eq!(calculate_syndrome(&a_xor_b, &h), s_sum);
}

#[test]
fn apply_errors_is_pointwise_xor() {
    let c: Vec<u8> = vec![1, 0, 1, 1];
    let e: Vec<u8> = vec![0, 0, 1, 1];
    assert_eq!(apply_errors(&c, &e), vec![1, 0, 0, 0]);
    let same = apply_errors(&c, &c);
    assert_eq!(same, vec![0, 0, 0, 0]);
}

#[test]
fn weight_counts_ones() {
    assert_eq!(calculate_weight(&vec![0, 1, 1, 0, 1]), 3);
    assert_eq!(calculate_weight(&vec![0, 0, 0]), 0);
    assert_eq!(calculate_weight(&Vec::new()), 0);
}

#[test]
fn partial_syndrome_equals_syndrome_of_indicator() {
    let h = matrix_from(3, 6, &[
        &[1, 0, 1, 1, 0, 0],
        &[0, 1, 1, 0, 1, 0],
        &[1, 1, 0, 0, 0, 1],
    ]);
    let positions: Vec<usize> = vec![0, 2, 5];
    let partial = calculate_partial_syndrome(&h, &positions, 3);
    let e = indicator_vector(6, &positions);
    assert_eq!(partial, calculate_syndrome(&e, &h));
}

#[test]
fn validate_syndrome_accepts_and_rejects() {
    let h = matrix_from(2, 3, &[&[1, 0, 1], &[0, 1, 1]]);
    let e: Vec<u8> = vec![1, 1, 0];
    let s = calculate_syndrome(&e, &h);
    assert!(validate_syndrome(&e, &s, &h));
    let wrong: Vec<u8> = vec![0, 0];
    assert!(!validate_syndrome(&e, &wrong, &h));
}

#[test]
fn indicator_vector_marks_positions() {
    let positions: Vec<usize> = vec![1, 3];
    let v = indicator_vector(5, &positions);
    assert_eq!(v, vec![0, 1, 0, 1, 0]);
    assert_eq!(calculate_weight(&v), 2);
}
