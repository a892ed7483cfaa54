use pqcat::field::FiniteField;
use pqcat::polynomial_utils::{evaluate_poly, random_irreducible_poly, trim_polynomial};

#[test]
fn gf8_multiply_matches_hand_table() {
    let field = FiniteField::new(3);
    assert_eq!(field.poly, 0b1011);
    assert_eq!(field.field_multiply(3, 5), 4);
    assert_eq!(field.field_multiply(6, 7), 4);
    assert_eq!(field.field_multiply(0, 5), 0);
    assert_eq!(field.field_multiply(5, 0), 0);
    assert_eq!(field.field_multiply(1, 6), 6);
}

#[test]
fn gf8_multiply_inverse_is_one_for_every_nonzero_element() {
    let field = FiniteField::new(3);
    for a in 1u32..8 {
        let inv = field.inverse(a);
        assert_eq!(field.field_multiply(a, inv), 1, "a = {}", a);
    }
}

#[test]
fn gf8_known_inverses() {
    let field = FiniteField::new(3);
    assert_eq!(field.inverse(1), 1);
    assert_eq!(field.inverse(2), 5);
    assert_eq!(field.inverse(3), 6);
    assert_eq!(field.inverse(7), 4);
}

#[test]
fn field_add_is_xor() {
    let field = FiniteField::new(3);
    assert_eq!(field.field_add(5, 3), 6);
    assert_eq!(field.field_add(7, 7), 0);
    assert_eq!(field.field_add(0, 4), 4);
}

#[test]
fn multiply_stays_in_field_for_larger_degrees() {
    for m in 2u8..=16 {
        let field = FiniteField::new(m);
        assert_eq!(field.get_m(), m);
        let size = 1u32 << (m as u32);
        let a = size - 1;
        let b = size - 2;
        assert!(field.field_multiply(a, b) < size);
        let inv = field.inverse(a);
        assert_eq!(field.field_multiply(a, inv), 1, "m = {}", m);
    }
}

#[test]
fn evaluate_poly_horner_concrete() {
    let field = FiniteField::new(3);
    let poly: Vec<u32> = vec![1, 1, 1];
    assert_eq!(evaluate_poly(&poly, 2, &field), 7);
    assert_eq!(evaluate_poly(&poly, 0, &field), 1);
    let empty: Vec<u32> = Vec::new();
    assert_eq!(evaluate_poly(&empty, 3, &field), 0);
}

#[test]
fn trim_polynomial_removes_leading_zeros_only() {
    let mut poly: Vec<u32> = vec![1, 2, 0, 0];
    trim_polynomial(&mut poly);
    assert_eq!(poly, vec![1, 2]);

    let mut zero: Vec<u32> = vec![0, 0, 0];
    trim_polynomial(&mut zero);
    assert_eq!(zero, vec![0]);

    let mut keep: Vec<u32> = vec![0, 5];
    trim_polynomial(&mut keep);
    assert_eq!(keep, vec![0, 5]);
}

#[test]
fn random_irreducible_poly_is_monic_with_nonzero_constant() {
    let field = FiniteField::new(4);
    for _ in 0..10 {
        let poly = random_irreducible_poly(3, &field);
        assert_eq!(poly.len(), 4);
        assert_eq!(poly[3], 1);
        assert!(poly[0] != 0);
        for &c in &poly {
            assert!(c < 16);
        }
    }
}

#[test]
fn poly_add_is_coefficientwise_xor_with_trim() {
    let field = FiniteField::new(3);
    let a: Vec<u32> = vec![1, 2, 3];
    let b: Vec<u32> = vec![5, 2];
    assert_eq!(pqcat::polynomial_utils::poly_add(&a, &b, &field), vec![4, 0, 3]);
    // Cancelling leading terms trims the result down.
    let c: Vec<u32> = vec![1, 0, 3];
    let d: Vec<u32> = vec![0, 6, 3];
    assert_eq!(pqcat::polynomial_utils::poly_add(&c, &d, &field), vec![1, 6]);
}

#[test]
fn poly_multiply_is_field_convolution() {
    let field = FiniteField::new(3);
    // (1 + z) * (1 + z) over GF(2) coefficients: 1 + z^2.
    let one_plus_z: Vec<u32> = vec![1, 1];
    assert_eq!(
        pqcat::polynomial_utils::poly_multiply(&one_plus_z, &one_plus_z, &field),
        vec![1, 0, 1]
    );
    // (3 + 2z) * 5: coefficients multiply in GF(8).
    let a: Vec<u32> = vec![3, 2];
    let b: Vec<u32> = vec![5];
    assert_eq!(pqcat::polynomial_utils::poly_multiply(&a, &b, &field), vec![4, 1]);
}

#[test]
fn poly_divide_recovers_quotient_and_remainder() {
    let field = FiniteField::new(3);
    // z^2 + 1 = (z + 1) * (z + 1) over GF(2) coefficients.
    let a: Vec<u32> = vec![1, 0, 1];
    let b: Vec<u32> = vec![1, 1];
    let (q, r) = pqcat::polynomial_utils::poly_divide(&a, &b, &field);
    assert_eq!(q, vec![1, 1]);
    assert_eq!(r, vec![0]);
    assert_eq!(pqcat::polynomial_utils::poly_mod(&a, &b, &field), vec![0]);

    // A division that leaves a remainder: z^2 divided by z + 1.
    let a2: Vec<u32> = vec![0, 0, 1];
    let (q2, r2) = pqcat::polynomial_utils::poly_divide(&a2, &b, &field);
    assert_eq!(q2, vec![1, 1]);
    assert_eq!(r2, vec![1]);
    // Check the division identity a = q*b + r on these values.
    let qb = pqcat::polynomial_utils::poly_multiply(&q2, &b, &field);
    let back = pqcat::polynomial_utils::poly_add(&qb, &r2, &field);
    assert_eq!(back, vec![0, 0, 1]);
}
