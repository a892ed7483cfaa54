use pqcat::bits::{calculate_weight, vec_zeros};
use pqcat::field::FiniteField;
use pqcat::matrix::calculate_syndrome;
use pqcat::patterson::{
    berlekamp_massey, compute_syndrome_polynomial, evaluate_poly_horner, find_roots,
    run_patterson_algorithm,
};
use pqcat::polynomial_utils::evaluate_poly;
use pqcat::goppa::generate_goppa_parity_matrix;
use pqcat::types::GoppaParams;

/// A deterministic Goppa instance over GF(2^4): g(z) = z^2 + z + 8 has no
/// roots, so every non-zero field element can sit in the support.
fn small_goppa() -> GoppaParams {
    let field = FiniteField::new(4);
    let goppa_poly: Vec<u32> = vec![8, 1, 1];
    for x in 0u32..16 {
        assert!(evaluate_poly(&goppa_poly, x, &field) != 0);
    }
    let support: Vec<u32> = (1u32..16).collect();
    GoppaParams { field, goppa_poly, support, t: 2 }
}

/// A received word that is already a codeword (here: the zero word) gives
/// an all-zero syndrome polynomial, and the decoder must return the
/// all-zero error vector at once.
#[test]
fn patterson_no_error_terminal_case() {
    let gp = small_goppa();
    let n = gp.support.len();
    let h = generate_goppa_parity_matrix(n, gp.t, &gp.goppa_poly, &gp.support, &gp.field);
    let received = vec_zeros(n);
    let decoded = run_patterson_algorithm(&received, &h, &gp, 2).unwrap();
    assert_eq!(decoded, vec_zeros(n));
}

/// Goppa code with t = 2 and a single injected error: Patterson recovers
/// exactly that position.
#[test]
fn patterson_recovers_single_error() {
    let gp = small_goppa();
    let n = gp.support.len();
    let h = generate_goppa_parity_matrix(n, gp.t, &gp.goppa_poly, &gp.support, &gp.field);

    // Transmit the zero codeword; the received word is the error itself.
    let mut received = vec_zeros(n);
    received[2] = 1;

    let decoded = run_patterson_algorithm(&received, &h, &gp, 1)
        .expect("a single error within t = 2 must be corrected");
    assert_eq!(calculate_weight(&decoded), 1);
    assert_eq!(decoded[2], 1);
}

#[test]
fn patterson_corrected_word_has_zero_syndrome() {
    let gp = small_goppa();
    let n = gp.support.len();
    let h = generate_goppa_parity_matrix(n, gp.t, &gp.goppa_poly, &gp.support, &gp.field);

    let mut received = vec_zeros(n);
    received[4] = 1;
    received[9] = 1;

    if let Some(decoded) = run_patterson_algorithm(&received, &h, &gp, 2) {
        assert!(calculate_weight(&decoded) <= 2);
        let corrected = pqcat::bits::apply_errors(&received, &decoded);
        assert_eq!(calculate_syndrome(&corrected, &h), vec_zeros(h.rows));
    }
}

#[test]
fn syndrome_polynomial_of_zero_word_is_zero() {
    let gp = small_goppa();
    let n = gp.support.len();
    let received = vec_zeros(n);
    let syndrome = compute_syndrome_polynomial(&received, &gp, n);
    assert_eq!(syndrome, vec![0, 0]);
}

#[test]
fn syndrome_polynomial_of_single_error_is_nonzero() {
    let gp = small_goppa();
    let n = gp.support.len();
    let mut received = vec_zeros(n);
    received[2] = 1;
    let syndrome = compute_syndrome_polynomial(&received, &gp, n);
    assert!(syndrome.iter().any(|&c| c != 0));
}

#[test]
fn berlekamp_massey_output_has_bounded_degree() {
    let field = FiniteField::new(4);
    let syndrome: Vec<u32> = vec![3, 7, 1, 9];
    let sigma = berlekamp_massey(&syndrome, &field, 2);
    assert!(!sigma.is_empty());
    assert!(sigma.len() <= 3);
    for &c in &sigma {
        assert!(c < 16);
    }
}

#[test]
fn horner_agrees_with_evaluate_poly() {
    let field = FiniteField::new(4);
    let poly: Vec<u32> = vec![5, 0, 3, 1];
    for x in 0u32..16 {
        assert_eq!(
            evaluate_poly_horner(&poly, x, &field),
            evaluate_poly(&poly, x, &field)
        );
    }
}

#[test]
fn find_roots_flags_exactly_the_zeros() {
    let field = FiniteField::new(3);
    // sigma(z) = z ^ 3: root at z = 3 only.
    let sigma: Vec<u32> = vec![3, 1];
    let support: Vec<u32> = (1u32..8).collect();
    let roots = find_roots(&sigma, &support, &field, 7);
    assert_eq!(roots, vec![2]);
}

#[test]
fn berlekamp_massey_of_zero_syndrome_is_constant_one() {
    let field = FiniteField::new(2);
    let syndrome: Vec<u32> = vec![0, 0];
    assert_eq!(berlekamp_massey(&syndrome, &field, 1), vec![1]);
}
