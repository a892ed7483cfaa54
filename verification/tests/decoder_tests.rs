use pqcat::ball_collision::run_ball_collision_algorithm;
use pqcat::bits::{apply_errors, calculate_weight, vec_zeros};
use pqcat::bjmm::run_bjmm_algorithm;
use pqcat::code_generator::{generate_hamming_code, generate_random_code};
use pqcat::lee_brickell::run_lee_brickell_algorithm;
use pqcat::matrix::calculate_syndrome;
use pqcat::mmt::run_mmt_algorithm;
use pqcat::prange::run_prange_algorithm;
use pqcat::stern::run_stern_algorithm;

/// Hamming(7, 4) with a weight-1 error at position 2: Prange must recover a
/// weight-1 vector with the right syndrome within its iteration cap.
#[test]
fn prange_recovers_weight_one_error_on_hamming_7_4() {
    let (g, h) = generate_hamming_code(7, 4).unwrap();
    let mut error: Vec<u8> = vec_zeros(7);
    error[2] = 1;
    let codeword = g.row(0);
    let received = apply_errors(&codeword, &error);

    let decoded = run_prange_algorithm(&received, &h, 1, 2000);
    let decoded = decoded.expect("Prange should succeed on Hamming(7,4) with w = 1");
    assert_eq!(calculate_weight(&decoded), 1);
    assert_eq!(
        calculate_syndrome(&decoded, &h),
        calculate_syndrome(&error, &h)
    );
}

/// Stern on a random (20, 10) code with an injected weight-4 error: any
/// returned vector must have weight at most 4 and the matching syndrome;
/// a `None` is also a legal outcome of the probabilistic search.
#[test]
fn stern_never_returns_a_mismatched_vector() {
    let (g, h) = generate_random_code(20, 10).unwrap();
    let mut error: Vec<u8> = vec_zeros(20);
    for &i in &[1usize, 5, 11, 17] {
        error[i] = 1;
    }
    let codeword = g.row(0);
    let received = apply_errors(&codeword, &error);

    match run_stern_algorithm(&received, &h, 4) {
        Some(decoded) => {
            assert!(calculate_weight(&decoded) <= 4);
            assert_eq!(
                calculate_syndrome(&decoded, &h),
                calculate_syndrome(&error, &h)
            );
        }
        None => {
            // Exhausting the search without an answer is an expected
            // outcome; what is forbidden is a wrong vector.
        }
    }
}

/// Round trip: a successful decode of `G.row(0) XOR e` has the syndrome of
/// `e` itself, because codewords have zero syndrome.
#[test]
fn round_trip_syndromes_agree_for_lee_brickell() {
    let (g, h) = generate_random_code(16, 8).unwrap();
    let mut error: Vec<u8> = vec_zeros(16);
    error[3] = 1;
    error[12] = 1;
    let codeword = g.row(0);
    assert_eq!(calculate_syndrome(&codeword, &h), vec_zeros(8));
    let received = apply_errors(&codeword, &error);

    if let Some(decoded) = run_lee_brickell_algorithm(&received, &h, 16, 2) {
        assert!(calculate_weight(&decoded) <= 2);
        assert_eq!(
            calculate_syndrome(&decoded, &h),
            calculate_syndrome(&error, &h)
        );
    }
}

/// Weight zero always succeeds trivially when the received vector is
/// already a codeword.
#[test]
fn weight_zero_succeeds_trivially_prange() {
    let (g, h) = generate_hamming_code(15, 11).unwrap();
    let codeword = g.row(0);
    let decoded = run_prange_algorithm(&codeword, &h, 0, 10).unwrap();
    assert_eq!(decoded, vec_zeros(15));
}

#[test]
fn weight_zero_succeeds_trivially_stern() {
    let (g, h) = generate_hamming_code(15, 11).unwrap();
    let codeword = g.row(0);
    let decoded = run_stern_algorithm(&codeword, &h, 0).unwrap();
    assert_eq!(decoded, vec_zeros(15));
}

#[test]
fn weight_zero_succeeds_trivially_lee_brickell() {
    let (g, h) = generate_random_code(12, 6).unwrap();
    let codeword = g.row(0);
    let decoded = run_lee_brickell_algorithm(&codeword, &h, 12, 0).unwrap();
    assert_eq!(decoded, vec_zeros(12));
}

#[test]
fn weight_zero_succeeds_trivially_mmt() {
    let (_g, h) = generate_random_code(12, 6).unwrap();
    let zero_syndrome = vec_zeros(6);
    let decoded = run_mmt_algorithm(&h, &zero_syndrome, 12, 0, 2, 4, 4)
        .expect("MMT should match the zero syndrome with the empty pattern");
    assert_eq!(decoded, vec_zeros(12));
}

/// Ball-collision only returns candidates whose full syndrome was verified.
#[test]
fn ball_collision_result_is_verified() {
    let (g, h) = generate_random_code(14, 7).unwrap();
    let mut error: Vec<u8> = vec_zeros(14);
    error[2] = 1;
    error[9] = 1;
    let codeword = g.row(0);
    let received = apply_errors(&codeword, &error);

    if let Some(decoded) = run_ball_collision_algorithm(&received, &h, 14, 2, 50, 64) {
        assert!(calculate_weight(&decoded) <= 2);
        assert_eq!(
            calculate_syndrome(&decoded, &h),
            calculate_syndrome(&received, &h)
        );
    }
}

/// BJMM only returns candidates whose full syndrome was verified.
#[test]
fn bjmm_result_is_verified() {
    let (g, h) = generate_random_code(16, 8).unwrap();
    let mut error: Vec<u8> = vec_zeros(16);
    error[1] = 1;
    error[6] = 1;
    error[10] = 1;
    error[15] = 1;
    let codeword = g.row(0);
    let received = apply_errors(&codeword, &error);

    if let Some(decoded) = run_bjmm_algorithm(&received, &h, 16, 4, 10, 32) {
        assert!(calculate_weight(&decoded) <= 4);
        assert_eq!(
            calculate_syndrome(&decoded, &h),
            calculate_syndrome(&received, &h)
        );
    }
}

/// MMT verifies both the weight and the full syndrome before returning.
#[test]
fn mmt_result_has_exact_weight_and_syndrome() {
    let (_g, h) = generate_random_code(12, 6).unwrap();
    let mut error: Vec<u8> = vec_zeros(12);
    error[0] = 1;
    error[7] = 1;
    let syndrome = calculate_syndrome(&error, &h);

    if let Some(decoded) = run_mmt_algorithm(&h, &syndrome, 12, 2, 2, 128, 128) {
        assert_eq!(calculate_weight(&decoded), 2);
        assert_eq!(calculate_syndrome(&decoded, &h), syndrome);
    }
}

#[test]
fn weight_zero_succeeds_trivially_ball_collision() {
    let (g, h) = generate_random_code(12, 6).unwrap();
    let codeword = g.row(0);
    let decoded = run_ball_collision_algorithm(&codeword, &h, 12, 0, 5, 8)
        .expect("weight zero must succeed when the received word is a codeword");
    assert_eq!(decoded, vec_zeros(12));
}

#[test]
fn weight_zero_succeeds_trivially_bjmm() {
    let (g, h) = generate_random_code(12, 6).unwrap();
    let codeword = g.row(0);
    let decoded = run_bjmm_algorithm(&codeword, &h, 12, 0, 5, 8)
        .expect("weight zero must succeed when the received word is a codeword");
    assert_eq!(decoded, vec_zeros(12));
}
