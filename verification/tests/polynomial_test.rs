use feldman_vss::vss::polynomial::{
    evaluate_commitments, evaluate_polynomial, generate_coefficients,
};
use feldman_vss::vss::VssError;
use num_bigint::{BigInt, BigUint};
use num_prime::RandPrime;
use rand::thread_rng;

#[test]
fn test_generate_coefficients() {
    let mut rng = thread_rng();
    let q = rng.gen_prime(256, None);
    let secret = BigInt::from(42);

    let coeffs = generate_coefficients(secret, 3, &q).unwrap();
    assert_eq!(coeffs.len(), 3); // Ensure correct number of coefficients
}

#[test]
fn test_evaluate_polynomial() {
    let mut rng = thread_rng();
    let q = rng.gen_prime(256, None);
    let secret = BigInt::from(10);
    let coeffs = generate_coefficients(secret, 3, &q).unwrap();

    let result = evaluate_polynomial(&coeffs, 1, &q);
    assert!(result >= BigInt::from(0)); // Ensure non-negative result
}

#[test]
fn coefficients_start_with_the_secret_and_stay_below_the_modulus() {
    let q = BigUint::from(97u32);
    let coeffs = generate_coefficients(BigInt::from(42), 6, &q).unwrap();
    assert_eq!(coeffs.len(), 6);
    assert_eq!(coeffs[0], BigInt::from(42));
    for c in &coeffs[1..] {
        assert!(*c >= BigInt::from(0));
        assert!(*c < BigInt::from(97));
    }
}

#[test]
fn coefficients_keep_a_secret_that_is_not_reduced() {
    let q = BigUint::from(7u32);
    let coeffs = generate_coefficients(BigInt::from(1000), 1, &q).unwrap();
    assert_eq!(coeffs, vec![BigInt::from(1000)]);
}

#[test]
fn coefficients_refuse_a_zero_threshold() {
    let q = BigUint::from(97u32);
    assert_eq!(
        generate_coefficients(BigInt::from(42), 0, &q),
        Err(VssError::ParameterError)
    );
}

#[test]
fn polynomial_value_is_the_sum_of_the_terms() {
    // 5 + 3x + 2x^2 at x = 2 is 19, which is 5 modulo 7.
    let coeffs = vec![BigInt::from(5), BigInt::from(3), BigInt::from(2)];
    let q = BigUint::from(7u32);
    assert_eq!(evaluate_polynomial(&coeffs, 2, &q), BigInt::from(5));
    // At x = 0 only the constant term is left.
    assert_eq!(evaluate_polynomial(&coeffs, 0, &q), BigInt::from(5));
    // 5 + 30 + 200 = 235 = 33 * 7 + 4.
    assert_eq!(evaluate_polynomial(&coeffs, 10, &q), BigInt::from(4));
}

#[test]
fn polynomial_value_of_negative_coefficients_is_not_negative() {
    // -1 - x at x = 3 is -4, which is 3 modulo 7.
    let coeffs = vec![BigInt::from(-1), BigInt::from(-1)];
    let q = BigUint::from(7u32);
    assert_eq!(evaluate_polynomial(&coeffs, 3, &q), BigInt::from(3));
}

#[test]
fn polynomial_without_coefficients_is_zero() {
    let coeffs: Vec<BigInt> = Vec::new();
    let q = BigUint::from(7u32);
    assert_eq!(evaluate_polynomial(&coeffs, 5, &q), BigInt::from(0));
}

#[test]
fn commitments_evaluate_like_their_coefficients() {
    let commits = vec!["5".to_string(), "3".to_string(), "2".to_string()];
    let q = BigUint::from(7u32);
    assert_eq!(evaluate_commitments(2, &commits, &q), Ok(BigInt::from(5)));
    assert_eq!(evaluate_commitments(10, &commits, &q), Ok(BigInt::from(4)));
}

#[test]
fn commitments_that_are_no_numbers_are_refused() {
    let commits = vec!["5".to_string(), "three".to_string()];
    let q = BigUint::from(7u32);
    assert_eq!(
        evaluate_commitments(2, &commits, &q),
        Err(VssError::DecodeError)
    );
}
