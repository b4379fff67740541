use feldman_vss::vss::shares::{
    generate_shares, reconstruct_secret, shares_from_coefficients, verify_share,
};
use feldman_vss::vss::utils::string_to_bigint;
use feldman_vss::vss::VssError;
use feldman_vss::FeldmanVSS;
use num_bigint::{BigInt, BigUint};
use num_prime::RandPrime;
use rand::thread_rng;

/// The prime 2^256 - 2^32 - 977.
fn fixed_prime() -> BigUint {
    (BigUint::from(1u32) << 256usize) - (BigUint::from(1u32) << 32usize) - BigUint::from(977u32)
}

fn share(x: usize, value: &str) -> (usize, String) {
    (x, value.to_string())
}

#[test]
fn test_generate_shares() {
    let mut rng = thread_rng();
    let q = rng.gen_prime(256, None);
    let secret = vec![1, 2, 3, 4]; // Arbitrary secret bytes

    let (shares, commits) = generate_shares(&secret, 4, 2, &q).unwrap();
    assert_eq!(shares.len(), 4); // Ensure correct number of shares
    assert_eq!(commits.len(), 2); // Ensure threshold commitments are generated
}

#[test]
fn test_verify_share() {
    let mut rng = thread_rng();
    let q = rng.gen_prime(256, None);
    let secret = vec![5, 6, 7, 8];

    let (shares, commits) = generate_shares(&secret, 4, 2, &q).unwrap();
    let (x, share) = &shares[0];

    assert!(verify_share(share, *x, &commits, &q).unwrap());
}

#[test]
fn shares_of_given_coefficients() {
    // 5 + 3x modulo 7 at 1, 2, 3, 4.
    let coeffs = vec![BigInt::from(5), BigInt::from(3)];
    let q = BigUint::from(7u32);
    let (shares, commits) = shares_from_coefficients(&coeffs, 4, &q);
    assert_eq!(
        shares,
        vec![share(1, "1"), share(2, "4"), share(3, "0"), share(4, "3")]
    );
    assert_eq!(commits, vec!["5".to_string(), "3".to_string()]);
}

#[test]
fn no_parties_no_shares() {
    let coeffs = vec![BigInt::from(5), BigInt::from(3)];
    let q = BigUint::from(7u32);
    let (shares, commits) = shares_from_coefficients(&coeffs, 0, &q);
    assert!(shares.is_empty());
    assert_eq!(commits.len(), 2);
}

#[test]
fn dealing_publishes_the_secret_as_first_commitment() {
    let q = fixed_prime();
    let (shares, commits) = generate_shares(&vec![1, 0], 3, 2, &q).unwrap();
    assert_eq!(commits[0], "256");
    let a1 = string_to_bigint(&commits[1]).unwrap();
    assert!(a1 >= BigInt::from(0) && a1 < BigInt::from(q.clone()));
    for (i, (x, value)) in shares.iter().enumerate() {
        assert_eq!(*x, i + 1);
        let expected = (BigInt::from(256) + &a1 * BigInt::from(*x)) % BigInt::from(q.clone());
        assert_eq!(string_to_bigint(value).unwrap(), expected);
    }
}

#[test]
fn counts_of_shares_and_commitments() {
    let q = fixed_prime();
    for n in [1usize, 4, 10] {
        for threshold in [1usize, 2, n] {
            if threshold > n {
                continue;
            }
            let vss = FeldmanVSS::split(b"size".to_vec(), n, threshold, &q).unwrap();
            assert_eq!(vss.shares.len(), n);
            assert_eq!(vss.commits.len(), threshold);
            assert_eq!(vss.cipher, b"size".to_vec());
            for (i, (x, _)) in vss.shares.iter().enumerate() {
                assert_eq!(*x, i + 1);
            }
        }
    }
}

#[test]
fn threshold_must_lie_between_one_and_the_number_of_shares() {
    let q = fixed_prime();
    assert_eq!(
        generate_shares(&vec![1, 2], 4, 0, &q),
        Err(VssError::ParameterError)
    );
    assert_eq!(
        generate_shares(&vec![1, 2], 4, 5, &q),
        Err(VssError::ParameterError)
    );
    assert_eq!(
        generate_shares(&vec![1, 2], 0, 0, &q),
        Err(VssError::ParameterError)
    );
    assert!(generate_shares(&vec![1, 2], 4, 4, &q).is_ok());
    assert_eq!(
        FeldmanVSS::split(vec![1, 2], 4, 5, &q).err(),
        Some(VssError::ParameterError)
    );
}

#[test]
fn modulus_below_two_is_refused() {
    for small in [0u32, 1] {
        let q = BigUint::from(small);
        assert_eq!(
            generate_shares(&vec![1], 2, 2, &q),
            Err(VssError::ParameterError)
        );
        assert_eq!(
            verify_share("0", 1, &["0".to_string()], &q),
            Err(VssError::ParameterError)
        );
        assert_eq!(
            reconstruct_secret(&[share(1, "0")], &q),
            Err(VssError::ParameterError)
        );
    }
    let two = BigUint::from(2u32);
    assert!(generate_shares(&vec![1], 1, 1, &two).is_ok());
}

#[test]
fn verification_of_given_values() {
    let commits = vec!["5".to_string(), "3".to_string()];
    let q = BigUint::from(7u32);
    assert_eq!(verify_share("1", 1, &commits, &q), Ok(true));
    assert_eq!(verify_share("4", 2, &commits, &q), Ok(true));
    assert_eq!(verify_share("0", 3, &commits, &q), Ok(true));
    // A wrong value, a wrong index, a value that is not reduced.
    assert_eq!(verify_share("2", 1, &commits, &q), Ok(false));
    assert_eq!(verify_share("1", 2, &commits, &q), Ok(false));
    assert_eq!(verify_share("8", 1, &commits, &q), Ok(false));
    // A changed commitment.
    let changed = vec!["6".to_string(), "3".to_string()];
    assert_eq!(verify_share("1", 1, &changed, &q), Ok(false));
}

#[test]
fn verification_reports_text_that_is_no_number() {
    let commits = vec!["5".to_string(), "3".to_string()];
    let q = BigUint::from(7u32);
    assert_eq!(
        verify_share("one", 1, &commits, &q),
        Err(VssError::DecodeError)
    );
    let broken = vec!["5".to_string(), "".to_string()];
    assert_eq!(
        verify_share("1", 1, &broken, &q),
        Err(VssError::DecodeError)
    );
    assert_eq!(
        FeldmanVSS::verify("1", 1, &broken, &q),
        Err(VssError::DecodeError)
    );
}

#[test]
fn a_changed_share_fails_verification() {
    let q = fixed_prime();
    let vss = FeldmanVSS::split(b"mutate me".to_vec(), 5, 3, &q).unwrap();
    for (x, value) in &vss.shares {
        assert_eq!(FeldmanVSS::verify(value, *x, &vss.commits, &q), Ok(true));
        let bumped = (string_to_bigint(value).unwrap() + BigInt::from(1)) % BigInt::from(q.clone());
        assert_eq!(
            FeldmanVSS::verify(&bumped.to_string(), *x, &vss.commits, &q),
            Ok(false)
        );
    }
}

#[test]
fn reconstruction_of_given_shares() {
    // Shares of 5 + 3x modulo 7.
    let q = BigUint::from(7u32);
    assert_eq!(
        reconstruct_secret(&[share(1, "1"), share(2, "4")], &q),
        Ok(vec![5])
    );
    assert_eq!(
        reconstruct_secret(&[share(4, "3"), share(2, "4")], &q),
        Ok(vec![5])
    );
    // Shares of 2 + x + 4x^2 modulo 11: 7, 9, 8, 4.
    let q = BigUint::from(11u32);
    assert_eq!(
        reconstruct_secret(&[share(1, "7"), share(2, "9"), share(3, "8")], &q),
        Ok(vec![2])
    );
    assert_eq!(
        reconstruct_secret(&[share(4, "4"), share(2, "9"), share(3, "8")], &q),
        Ok(vec![2])
    );
}

#[test]
fn reconstruction_of_a_zero_secret_is_one_zero_byte() {
    // Shares of 3x modulo 7.
    let q = BigUint::from(7u32);
    assert_eq!(
        reconstruct_secret(&[share(1, "3"), share(2, "6")], &q),
        Ok(vec![0])
    );
}

#[test]
fn reconstruction_from_one_share_is_its_value() {
    let q = BigUint::from(7u32);
    assert_eq!(reconstruct_secret(&[share(3, "4")], &q), Ok(vec![4]));
}

#[test]
fn reconstruction_refuses_an_empty_list() {
    let q = fixed_prime();
    assert_eq!(reconstruct_secret(&[], &q), Err(VssError::ParameterError));
    assert_eq!(FeldmanVSS::reconstruct(&[], &q), Err(VssError::ParameterError));
}

#[test]
fn reconstruction_reports_text_that_is_no_number() {
    let q = fixed_prime();
    assert_eq!(
        reconstruct_secret(&[share(1, "12"), share(2, "1x")], &q),
        Err(VssError::DecodeError)
    );
    // Even where the indices are degenerate too.
    assert_eq!(
        reconstruct_secret(&[share(1, "12"), share(1, "1x")], &q),
        Err(VssError::DecodeError)
    );
}

#[test]
fn reconstruction_reports_indices_that_agree() {
    let q = fixed_prime();
    assert_eq!(
        reconstruct_secret(&[share(1, "12"), share(1, "12")], &q),
        Err(VssError::ArithmeticDegeneracy)
    );
    // 1 and 8 agree modulo 7.
    let q = BigUint::from(7u32);
    assert_eq!(
        reconstruct_secret(&[share(1, "1"), share(8, "1")], &q),
        Err(VssError::ArithmeticDegeneracy)
    );
}

#[test]
fn any_subset_of_threshold_size_gives_the_secret() {
    let q = fixed_prime();
    let secret = b"any three will do".to_vec();
    let vss = FeldmanVSS::split(secret.clone(), 6, 3, &q).unwrap();
    let first = FeldmanVSS::reconstruct(&vss.shares[0..3], &q).unwrap();
    let second = FeldmanVSS::reconstruct(&vss.shares[3..6], &q).unwrap();
    let mixed = vec![
        vss.shares[5].clone(),
        vss.shares[0].clone(),
        vss.shares[2].clone(),
    ];
    assert_eq!(first, secret);
    assert_eq!(second, secret);
    assert_eq!(FeldmanVSS::reconstruct(&mixed, &q), Ok(secret.clone()));
    // More shares than the threshold do as well.
    assert_eq!(FeldmanVSS::reconstruct(&vss.shares, &q), Ok(secret));
}

#[test]
fn secrets_come_back_for_every_threshold() {
    let q = fixed_prime();
    let secrets: Vec<Vec<u8>> = vec![vec![0], vec![1], vec![255, 0, 7], b"round trip".to_vec(), vec![200; 31]];
    for secret in secrets {
        for (n, threshold) in [(1usize, 1usize), (3, 1), (3, 2), (5, 5), (10, 4)] {
            let vss = FeldmanVSS::split(secret.clone(), n, threshold, &q).unwrap();
            assert_eq!(
                FeldmanVSS::reconstruct(&vss.shares[0..threshold], &q),
                Ok(secret.clone())
            );
        }
    }
}

#[test]
fn leading_zero_bytes_of_a_secret_are_not_kept() {
    let q = fixed_prime();
    let vss = FeldmanVSS::split(vec![0, 0, 9, 1], 3, 2, &q).unwrap();
    assert_eq!(vss.cipher, vec![0, 0, 9, 1]);
    assert_eq!(FeldmanVSS::reconstruct(&vss.shares[0..2], &q), Ok(vec![9, 1]));
    let vss = FeldmanVSS::split(Vec::new(), 3, 2, &q).unwrap();
    assert_eq!(FeldmanVSS::reconstruct(&vss.shares[1..3], &q), Ok(vec![0]));
}

#[test]
fn split_verify_and_reconstruct_with_a_fixed_prime() {
    let q = fixed_prime();
    let secret = "test".as_bytes().to_vec();
    let vss = FeldmanVSS::split(secret.clone(), 4, 2, &q).unwrap();
    assert_eq!(vss.shares.len(), 4);
    assert_eq!(vss.commits.len(), 2);
    let (x0, s0) = &vss.shares[0];
    let (x3, s3) = &vss.shares[3];
    assert_eq!(FeldmanVSS::verify(s0, *x0, &vss.commits, &q), Ok(true));
    assert_eq!(FeldmanVSS::verify(s3, *x3, &vss.commits, &q), Ok(true));
    assert_eq!(FeldmanVSS::reconstruct(&vss.shares[0..2], &q), Ok(secret.clone()));
    assert_eq!(FeldmanVSS::reconstruct(&vss.shares[1..3], &q), Ok(secret));
}

#[test]
fn fewer_shares_than_the_threshold_do_not_give_the_secret() {
    let q = fixed_prime();
    let secret = b"kept".to_vec();
    let mut hits = 0;
    for _ in 0..20 {
        let vss = FeldmanVSS::split(secret.clone(), 4, 3, &q).unwrap();
        if FeldmanVSS::reconstruct(&vss.shares[0..1], &q).unwrap() == secret {
            hits += 1;
        }
        if FeldmanVSS::reconstruct(&vss.shares[1..3], &q).unwrap() == secret {
            hits += 1;
        }
    }
    assert_eq!(hits, 0);
}

#[test]
fn parameters_are_a_modulus_and_an_element_below_it() {
    for _ in 0..3 {
        let (q, g) = FeldmanVSS::new();
        assert!(q >= BigUint::from(2u32));
        assert!(q.bits() <= 256);
        assert!(g < q);
        let vss = FeldmanVSS::split(b"fresh".to_vec(), 3, 2, &q).unwrap();
        assert_eq!(
            FeldmanVSS::reconstruct(&vss.shares[1..3], &q),
            Ok(b"fresh".to_vec())
        );
    }
}
