use feldman_vss::vss::shares::{reconstruct_secret, shares_from_coefficients};
use feldman_vss::FeldmanVSS;
use num_bigint::{BigInt, BigUint};
use std::collections::BTreeSet;

fn coefficients(values: &[u32]) -> Vec<BigInt> {
    values.iter().map(|v| BigInt::from(*v)).collect()
}

#[test]
fn one_share_short_gives_the_secret_only_for_a_zero_top_coefficient() {
    // Threshold 2 modulo 7, secret 5: one share alone.
    let q = BigUint::from(7u32);
    for top in 0u32..7 {
        let (shares, _) = shares_from_coefficients(&coefficients(&[5, top]), 4, &q);
        for share in &shares {
            let alone = reconstruct_secret(&[share.clone()], &q).unwrap();
            assert_eq!(alone == vec![5], top == 0);
        }
    }
}

#[test]
fn two_of_three_give_the_secret_only_for_a_zero_top_coefficient() {
    // Threshold 3 modulo 11, secret 2: every pair of the five shares.
    let q = BigUint::from(11u32);
    for middle in 0u32..11 {
        for top in 0u32..11 {
            let (shares, _) = shares_from_coefficients(&coefficients(&[2, middle, top]), 5, &q);
            for i in 0..5 {
                for j in 0..5 {
                    if i != j {
                        let pair = [shares[i].clone(), shares[j].clone()];
                        let value = reconstruct_secret(&pair, &q).unwrap();
                        assert_eq!(value == vec![2], top == 0);
                    }
                }
            }
        }
    }
}

#[test]
fn the_draws_and_the_values_of_two_shares_determine_each_other() {
    // Threshold 3 modulo 5: for each secret, the 25 draws give 25 different
    // pairs of values at the indices 1 and 3, so every pair occurs once.
    let q = BigUint::from(5u32);
    for secret in 0u32..5 {
        let mut seen = BTreeSet::new();
        for a1 in 0u32..5 {
            for a2 in 0u32..5 {
                let (shares, _) = shares_from_coefficients(&coefficients(&[secret, a1, a2]), 4, &q);
                seen.insert((shares[0].1.clone(), shares[2].1.clone()));
            }
        }
        assert_eq!(seen.len(), 25);
    }
}

#[test]
fn fresh_parameters_are_accepted() {
    let (q, g) = FeldmanVSS::new();
    assert!(q >= BigUint::from(2u32));
    assert!(g < q);
    assert!(FeldmanVSS::split(vec![7], 1, 1, &q).is_ok());
}
