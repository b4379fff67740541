pub mod bigint;
pub mod bytes;
pub mod field;
pub mod lagrange;
pub mod polynomial;
pub mod secrecy;
pub mod shares;
pub mod utils;

use crate::vss::bigint::{nat_value, random_below, random_prime};
use crate::vss::bytes::be_bytes;
use crate::vss::lagrange::{interpolate_at_zero, is_degenerate};
use crate::vss::polynomial::commits_decode;
use crate::vss::shares::{
    share_indices, share_matches, share_values, shares_decode, valid_modulus, well_dealt,
};
use crate::vss::utils::parse_decimal;
use num_bigint::BigUint;
use vstd::prelude::*;

verus! {

/// Why an operation of the scheme refused its input.
#[derive(Debug, Clone, Copy, PartialEq, Eq, Structural)]
pub enum VssError {
    /// A share or a commitment is not the decimal text of an integer.
    DecodeError,
    /// The modulus, the threshold or the number of shares cannot be used.
    ParameterError,
    /// A Lagrange denominator is zero modulo the field modulus.
    ArithmeticDegeneracy,
}

/// What the dealer hands out: one share per party, the public commitments,
/// and a copy of the secret that was split.
#[derive(Debug, Clone)]
pub struct FeldmanVSS {
    pub shares: Vec<(usize, String)>,
    pub commits: Vec<String>,
    pub cipher: Vec<u8>,
}

impl FeldmanVSS {
    /// Draws the public parameters: a random probable prime of about 256
    /// bits as field modulus, and a random field element below it. The
    /// modulus is one that `split`, `verify` and `reconstruct` accept.
    pub fn new() -> (params: (BigUint, BigUint))
        ensures
            valid_modulus(params.0),
            nat_value(params.1) < nat_value(params.0),
    {
        let q = random_prime(256);
        let g = random_below(&q);
        (q, g)
    }

    /// Splits `secret` into `n` shares with the given threshold, and keeps a
    /// copy of the secret beside them.
    pub fn split(secret: Vec<u8>, n: usize, threshold: usize, q: &BigUint) -> (bundle: Result<
        Self,
        VssError,
    >)
        ensures
            bundle is Ok <==> 1 <= threshold <= n && valid_modulus(*q),
            bundle is Err ==> bundle->Err_0 == VssError::ParameterError,
            bundle is Ok ==> {
                let b = bundle->Ok_0;
                &&& b.cipher@ == secret@
                &&& b.shares.len() == n
                &&& b.commits.len() == threshold
                &&& well_dealt(
                    secret@,
                    n as int,
                    threshold as int,
                    nat_value(*q) as int,
                    b.shares@,
                    b.commits@,
                )
                &&& forall|i: int|
                    0 <= i < n ==> share_matches(
                        (#[trigger] b.shares[i]).1@,
                        b.shares[i].0 as int,
                        b.commits@,
                        nat_value(*q) as int,
                    )
            },
    {
        match shares::generate_shares(&secret, n, threshold, q) {
            Ok((shares, commits)) => Ok(FeldmanVSS { shares, commits, cipher: secret }),
            Err(e) => Err(e),
        }
    }

    /// Checks the share of party `x` against the commitments.
    pub fn verify(share: &str, x: usize, commits: &[String], q: &BigUint) -> (valid: Result<
        bool,
        VssError,
    >)
        ensures
            valid == if !valid_modulus(*q) {
                Err::<bool, VssError>(VssError::ParameterError)
            } else if parse_decimal(share@) is None || !commits_decode(commits@) {
                Err(VssError::DecodeError)
            } else {
                Ok(share_matches(share@, x as int, commits@, nat_value(*q) as int))
            },
    {
        shares::verify_share(share, x, commits, q)
    }

    /// Recombines shares into the secret.
    pub fn reconstruct(shares: &[(usize, String)], q: &BigUint) -> (secret: Result<
        Vec<u8>,
        VssError,
    >)
        ensures
            secret is Err ==> secret->Err_0 == if shares.len() == 0 || !valid_modulus(*q) {
                VssError::ParameterError
            } else if !shares_decode(shares@) {
                VssError::DecodeError
            } else {
                VssError::ArithmeticDegeneracy
            },
            secret is Ok <==> {
                &&& shares.len() > 0
                &&& valid_modulus(*q)
                &&& shares_decode(shares@)
                &&& !is_degenerate(share_indices(shares@), nat_value(*q) as int)
            },
            secret is Ok ==> secret->Ok_0@ == be_bytes(
                interpolate_at_zero(
                    share_indices(shares@),
                    share_values(shares@),
                    nat_value(*q) as int,
                ) as nat,
            ),
    {
        shares::reconstruct_secret(shares, q)
    }
}

} // verus!
