//! Dealing, checking and recombining shares.

use crate::vss::bigint::{
    big_add, big_eq, big_from_biguint, big_from_bytes_be, big_from_usize, big_lt,
    big_mod_floor, big_modpow, big_mul, big_neg, big_one, big_sub, big_to_bytes_be, int_value,
    nat_value,
};
use crate::vss::bytes::{
    be_bytes, be_nat, is_shortest, lemma_be_bytes_of_be_nat, lemma_be_nat_of_be_bytes,
};
use crate::vss::field::{
    congruent, is_prime, lemma_congruent_remainder, lemma_small_multiple_is_zero,
};
use crate::vss::lagrange::{
    denominator, distinct_mod, interpolate_at_zero, is_degenerate, lagrange_coeff, lagrange_den,
    lagrange_num, lemma_distinct_not_degenerate, lemma_interpolation_one_point_short,
    lemma_interpolation_recovers, numerator,
    weighted_sum,
};
use crate::vss::polynomial::{
    commit_values, commits_decode, evaluate_commitments, evaluate_polynomial,
    generate_coefficients, int_values, poly_eval, poly_value,
};
use crate::vss::utils::{
    bigint_to_string, decimal_text, lemma_parse_decimal_text, parse_decimal, string_to_bigint,
};
use crate::vss::VssError;
use num_bigint::{BigInt, BigUint};
use vstd::arithmetic::div_mod::{lemma_add_mod_noop, lemma_mul_mod_noop_left};
use vstd::prelude::*;

verus! {

/// A modulus below 2 leaves no field to work in.
pub open spec fn valid_modulus(q: BigUint) -> bool {
    nat_value(q) >= 2
}

/// The party indices of a list of shares.
pub open spec fn share_indices(shares: Seq<(usize, String)>) -> Seq<int> {
    Seq::new(shares.len(), |i: int| shares[i].0 as int)
}

/// Every share value is the decimal text of an integer.
pub open spec fn shares_decode(shares: Seq<(usize, String)>) -> bool {
    forall|i: int| 0 <= i < shares.len() ==> parse_decimal((#[trigger] shares[i]).1@) is Some
}

/// The integers that the share values are read as.
pub open spec fn share_values(shares: Seq<(usize, String)>) -> Seq<int> {
    Seq::new(shares.len(), |i: int| parse_decimal(shares[i].1@).unwrap())
}

/// The share text is read as the value at `x` of the polynomial that the
/// commitments publish.
pub open spec fn share_matches(share: Seq<char>, x: int, commits: Seq<String>, q: int) -> bool {
    parse_decimal(share) == Some(poly_eval(commit_values(commits), x, q))
}

/// Shares and commitments are those of the polynomial with the given
/// coefficients: party `i + 1` holds the decimal text of its value there,
/// and the commitments are the decimal texts of the coefficients.
pub open spec fn dealt_from(
    coeffs: Seq<int>,
    n: int,
    q: int,
    shares: Seq<(usize, String)>,
    commits: Seq<String>,
) -> bool {
    &&& shares.len() == n
    &&& forall|i: int|
        0 <= i < n ==> (#[trigger] shares[i]).0 == i + 1 && shares[i].1@ == decimal_text(
            poly_eval(coeffs, i + 1, q),
        )
    &&& commits.len() == coeffs.len()
    &&& forall|i: int| 0 <= i < coeffs.len() ==> (#[trigger] commits[i])@ == decimal_text(coeffs[i])
}

/// Shares and commitments are a dealing of the secret: the commitments are
/// the texts of `threshold` coefficients, the first of them the secret and
/// the others field elements, and the shares are those of that polynomial.
pub open spec fn well_dealt(
    secret: Seq<u8>,
    n: int,
    threshold: int,
    q: int,
    shares: Seq<(usize, String)>,
    commits: Seq<String>,
) -> bool {
    &&& commits.len() == threshold
    &&& commits_decode(commits)
    &&& commit_values(commits)[0] == be_nat(secret)
    &&& forall|i: int| 1 <= i < threshold ==> 0 <= #[trigger] commit_values(commits)[i] < q
    &&& dealt_from(commit_values(commits), n, q, shares, commits)
}

/// Commitments that are the decimal texts of coefficients are read back as
/// those coefficients.
pub proof fn lemma_commits_read_back(coeffs: Seq<int>, commits: Seq<String>)
    requires
        commits.len() == coeffs.len(),
        forall|i: int| 0 <= i < coeffs.len() ==> (#[trigger] commits[i])@ == decimal_text(coeffs[i]),
    ensures
        commits_decode(commits),
        commit_values(commits) == coeffs,
{
    assert forall|i: int| 0 <= i < commits.len() implies parse_decimal(#[trigger] commits[i]@)
        == Some(coeffs[i]) by {
        lemma_parse_decimal_text(coeffs[i]);
    }
    assert(commit_values(commits) =~= coeffs);
}

/// Every share of a dealing passes verification against its commitments.
pub proof fn lemma_dealt_shares_match(
    coeffs: Seq<int>,
    n: int,
    q: int,
    shares: Seq<(usize, String)>,
    commits: Seq<String>,
)
    requires
        dealt_from(coeffs, n, q, shares, commits),
    ensures
        commits_decode(commits),
        forall|i: int|
            0 <= i < n ==> share_matches((#[trigger] shares[i]).1@, shares[i].0 as int, commits, q),
{
    lemma_commits_read_back(coeffs, commits);
    assert forall|i: int| 0 <= i < n implies share_matches(
        (#[trigger] shares[i]).1@,
        shares[i].0 as int,
        commits,
        q,
    ) by {
        lemma_parse_decimal_text(poly_eval(coeffs, i + 1, q));
    }
}

/// The share values of a dealing are field elements.
pub proof fn lemma_dealt_values_in_field(
    coeffs: Seq<int>,
    n: int,
    q: int,
    shares: Seq<(usize, String)>,
    commits: Seq<String>,
)
    requires
        q > 0,
        dealt_from(coeffs, n, q, shares, commits),
    ensures
        shares_decode(shares),
        forall|i: int| 0 <= i < n ==> 0 <= #[trigger] share_values(shares)[i] < q,
{
    assert forall|i: int| 0 <= i < n implies parse_decimal((#[trigger] shares[i]).1@) == Some(
        poly_eval(coeffs, i + 1, q),
    ) by {
        lemma_parse_decimal_text(poly_eval(coeffs, i + 1, q));
    }
    assert forall|i: int| 0 <= i < n implies 0 <= #[trigger] share_values(shares)[i] < q by {
        assert(parse_decimal(shares[i].1@) == Some(poly_eval(coeffs, i + 1, q)));
        vstd::arithmetic::div_mod::lemma_mod_bound(poly_value(coeffs, i + 1), q);
    }
}

/// Deals the shares of a given polynomial: evaluates it at the party
/// indices 1 to `n` and writes out values and coefficients as decimal text.
pub fn shares_from_coefficients(coeffs: &[BigInt], n: usize, q: &BigUint) -> (out: (
    Vec<(usize, String)>,
    Vec<String>,
))
    requires
        nat_value(*q) > 0,
    ensures
        dealt_from(int_values(coeffs@), n as int, nat_value(*q) as int, out.0@, out.1@),
{
    let ghost cs = int_values(coeffs@);
    let ghost qi = nat_value(*q) as int;
    let mut shares: Vec<(usize, String)> = Vec::new();
    let mut i: usize = 0;
    while i < n
        invariant
            i <= n,
            nat_value(*q) > 0,
            cs == int_values(coeffs@),
            qi == nat_value(*q),
            shares.len() == i,
            forall|k: int|
                0 <= k < i ==> (#[trigger] shares[k]).0 == k + 1 && shares[k].1@ == decimal_text(
                    poly_eval(cs, k + 1, qi),
                ),
        decreases n - i,
    {
        let x: usize = i + 1;
        let value = evaluate_polynomial(coeffs, x, q);
        shares.push((x, bigint_to_string(&value)));
        i += 1;
    }
    let mut commits: Vec<String> = Vec::new();
    let mut j: usize = 0;
    while j < coeffs.len()
        invariant
            j <= coeffs.len(),
            cs == int_values(coeffs@),
            commits.len() == j,
            forall|k: int| 0 <= k < j ==> (#[trigger] commits[k])@ == decimal_text(cs[k]),
        decreases coeffs.len() - j,
    {
        commits.push(bigint_to_string(&coeffs[j]));
        j += 1;
    }
    (shares, commits)
}

/// Splits a secret into `n` shares of which any `threshold` recombine.
///
/// The secret is read as a big-endian number and becomes the constant term
/// of a polynomial with `threshold` coefficients, the others drawn at
/// random below `q`. The shares are the values of that polynomial at 1 to
/// `n`; the commitments are its coefficients.
pub fn generate_shares(secret: &Vec<u8>, n: usize, threshold: usize, q: &BigUint) -> (out: Result<
    (Vec<(usize, String)>, Vec<String>),
    VssError,
>)
    ensures
        out is Ok <==> 1 <= threshold <= n && valid_modulus(*q),
        out is Err ==> out->Err_0 == VssError::ParameterError,
        out is Ok ==> well_dealt(
            secret@,
            n as int,
            threshold as int,
            nat_value(*q) as int,
            out->Ok_0.0@,
            out->Ok_0.1@,
        ),
        out is Ok ==> forall|i: int|
            0 <= i < n ==> share_matches(
                (#[trigger] out->Ok_0.0[i]).1@,
                out->Ok_0.0[i].0 as int,
                out->Ok_0.1@,
                nat_value(*q) as int,
            ),
{
    if threshold == 0 || threshold > n {
        return Err(VssError::ParameterError);
    }
    let q_big = big_from_biguint(q);
    if big_lt(&q_big, &big_from_usize(2)) {
        return Err(VssError::ParameterError);
    }
    let secret_int = big_from_bytes_be(secret.as_slice());
    let coeffs = match generate_coefficients(secret_int, threshold, q) {
        Ok(coeffs) => coeffs,
        Err(e) => {
            return Err(e);
        },
    };
    let out = shares_from_coefficients(coeffs.as_slice(), n, q);
    proof {
        let cs = int_values(coeffs@);
        lemma_commits_read_back(cs, out.1@);
        lemma_dealt_shares_match(cs, n as int, nat_value(*q) as int, out.0@, out.1@);
    }
    Ok(out)
}

/// Checks a share against the commitments: whether it is the value at `x`
/// of the polynomial that they publish.
pub fn verify_share(share: &str, x: usize, commits: &[String], q: &BigUint) -> (valid: Result<
    bool,
    VssError,
>)
    ensures
        valid == if !valid_modulus(*q) {
            Err::<bool, VssError>(VssError::ParameterError)
        } else if parse_decimal(share@) is None || !commits_decode(commits@) {
            Err(VssError::DecodeError)
        } else {
            Ok(share_matches(share@, x as int, commits@, nat_value(*q) as int))
        },
{
    let q_big = big_from_biguint(q);
    if big_lt(&q_big, &big_from_usize(2)) {
        return Err(VssError::ParameterError);
    }
    let share = match string_to_bigint(share) {
        Ok(share) => share,
        Err(e) => {
            return Err(e);
        },
    };
    match evaluate_commitments(x, commits, q) {
        Ok(expected) => Ok(big_eq(&expected, &share)),
        Err(e) => Err(e),
    }
}

/// One factor more in a product that is kept reduced.
proof fn lemma_product_step(product: int, factor: int, q: int)
    requires
        q > 0,
    ensures
        ((product % q) * factor) % q == (product * factor) % q,
{
    lemma_mul_mod_noop_left(product, factor, q);
}

/// One term more in a sum that is kept reduced.
proof fn lemma_sum_step(sum: int, term: int, q: int)
    requires
        q > 0,
    ensures
        ((sum % q) + term) % q == (sum + term) % q,
{
    lemma_add_mod_noop(sum, term, q);
    lemma_add_mod_noop(sum % q, term, q);
    vstd::arithmetic::div_mod::lemma_mod_twice(sum, q);
}

/// Reads the values of the shares, or fails at the first that is no decimal
/// text.
fn decode_shares(shares: &[(usize, String)]) -> (values: Result<Vec<BigInt>, VssError>)
    ensures
        values is Ok <==> shares_decode(shares@),
        values is Err ==> values->Err_0 == VssError::DecodeError,
        values is Ok ==> values->Ok_0.len() == shares.len(),
        values is Ok ==> int_values(values->Ok_0@) == share_values(shares@),
{
    let mut values: Vec<BigInt> = Vec::new();
    let mut i: usize = 0;
    while i < shares.len()
        invariant
            i <= shares.len(),
            values.len() == i,
            forall|k: int|
                0 <= k < i ==> parse_decimal((#[trigger] shares[k]).1@) == Some(
                    int_value(values[k]),
                ),
        decreases shares.len() - i,
    {
        match string_to_bigint(shares[i].1.as_str()) {
            Ok(value) => values.push(value),
            Err(e) => {
                return Err(e);
            },
        }
        i += 1;
    }
    proof {
        assert(int_values(values@) =~= share_values(shares@));
    }
    Ok(values)
}

/// The numerator and the denominator of the `i`-th Lagrange coefficient at
/// zero, both reduced into the field.
fn lagrange_terms(shares: &[(usize, String)], i: usize, q_big: &BigInt) -> (terms: (BigInt, BigInt))
    requires
        i < shares.len(),
        int_value(*q_big) >= 2,
    ensures
        int_value(terms.0) == lagrange_num(share_indices(shares@), i as int, int_value(*q_big)),
        int_value(terms.1) == lagrange_den(share_indices(shares@), i as int, int_value(*q_big)),
{
    let ghost xs = share_indices(shares@);
    let ghost q = int_value(*q_big);
    let xi = big_from_usize(shares[i].0);
    let mut num = big_one();
    let mut den = big_one();
    let mut j: usize = 0;
    proof {
        vstd::arithmetic::div_mod::lemma_small_mod(1, q as nat);
    }
    while j < shares.len()
        invariant
            j <= shares.len(),
            i < shares.len(),
            xs == share_indices(shares@),
            q == int_value(*q_big),
            q >= 2,
            int_value(xi) == xs[i as int],
            int_value(num) == numerator(xs, i as int, j as int) % q,
            int_value(den) == denominator(xs, i as int, j as int) % q,
        decreases shares.len() - j,
    {
        if i != j {
            let xj = big_from_usize(shares[j].0);
            let minus_xj = big_neg(&xj);
            let diff = big_sub(&xi, &xj);
            proof {
                lemma_product_step(numerator(xs, i as int, j as int), -xs[j as int], q);
                lemma_product_step(denominator(xs, i as int, j as int), xs[i as int] - xs[j as int], q);
            }
            num = big_mod_floor(&big_mul(&num, &minus_xj), q_big);
            den = big_mod_floor(&big_mul(&den, &diff), q_big);
        }
        j += 1;
    }
    (num, den)
}

/// Recombines shares into the secret: the value at zero of the polynomial
/// through them, by Lagrange interpolation in the field, written out as
/// big-endian bytes without leading zeros.
///
/// At least as many shares as the threshold of the dealing must be given,
/// with indices that differ modulo `q`; an empty list and a modulus below 2
/// are refused, then a share that is no decimal text, then indices for
/// which a Lagrange denominator vanishes.
pub fn reconstruct_secret(shares: &[(usize, String)], q: &BigUint) -> (secret: Result<
    Vec<u8>,
    VssError,
>)
    ensures
        secret is Err ==> secret->Err_0 == if shares.len() == 0 || !valid_modulus(*q) {
            VssError::ParameterError
        } else if !shares_decode(shares@) {
            VssError::DecodeError
        } else {
            VssError::ArithmeticDegeneracy
        },
        secret is Ok <==> {
            &&& shares.len() > 0
            &&& valid_modulus(*q)
            &&& shares_decode(shares@)
            &&& !is_degenerate(share_indices(shares@), nat_value(*q) as int)
        },
        secret is Ok ==> secret->Ok_0@ == be_bytes(
            interpolate_at_zero(
                share_indices(shares@),
                share_values(shares@),
                nat_value(*q) as int,
            ) as nat,
        ),
{
    if shares.len() == 0 {
        return Err(VssError::ParameterError);
    }
    let q_big = big_from_biguint(q);
    let two = big_from_usize(2);
    if big_lt(&q_big, &two) {
        return Err(VssError::ParameterError);
    }
    let values = match decode_shares(shares) {
        Ok(values) => values,
        Err(e) => {
            return Err(e);
        },
    };
    let exponent = big_sub(&q_big, &two);
    let ghost xs = share_indices(shares@);
    let ghost ys = share_values(shares@);
    let ghost qi = nat_value(*q) as int;
    let zero = big_from_usize(0);
    let mut sum = big_from_usize(0);
    let mut i: usize = 0;
    proof {
        vstd::arithmetic::div_mod::lemma_small_mod(0, qi as nat);
    }
    while i < shares.len()
        invariant
            i <= shares.len(),
            values.len() == shares.len(),
            shares_decode(shares@),
            xs == share_indices(shares@),
            ys == share_values(shares@),
            ys == int_values(values@),
            qi == nat_value(*q),
            qi >= 2,
            int_value(q_big) == qi,
            int_value(exponent) == qi - 2,
            int_value(zero) == 0,
            forall|k: int| 0 <= k < i ==> #[trigger] lagrange_den(xs, k, qi) != 0,
            int_value(sum) == weighted_sum(xs, ys, i as int, qi) % qi,
        decreases shares.len() - i,
    {
        let (num, den) = lagrange_terms(shares, i, &q_big);
        if big_eq(&den, &zero) {
            return Err(VssError::ArithmeticDegeneracy);
        }
        let inverse = big_modpow(&den, &exponent, &q_big);
        let coeff = big_mod_floor(&big_mul(&num, &inverse), &q_big);
        let term = big_mul(&values[i], &coeff);
        proof {
            assert(int_value(coeff) == lagrange_coeff(xs, i as int, qi));
            assert(int_value(values[i as int]) == ys[i as int]);
            lemma_sum_step(weighted_sum(xs, ys, i as int, qi), int_value(term), qi);
        }
        sum = big_mod_floor(&big_add(&sum, &term), &q_big);
        i += 1;
    }
    proof {
        assert(int_value(sum) == interpolate_at_zero(xs, ys, qi));
        assert(int_value(sum) >= 0);
    }
    Ok(big_to_bytes_be(&sum))
}

/// The share is one of the dealt shares.
pub open spec fn is_one_of(share: (usize, String), shares: Seq<(usize, String)>) -> bool {
    exists|i: int| 0 <= i < shares.len() && #[trigger] shares[i] == share
}

/// Every one of the chosen shares is one of the dealt shares.
pub open spec fn chosen_from(chosen: Seq<(usize, String)>, shares: Seq<(usize, String)>) -> bool {
    forall|k: int| 0 <= k < chosen.len() ==> is_one_of(#[trigger] chosen[k], shares)
}

/// Threshold many shares are enough, whichever they are: from at least
/// `threshold` shares of a dealing, with indices that differ modulo the
/// prime `q`, reconstruction succeeds, and what it computes is the secret
/// as a number, reduced modulo `q`.
pub proof fn lemma_chosen_shares_recover(
    secret: Seq<u8>,
    n: int,
    threshold: int,
    q: int,
    shares: Seq<(usize, String)>,
    commits: Seq<String>,
    chosen: Seq<(usize, String)>,
)
    requires
        is_prime(q),
        1 <= threshold <= n,
        well_dealt(secret, n, threshold, q, shares, commits),
        chosen_from(chosen, shares),
        chosen.len() >= threshold,
        distinct_mod(share_indices(chosen), q),
    ensures
        shares_decode(chosen),
        !is_degenerate(share_indices(chosen), q),
        interpolate_at_zero(share_indices(chosen), share_values(chosen), q) == be_nat(secret) % (
        q as nat),
{
    let coeffs = commit_values(commits);
    let xs = share_indices(chosen);
    let ys = share_values(chosen);
    lemma_chosen_values(secret, n, threshold, q, shares, commits, chosen);
    lemma_interpolation_recovers(coeffs, xs, ys, q);
    lemma_distinct_not_degenerate(xs, q);
    assert(poly_value(coeffs, 0) == coeffs[0] + 0 * poly_value(coeffs.drop_first(), 0));
    assert(0 * poly_value(coeffs.drop_first(), 0) == 0);
}

/// Threshold independence: two choices of at least `threshold` shares of
/// one dealing, each with indices that differ modulo the prime `q`,
/// reconstruct the same value.
pub proof fn lemma_threshold_independence(
    secret: Seq<u8>,
    n: int,
    threshold: int,
    q: int,
    shares: Seq<(usize, String)>,
    commits: Seq<String>,
    one: Seq<(usize, String)>,
    other: Seq<(usize, String)>,
)
    requires
        is_prime(q),
        1 <= threshold <= n,
        well_dealt(secret, n, threshold, q, shares, commits),
        chosen_from(one, shares),
        chosen_from(other, shares),
        one.len() >= threshold,
        other.len() >= threshold,
        distinct_mod(share_indices(one), q),
        distinct_mod(share_indices(other), q),
    ensures
        interpolate_at_zero(share_indices(one), share_values(one), q) == interpolate_at_zero(
            share_indices(other),
            share_values(other),
            q,
        ),
{
    lemma_chosen_shares_recover(secret, n, threshold, q, shares, commits, one);
    lemma_chosen_shares_recover(secret, n, threshold, q, shares, commits, other);
}

/// Round trip: the first `threshold` shares of a dealing reconstruct the
/// secret, byte for byte. The modulus is a prime above the secret and not
/// below the threshold, so that the indices 1 to `threshold` differ modulo
/// it, and the secret is the shortest byte string of its number, since
/// leading zero bytes are not kept.
pub proof fn lemma_round_trip(
    secret: Seq<u8>,
    n: int,
    threshold: int,
    q: int,
    shares: Seq<(usize, String)>,
    commits: Seq<String>,
)
    requires
        is_prime(q),
        1 <= threshold <= n,
        threshold <= q,
        be_nat(secret) < q,
        is_shortest(secret),
        well_dealt(secret, n, threshold, q, shares, commits),
    ensures
        shares_decode(shares.subrange(0, threshold)),
        !is_degenerate(share_indices(shares.subrange(0, threshold)), q),
        be_bytes(
            interpolate_at_zero(
                share_indices(shares.subrange(0, threshold)),
                share_values(shares.subrange(0, threshold)),
                q,
            ) as nat,
        ) == secret,
{
    let first = shares.subrange(0, threshold);
    let xs = share_indices(first);
    assert forall|k: int| 0 <= k < first.len() implies is_one_of(#[trigger] first[k], shares) by {
        assert(shares[k] == first[k]);
    }
    assert forall|i: int, j: int|
        #![trigger xs[i], xs[j]]
        0 <= i < xs.len() && 0 <= j < xs.len() && i != j implies (xs[i] - xs[j]) % q != 0 by {
        assert(first[i] == shares[i] && first[j] == shares[j]);
        assert(xs[i] == i + 1 && xs[j] == j + 1);
        if (xs[i] - xs[j]) % q == 0 {
            lemma_small_multiple_is_zero(xs[i] - xs[j], q);
        }
    }
    lemma_chosen_shares_recover(secret, n, threshold, q, shares, commits, first);
    vstd::arithmetic::div_mod::lemma_small_mod(be_nat(secret), q as nat);
    lemma_be_bytes_of_be_nat(secret);
}

/// The chosen shares are read as values of the polynomial that the
/// commitments publish, at their own indices, which lie between 1 and `n`.
proof fn lemma_chosen_values(
    secret: Seq<u8>,
    n: int,
    threshold: int,
    q: int,
    shares: Seq<(usize, String)>,
    commits: Seq<String>,
    chosen: Seq<(usize, String)>,
)
    requires
        q > 0,
        well_dealt(secret, n, threshold, q, shares, commits),
        chosen_from(chosen, shares),
    ensures
        shares_decode(chosen),
        forall|k: int|
            0 <= k < chosen.len() ==> 1 <= #[trigger] share_indices(chosen)[k] <= n,
        forall|k: int|
            0 <= k < chosen.len() ==> congruent(
                #[trigger] share_values(chosen)[k],
                poly_value(commit_values(commits), share_indices(chosen)[k]),
                q,
            ),
{
    let coeffs = commit_values(commits);
    let xs = share_indices(chosen);
    assert forall|k: int| 0 <= k < chosen.len() implies parse_decimal((#[trigger] chosen[k]).1@)
        == Some(poly_eval(coeffs, xs[k], q)) && 1 <= xs[k] <= n by {
        assert(is_one_of(chosen[k], shares));
        let i = choose|i: int| 0 <= i < shares.len() && #[trigger] shares[i] == chosen[k];
        assert(shares[i].0 == i + 1);
        lemma_parse_decimal_text(poly_eval(coeffs, i + 1, q));
    }
    assert forall|k: int| 0 <= k < chosen.len() implies 1 <= #[trigger] xs[k] <= n by {
        assert(parse_decimal(chosen[k].1@) == Some(poly_eval(coeffs, xs[k], q)) && 1 <= xs[k] <= n);
    }
    assert forall|k: int| 0 <= k < chosen.len() implies congruent(
        #[trigger] share_values(chosen)[k],
        poly_value(coeffs, xs[k]),
        q,
    ) by {
        assert(parse_decimal(chosen[k].1@) == Some(poly_eval(coeffs, xs[k], q)) && 1 <= xs[k] <= n);
        lemma_congruent_remainder(poly_value(coeffs, xs[k]), q);
    }
}

/// Indices between 1 and `n` that differ, with `n` below `q`, differ modulo
/// `q`, and none of them is zero there.
proof fn lemma_small_indices(xs: Seq<int>, n: int, q: int)
    requires
        n < q,
        forall|k: int| 0 <= k < xs.len() ==> 1 <= #[trigger] xs[k] <= n,
        forall|i: int, j: int|
            #![trigger xs[i], xs[j]]
            0 <= i < xs.len() && 0 <= j < xs.len() && i != j ==> xs[i] != xs[j],
    ensures
        distinct_mod(xs, q),
        forall|k: int| 0 <= k < xs.len() ==> #[trigger] xs[k] % q != 0,
{
    assert forall|k: int| 0 <= k < xs.len() implies #[trigger] xs[k] % q != 0 by {
        vstd::arithmetic::div_mod::lemma_small_mod(xs[k] as nat, q as nat);
    }
    assert forall|i: int, j: int|
        #![trigger xs[i], xs[j]]
        0 <= i < xs.len() && 0 <= j < xs.len() && i != j implies (xs[i] - xs[j]) % q != 0 by {
        if (xs[i] - xs[j]) % q == 0 {
            lemma_small_multiple_is_zero(xs[i] - xs[j], q);
        }
    }
}

/// One share too few: from `threshold - 1` shares of a dealing, with
/// indices that differ, reconstruction succeeds, and it gives the secret
/// exactly when the top coefficient of the dealing is zero. The modulus is
/// a prime above the secret and above the number of shares. So with a top
/// coefficient drawn evenly from the field, such shares give the secret in
/// one dealing out of `q`.
pub proof fn lemma_one_share_short(
    secret: Seq<u8>,
    n: int,
    threshold: int,
    q: int,
    shares: Seq<(usize, String)>,
    commits: Seq<String>,
    chosen: Seq<(usize, String)>,
)
    requires
        is_prime(q),
        2 <= threshold <= n < q,
        be_nat(secret) < q,
        well_dealt(secret, n, threshold, q, shares, commits),
        chosen_from(chosen, shares),
        chosen.len() == threshold - 1,
        forall|i: int, j: int|
            #![trigger chosen[i], chosen[j]]
            0 <= i < chosen.len() && 0 <= j < chosen.len() && i != j ==> chosen[i].0
                != chosen[j].0,
    ensures
        shares_decode(chosen),
        !is_degenerate(share_indices(chosen), q),
        interpolate_at_zero(share_indices(chosen), share_values(chosen), q) == be_nat(secret)
            <==> commit_values(commits)[threshold - 1] == 0,
        be_nat(
            be_bytes(
                interpolate_at_zero(share_indices(chosen), share_values(chosen), q) as nat,
            ),
        ) == be_nat(secret) <==> commit_values(commits)[threshold - 1] == 0,
{
    let coeffs = commit_values(commits);
    let xs = share_indices(chosen);
    let ys = share_values(chosen);
    lemma_chosen_values(secret, n, threshold, q, shares, commits, chosen);
    assert forall|i: int, j: int|
        #![trigger xs[i], xs[j]]
        0 <= i < xs.len() && 0 <= j < xs.len() && i != j implies xs[i] != xs[j] by {
        assert(chosen[i].0 != chosen[j].0);
    }
    lemma_small_indices(xs, n, q);
    lemma_distinct_not_degenerate(xs, q);
    lemma_interpolation_one_point_short(coeffs, xs, ys, q);
    let top = coeffs[threshold - 1];
    assert(coeffs.last() == top);
    assert(0 <= top < q);
    vstd::arithmetic::div_mod::lemma_small_mod(top as nat, q as nat);
    vstd::arithmetic::div_mod::lemma_small_mod(be_nat(secret), q as nat);
    let value = interpolate_at_zero(xs, ys, q);
    vstd::arithmetic::div_mod::lemma_mod_bound(
        weighted_sum(xs, ys, xs.len() as int, q),
        q,
    );
    lemma_be_nat_of_be_bytes(value as nat);
}

/// A share that verifies stops to verify when its value is changed.
pub proof fn lemma_changed_share_fails(
    share: Seq<char>,
    changed: Seq<char>,
    x: int,
    commits: Seq<String>,
    q: int,
)
    requires
        share_matches(share, x, commits, q),
        parse_decimal(changed) != parse_decimal(share),
    ensures
        !share_matches(changed, x, commits, q),
{
}

/// Adding one to a share value in the field changes it, so that the share
/// no longer verifies.
pub proof fn lemma_incremented_share_fails(
    share: Seq<char>,
    changed: Seq<char>,
    x: int,
    commits: Seq<String>,
    q: int,
)
    requires
        q >= 2,
        share_matches(share, x, commits, q),
        parse_decimal(changed) == Some((parse_decimal(share).unwrap() + 1) % q),
    ensures
        !share_matches(changed, x, commits, q),
{
    let v = poly_eval(commit_values(commits), x, q);
    vstd::arithmetic::div_mod::lemma_mod_bound(poly_value(commit_values(commits), x), q);
    if v + 1 < q {
        vstd::arithmetic::div_mod::lemma_small_mod((v + 1) as nat, q as nat);
    } else {
        vstd::arithmetic::div_mod::lemma_mod_self_0(q);
    }
}

} // verus!
