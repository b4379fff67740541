//! Polynomials over the field: drawing the coefficients of the sharing
//! polynomial and evaluating it, from the coefficients themselves or from
//! the commitments that publish them.

use crate::vss::bigint::{
    big_add, big_from_biguint, big_from_usize, big_mod_floor, big_mul, int_value, nat_value,
    random_below,
};
use crate::vss::utils::{parse_decimal, string_to_bigint};
use crate::vss::VssError;
use num_bigint::{BigInt, BigUint};
use vstd::arithmetic::div_mod::{lemma_add_mod_noop, lemma_mul_mod_noop_left};
use vstd::prelude::*;

verus! {

/// The integers that a sequence of big integers stands for.
pub open spec fn int_values(coeffs: Seq<BigInt>) -> Seq<int> {
    Seq::new(coeffs.len(), |i: int| int_value(coeffs[i]))
}

/// Every commitment is the decimal text of an integer.
pub open spec fn commits_decode(commits: Seq<String>) -> bool {
    forall|i: int| 0 <= i < commits.len() ==> parse_decimal(#[trigger] commits[i]@) is Some
}

/// The integers that the commitments are read as.
pub open spec fn commit_values(commits: Seq<String>) -> Seq<int> {
    Seq::new(commits.len(), |i: int| parse_decimal(commits[i]@).unwrap())
}

/// The value at `x` of the polynomial whose coefficients are `coeffs`,
/// constant term first: the sum of `coeffs[i] * x^i`.
pub open spec fn poly_value(coeffs: Seq<int>, x: int) -> int
    decreases coeffs.len(),
{
    if coeffs.len() == 0 {
        0
    } else {
        coeffs[0] + x * poly_value(coeffs.drop_first(), x)
    }
}

/// The value of the polynomial at `x` in the field of `q` elements.
pub open spec fn poly_eval(coeffs: Seq<int>, x: int, q: int) -> int {
    poly_value(coeffs, x) % q
}

/// One step of Horner's rule may reduce what it has so far.
proof fn lemma_horner_step(rest: int, x: int, c: int, q: int)
    requires
        q > 0,
    ensures
        ((rest % q) * x + c) % q == (c + x * rest) % q,
{
    lemma_mul_mod_noop_left(rest, x, q);
    lemma_add_mod_noop((rest % q) * x, c, q);
    lemma_add_mod_noop(rest * x, c, q);
    assert(rest * x == x * rest) by (nonlinear_arith);
}

/// Draws the coefficients of a sharing polynomial: the secret as constant
/// term, then `threshold - 1` field elements drawn at random below `q`.
/// A threshold of zero leaves no place for the secret and is refused.
pub fn generate_coefficients(secret: BigInt, threshold: usize, q: &BigUint) -> (coeffs: Result<
    Vec<BigInt>,
    VssError,
>)
    requires
        nat_value(*q) > 0,
    ensures
        coeffs is Ok <==> threshold >= 1,
        coeffs is Err ==> coeffs == Err::<Vec<BigInt>, VssError>(VssError::ParameterError),
        coeffs is Ok ==> {
            let c = coeffs.unwrap();
            &&& c.len() == threshold
            &&& int_value(c[0]) == int_value(secret)
            &&& forall|i: int| 1 <= i < c.len() ==> 0 <= #[trigger] int_value(c[i]) < nat_value(*q)
        },
{
    if threshold == 0 {
        return Err(VssError::ParameterError);
    }
    let mut coeffs: Vec<BigInt> = Vec::new();
    coeffs.push(secret);
    let mut i: usize = 1;
    while i < threshold
        invariant
            1 <= i <= threshold,
            nat_value(*q) > 0,
            coeffs.len() == i,
            int_value(coeffs[0]) == int_value(secret),
            forall|k: int| 1 <= k < coeffs.len() ==> 0 <= #[trigger] int_value(coeffs[k]) < nat_value(*q),
        decreases threshold - i,
    {
        let drawn = random_below(q);
        coeffs.push(big_from_biguint(&drawn));
        i += 1;
    }
    Ok(coeffs)
}

/// Evaluates the polynomial at `x` in the field, by Horner's rule from the
/// highest coefficient down, reducing at every step.
pub fn evaluate_polynomial(coeffs: &[BigInt], x: usize, q: &BigUint) -> (value: BigInt)
    requires
        nat_value(*q) > 0,
    ensures
        int_value(value) == poly_eval(int_values(coeffs@), x as int, nat_value(*q) as int),
{
    let x_big = big_from_usize(x);
    let q_big = big_from_biguint(q);
    let ghost cs = int_values(coeffs@);
    let ghost qi = nat_value(*q) as int;
    let mut acc = big_from_usize(0);
    let mut i: usize = coeffs.len();
    proof {
        assert(cs.subrange(i as int, cs.len() as int) =~= Seq::<int>::empty());
        assert(poly_value(Seq::<int>::empty(), x as int) == 0);
        assert(0int % qi == 0) by (nonlinear_arith)
            requires
                qi > 0,
        ;
    }
    while i > 0
        invariant
            i <= coeffs.len(),
            cs == int_values(coeffs@),
            qi == nat_value(*q),
            qi > 0,
            int_value(q_big) == qi,
            int_value(x_big) == x,
            int_value(acc) == poly_eval(cs.subrange(i as int, cs.len() as int), x as int, qi),
        decreases i,
    {
        i -= 1;
        let scaled = big_mul(&acc, &x_big);
        let sum = big_add(&scaled, &coeffs[i]);
        proof {
            let tail = cs.subrange(i as int, cs.len() as int);
            assert(tail.drop_first() =~= cs.subrange(i + 1, cs.len() as int));
            assert(tail[0] == int_value(coeffs[i as int]));
            lemma_horner_step(poly_value(tail.drop_first(), x as int), x as int, tail[0], qi);
        }
        acc = big_mod_floor(&sum, &q_big);
    }
    proof {
        assert(cs.subrange(0, cs.len() as int) =~= cs);
    }
    acc
}

/// Evaluates at `x` the polynomial that the commitments publish, reading
/// each commitment from its decimal text. Fails if one of them is no such
/// text.
pub fn evaluate_commitments(x: usize, commits: &[String], q: &BigUint) -> (value: Result<
    BigInt,
    VssError,
>)
    requires
        nat_value(*q) > 0,
    ensures
        value is Ok <==> commits_decode(commits@),
        value is Err ==> value == Err::<BigInt, VssError>(VssError::DecodeError),
        value is Ok ==> int_value(value.unwrap()) == poly_eval(
            commit_values(commits@),
            x as int,
            nat_value(*q) as int,
        ),
{
    let mut coeffs: Vec<BigInt> = Vec::new();
    let mut i: usize = 0;
    while i < commits.len()
        invariant
            i <= commits.len(),
            coeffs.len() == i,
            forall|k: int| 0 <= k < i ==> parse_decimal(#[trigger] commits[k]@) == Some(int_value(coeffs[k])),
        decreases commits.len() - i,
    {
        match string_to_bigint(commits[i].as_str()) {
            Ok(c) => coeffs.push(c),
            Err(e) => {
                return Err(e);
            },
        }
        i += 1;
    }
    proof {
        assert(int_values(coeffs@) =~= commit_values(commits@));
    }
    Ok(evaluate_polynomial(coeffs.as_slice(), x, q))
}

} // verus!
