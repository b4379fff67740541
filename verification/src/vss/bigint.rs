//! The big-integer arithmetic that the scheme takes from `num-bigint` and its
//! companion crates. Every function here is a thin call into one of them; its
//! contract is taken on trust from that crate's source and documentation.

use crate::vss::bytes::{be_bytes, be_nat};
use crate::vss::utils::{decimal_text, parse_decimal};
use num_bigint::{BigInt, BigUint, RandBigInt, Sign};
use num_integer::Integer;
use num_prime::RandPrime;
use num_traits::One;
use vstd::arithmetic::power::pow;
use vstd::prelude::*;

verus! {

/// `num_bigint::BigInt`, a signed integer of any size. Nothing of its inside
/// is known here; what is said of one is said through `int_value`.
#[verifier::external_type_specification]
#[verifier::external_body]
pub struct ExBigInt(num_bigint::BigInt);

/// `num_bigint::BigUint`, an unsigned integer of any size, known here only
/// through `nat_value`.
#[verifier::external_type_specification]
#[verifier::external_body]
pub struct ExBigUint(num_bigint::BigUint);

/// The mathematical integer that a `num_bigint::BigInt` stands for. The
/// contracts below say of each operation what it does to this value.
pub uninterp spec fn int_value(b: BigInt) -> int;

/// The natural number that a `num_bigint::BigUint` stands for.
pub uninterp spec fn nat_value(b: BigUint) -> nat;

/// `From<usize> for BigInt`: the integer `x`.
#[verifier::external_body]
pub(crate) fn big_from_usize(x: usize) -> (r: BigInt)
    ensures
        int_value(r) == x,
{
    BigInt::from(x)
}

/// `num_traits::One::one` for `BigInt`: the integer 1.
#[verifier::external_body]
pub(crate) fn big_one() -> (r: BigInt)
    ensures
        int_value(r) == 1,
{
    BigInt::one()
}

/// `From<BigUint> for BigInt`: the same number, as a signed integer.
#[verifier::external_body]
pub(crate) fn big_from_biguint(n: &BigUint) -> (r: BigInt)
    ensures
        int_value(r) == nat_value(*n),
{
    BigInt::from(n.clone())
}

/// `BigInt::from_bytes_be` with `Sign::Plus`: the non-negative integer whose
/// big-endian bytes are `bytes`; leading zero bytes do not count, and the
/// empty slice gives 0.
#[verifier::external_body]
pub(crate) fn big_from_bytes_be(bytes: &[u8]) -> (r: BigInt)
    ensures
        int_value(r) == be_nat(bytes@),
{
    BigInt::from_bytes_be(Sign::Plus, bytes)
}

/// `BigInt::to_bytes_be`, magnitude only: the shortest big-endian bytes of
/// the absolute value, `[0]` for zero.
#[verifier::external_body]
pub(crate) fn big_to_bytes_be(a: &BigInt) -> (r: Vec<u8>)
    ensures
        r@ == be_bytes(vstd::math::abs(int_value(*a))),
{
    a.to_bytes_be().1
}

/// `&BigInt + &BigInt`: the exact sum.
#[verifier::external_body]
pub(crate) fn big_add(a: &BigInt, b: &BigInt) -> (r: BigInt)
    ensures
        int_value(r) == int_value(*a) + int_value(*b),
{
    a + b
}

/// `&BigInt - &BigInt`: the exact difference.
#[verifier::external_body]
pub(crate) fn big_sub(a: &BigInt, b: &BigInt) -> (r: BigInt)
    ensures
        int_value(r) == int_value(*a) - int_value(*b),
{
    a - b
}

/// `&BigInt * &BigInt`: the exact product.
#[verifier::external_body]
pub(crate) fn big_mul(a: &BigInt, b: &BigInt) -> (r: BigInt)
    ensures
        int_value(r) == int_value(*a) * int_value(*b),
{
    a * b
}

/// `-&BigInt`: the negation.
#[verifier::external_body]
pub(crate) fn big_neg(a: &BigInt) -> (r: BigInt)
    ensures
        int_value(r) == -int_value(*a),
{
    -a
}

/// `num_integer::Integer::mod_floor` for `BigInt`. It panics on a zero
/// modulus; for a positive one the result is the remainder in `[0, m)`.
#[verifier::external_body]
pub(crate) fn big_mod_floor(a: &BigInt, m: &BigInt) -> (r: BigInt)
    requires
        int_value(*m) > 0,
    ensures
        int_value(r) == int_value(*a) % int_value(*m),
{
    a.mod_floor(m)
}

/// `BigInt::modpow`. It panics on a negative exponent or a zero modulus; for
/// a positive modulus the result is `a^e` reduced into `[0, m)`.
#[verifier::external_body]
pub(crate) fn big_modpow(a: &BigInt, e: &BigInt, m: &BigInt) -> (r: BigInt)
    requires
        int_value(*e) >= 0,
        int_value(*m) > 0,
    ensures
        int_value(r) == pow(int_value(*a), int_value(*e) as nat) % int_value(*m),
{
    a.modpow(e, m)
}

/// `BigInt::to_str_radix` in base ten: a minus sign for a negative number,
/// then the digits of the magnitude without leading zeros, `0` for zero.
#[verifier::external_body]
pub(crate) fn big_to_decimal(a: &BigInt) -> (r: String)
    ensures
        r@ == decimal_text(int_value(*a)),
{
    a.to_str_radix(10)
}

/// `BigInt::parse_bytes` in base ten. It takes one optional sign and then
/// digits, with underscores allowed after the first digit, and gives `None`
/// for any other text.
#[verifier::external_body]
pub(crate) fn big_parse_decimal(text: &str) -> (r: Option<BigInt>)
    ensures
        match r {
            Some(b) => parse_decimal(text@) == Some(int_value(b)),
            None => parse_decimal(text@) is None,
        },
{
    BigInt::parse_bytes(text.as_bytes(), 10)
}

/// `PartialEq for BigInt`: equal exactly when the integers are.
#[verifier::external_body]
pub(crate) fn big_eq(a: &BigInt, b: &BigInt) -> (r: bool)
    ensures
        r == (int_value(*a) == int_value(*b)),
{
    a == b
}

/// `PartialOrd for BigInt`: the order of the integers.
#[verifier::external_body]
pub(crate) fn big_lt(a: &BigInt, b: &BigInt) -> (r: bool)
    ensures
        r == (int_value(*a) < int_value(*b)),
{
    a < b
}

/// `RandBigInt::gen_biguint_below` on `rand::thread_rng()`. It panics on a
/// zero bound; otherwise the draw lies below the bound. Nothing else is
/// known of it.
#[verifier::external_body]
pub(crate) fn random_below(bound: &BigUint) -> (r: BigUint)
    requires
        nat_value(*bound) > 0,
    ensures
        nat_value(r) < nat_value(*bound),
{
    rand::thread_rng().gen_biguint_below(bound)
}

/// `RandPrime::gen_prime` on `rand::thread_rng()`, with the default test.
/// The candidate has its lowest bit set, so it is odd; the result is that
/// candidate if the primality test accepts it, and else the next number
/// above it that the test accepts. The test refuses everything below 2, and
/// the next such number above 1 is 2, so the result is at least 2. The test
/// is probabilistic for large numbers and the search may pass the asked
/// size, so neither primality nor the bit length is promised.
#[verifier::external_body]
pub(crate) fn random_prime(bits: usize) -> (r: BigUint)
    ensures
        nat_value(r) >= 2,
{
    rand::thread_rng().gen_prime(bits, None)
}

} // verus!
