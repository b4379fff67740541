//! The decimal text form of field elements: how an integer is written, which
//! texts are read back as integers, and that reading undoes writing.

use crate::vss::bigint::{big_parse_decimal, big_to_decimal, int_value};
use crate::vss::VssError;
use num_bigint::BigInt;
use vstd::prelude::*;

verus! {

/// The character of a decimal digit.
pub open spec fn digit_char(d: int) -> char {
    if d == 0 {
        '0'
    } else if d == 1 {
        '1'
    } else if d == 2 {
        '2'
    } else if d == 3 {
        '3'
    } else if d == 4 {
        '4'
    } else if d == 5 {
        '5'
    } else if d == 6 {
        '6'
    } else if d == 7 {
        '7'
    } else if d == 8 {
        '8'
    } else {
        '9'
    }
}

/// The digit that a character shows, if it is one of `0` to `9`.
pub open spec fn digit_of(c: char) -> Option<int> {
    if c == '0' {
        Some(0)
    } else if c == '1' {
        Some(1)
    } else if c == '2' {
        Some(2)
    } else if c == '3' {
        Some(3)
    } else if c == '4' {
        Some(4)
    } else if c == '5' {
        Some(5)
    } else if c == '6' {
        Some(6)
    } else if c == '7' {
        Some(7)
    } else if c == '8' {
        Some(8)
    } else if c == '9' {
        Some(9)
    } else {
        None
    }
}

/// The digits of `n` in base ten, most significant first, without leading
/// zeros; zero is the single digit `0`.
pub open spec fn decimal_digits(n: nat) -> Seq<char>
    decreases n,
{
    if n < 10 {
        seq![digit_char(n as int)]
    } else {
        decimal_digits(n / 10).push(digit_char((n % 10) as int))
    }
}

/// The decimal text of an integer: a minus sign if it is negative, then the
/// digits of its magnitude.
pub open spec fn decimal_text(v: int) -> Seq<char> {
    if v < 0 {
        seq!['-'] + decimal_digits((-v) as nat)
    } else {
        decimal_digits(v as nat)
    }
}

/// What a run of digits and underscores counts to, underscores skipped.
pub open spec fn digits_value(s: Seq<char>) -> nat
    decreases s.len(),
{
    if s.len() == 0 {
        0
    } else if digit_of(s.last()) is Some {
        (digits_value(s.drop_last()) * 10 + digit_of(s.last()).unwrap()) as nat
    } else {
        digits_value(s.drop_last())
    }
}

/// The part after the sign is accepted when it starts with a digit and goes
/// on with digits and underscores only.
pub open spec fn is_digit_run(s: Seq<char>) -> bool {
    &&& s.len() > 0
    &&& digit_of(s[0]) is Some
    &&& forall|i: int| 0 <= i < s.len() ==> digit_of(#[trigger] s[i]) is Some || s[i] == '_'
}

/// The integer that a text is read as: one optional `-` or `+`, then a run
/// of digits that may hold underscores after its first digit. Any other
/// text is read as nothing.
pub open spec fn parse_decimal(s: Seq<char>) -> Option<int> {
    let signed = s.len() > 0 && (s[0] == '-' || s[0] == '+');
    let body = if signed {
        s.subrange(1, s.len() as int)
    } else {
        s
    };
    if !is_digit_run(body) {
        None
    } else if s[0] == '-' {
        Some(-(digits_value(body) as int))
    } else {
        Some(digits_value(body) as int)
    }
}

/// The digits of a number are a run of digits that counts to that number.
pub proof fn lemma_decimal_digits(n: nat)
    ensures
        is_digit_run(decimal_digits(n)),
        digits_value(decimal_digits(n)) == n,
        forall|i: int|
            0 <= i < decimal_digits(n).len() ==> digit_of(#[trigger] decimal_digits(n)[i])
                is Some,
    decreases n,
{
    let d = decimal_digits(n);
    if n < 10 {
        assert(d.drop_last() =~= Seq::<char>::empty());
        assert(digits_value(d.drop_last()) == 0);
    } else {
        lemma_decimal_digits(n / 10);
        let head = decimal_digits(n / 10);
        assert(d.drop_last() =~= head);
        assert(d[0] == head[0]);
        assert(digit_of(d.last()) == Some((n % 10) as int));
    }
}

/// Reading the decimal text of an integer gives that integer back.
pub proof fn lemma_parse_decimal_text(v: int)
    ensures
        parse_decimal(decimal_text(v)) == Some(v),
{
    if v < 0 {
        let n = (-v) as nat;
        lemma_decimal_digits(n);
        let s = decimal_text(v);
        assert(s.subrange(1, s.len() as int) =~= decimal_digits(n));
    } else {
        lemma_decimal_digits(v as nat);
    }
}

/// Writes a field element as decimal text.
pub fn bigint_to_string(value: &BigInt) -> (text: String)
    ensures
        text@ == decimal_text(int_value(*value)),
{
    big_to_decimal(value)
}

/// Reads a field element from decimal text, or reports that the text is
/// none.
pub fn string_to_bigint(value: &str) -> (parsed: Result<BigInt, VssError>)
    ensures
        match parsed {
            Ok(b) => parse_decimal(value@) == Some(int_value(b)),
            Err(e) => e == VssError::DecodeError && parse_decimal(value@) is None,
        },
{
    match big_parse_decimal(value) {
        Some(b) => Ok(b),
        None => Err(VssError::DecodeError),
    }
}

} // verus!
