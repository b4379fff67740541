use feldman_vss::vss::utils::{bigint_to_string, string_to_bigint};
use feldman_vss::vss::VssError;
use num_bigint::BigInt;

#[test]
fn integers_are_written_in_base_ten() {
    assert_eq!(bigint_to_string(&BigInt::from(0)), "0");
    assert_eq!(bigint_to_string(&BigInt::from(7)), "7");
    assert_eq!(bigint_to_string(&BigInt::from(1234567890u64)), "1234567890");
    assert_eq!(bigint_to_string(&BigInt::from(-17)), "-17");
    let big = BigInt::from(u64::MAX) * BigInt::from(u64::MAX);
    assert_eq!(
        bigint_to_string(&big),
        "340282366920938463426481119284349108225"
    );
}

#[test]
fn decimal_text_is_read_back() {
    assert_eq!(string_to_bigint("0"), Ok(BigInt::from(0)));
    assert_eq!(string_to_bigint("007"), Ok(BigInt::from(7)));
    assert_eq!(string_to_bigint("-17"), Ok(BigInt::from(-17)));
    assert_eq!(string_to_bigint("+17"), Ok(BigInt::from(17)));
    assert_eq!(string_to_bigint("-0"), Ok(BigInt::from(0)));
    assert_eq!(string_to_bigint("1_000"), Ok(BigInt::from(1000)));
    assert_eq!(string_to_bigint("5_"), Ok(BigInt::from(5)));
    assert_eq!(
        string_to_bigint("340282366920938463426481119284349108225"),
        Ok(BigInt::from(u64::MAX) * BigInt::from(u64::MAX))
    );
}

#[test]
fn other_text_is_a_decode_error() {
    for text in [
        "", "-", "+", "_1", "-_1", "12a", "0x10", " 1", "1 ", "--1", "++1", "-+1", "+-1", "1.5",
        "٣",
    ] {
        assert_eq!(string_to_bigint(text), Err(VssError::DecodeError), "{:?}", text);
    }
}

#[test]
fn writing_then_reading_gives_the_number_back() {
    for v in [0i64, 1, 9, 10, 99, 100, 255, 256, -1, -10, -255, i64::MAX, i64::MIN] {
        let n = BigInt::from(v);
        assert_eq!(string_to_bigint(&bigint_to_string(&n)), Ok(n));
    }
}
