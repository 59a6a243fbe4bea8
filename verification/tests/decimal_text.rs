use sequencer_block::decimal::{decimal_string, parse_u128};

#[test]
fn parses_plain_digits() {
    assert_eq!(parse_u128("123"), Some(123));
    assert_eq!(parse_u128("0"), Some(0));
    assert_eq!(parse_u128("007"), Some(7));
}

#[test]
fn parses_a_leading_plus() {
    assert_eq!(parse_u128("+42"), Some(42));
}

#[test]
fn rejects_what_std_rejects() {
    assert_eq!(parse_u128(""), None);
    assert_eq!(parse_u128("+"), None);
    assert_eq!(parse_u128("-1"), None);
    assert_eq!(parse_u128("12a"), None);
    assert_eq!(parse_u128(" 12"), None);
    assert_eq!(parse_u128("++1"), None);
}

#[test]
fn parse_agrees_with_std() {
    for s in ["1", "+9", "", "x", "99999", "18446744073709551616", "-0"] {
        assert_eq!(parse_u128(s), s.parse::<u128>().ok(), "text {:?}", s);
    }
}

#[test]
fn parses_up_to_u128_max_and_no_further() {
    assert_eq!(
        parse_u128("340282366920938463463374607431768211455"),
        Some(u128::MAX)
    );
    assert_eq!(parse_u128("340282366920938463463374607431768211456"), None);
    assert_eq!(parse_u128("1000000000000000000000000000000000000000"), None);
}

#[test]
fn renders_decimal_text() {
    assert_eq!(decimal_string(0), "0");
    assert_eq!(decimal_string(7), "7");
    assert_eq!(decimal_string(404), "404");
    assert_eq!(decimal_string(65535), "65535");
    assert_eq!(decimal_string(u64::MAX), u64::MAX.to_string());
}
