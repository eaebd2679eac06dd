use candor::defs::{parse_dec, Dec};
use candor::numtext::parse_hex_bounded;

fn chars(s: &str) -> Vec<char> {
    s.chars().collect()
}

#[test]
fn hex_tokens_parse_as_radix_parsing_does() {
    assert_eq!(parse_hex_bounded(&chars("00ff"), u64::MAX), Some(255));
    assert_eq!(parse_hex_bounded(&chars("1F"), u64::MAX), Some(31));
    // one leading plus is allowed; a minus sign is rejected, as unsigned
    // radix parsing does
    assert_eq!(parse_hex_bounded(&chars("+1f"), u64::MAX), Some(31));
    assert_eq!(parse_hex_bounded(&chars("-0"), u64::MAX), None);
    assert_eq!(parse_hex_bounded(&chars("-1"), u64::MAX), None);
    // empty digits or stray characters are rejected
    assert_eq!(parse_hex_bounded(&chars(""), u64::MAX), None);
    assert_eq!(parse_hex_bounded(&chars("+"), u64::MAX), None);
    assert_eq!(parse_hex_bounded(&chars("1g"), u64::MAX), None);
    // values over the bound are rejected, however long the token
    assert_eq!(parse_hex_bounded(&chars("1FF"), 255), None);
    assert_eq!(parse_hex_bounded(&chars("FF"), 255), Some(255));
    assert_eq!(parse_hex_bounded(&chars("10000000000000000"), u64::MAX), None);
}

#[test]
fn scaling_literals_parse_exactly() {
    assert_eq!(parse_dec(&chars("1")), Some(Dec { m: 1, e: 0 }));
    assert_eq!(parse_dec(&chars("0.1")), Some(Dec { m: 1, e: 1 }));
    assert_eq!(parse_dec(&chars("-1.5")), Some(Dec { m: -15, e: 1 }));
    assert_eq!(parse_dec(&chars("0.00390625")), Some(Dec { m: 390625, e: 8 }));
    assert_eq!(parse_dec(&chars("12.")), Some(Dec { m: 12, e: 0 }));
    assert_eq!(parse_dec(&chars(".5")), Some(Dec { m: 5, e: 1 }));
}

#[test]
fn unrepresentable_scaling_literals_are_rejected() {
    // no digits, stray characters, exponent notation
    assert_eq!(parse_dec(&chars("")), None);
    assert_eq!(parse_dec(&chars(".")), None);
    assert_eq!(parse_dec(&chars("1e3")), None);
    // too many digits in all, or too many decimal places
    assert_eq!(parse_dec(&chars("12345678901234")), None);
    assert_eq!(parse_dec(&chars("0.0001220703125")), None);
}
