use param_codec::hash40::{hex_digit, parse_hex_bytes, Hash40, ParseError};

#[test]
fn parses_with_and_without_prefix() {
    assert_eq!(Hash40::from_hex_str("0x123456789A"), Ok(Hash40(0x123456789A)));
    assert_eq!(Hash40::from_hex_str("123456789A"), Ok(Hash40(0x123456789A)));
    assert_eq!(Hash40::from_hex_str("1234"), Ok(Hash40(0x1234)));
    assert_eq!(Hash40::from_hex_str("0x0"), Ok(Hash40(0)));
    assert_eq!(Hash40::from_hex_str("0"), Ok(Hash40(0)));
}

#[test]
fn parses_both_cases_of_digits() {
    assert_eq!(Hash40::from_hex_str("0xabcdef"), Ok(Hash40(0xABCDEF)));
    assert_eq!(Hash40::from_hex_str("0xABCDEF"), Ok(Hash40(0xABCDEF)));
    assert_eq!(Hash40::from_hex_str("aBcDeF0123"), Ok(Hash40(0xABCDEF0123)));
}

#[test]
fn parses_the_largest_value() {
    assert_eq!(Hash40::from_hex_str("0xffffffffff"), Ok(Hash40(0xFF_FFFF_FFFF)));
    assert!(Hash40::from_hex_str("0xffffffffff").unwrap().is_valid());
}

#[test]
fn more_than_ten_digits_overflow() {
    assert_eq!(Hash40::from_hex_str("0x10000000000"), Err(ParseError::Overflow));
    assert_eq!(Hash40::from_hex_str("12345678901"), Err(ParseError::Overflow));
    assert_eq!(Hash40::from_hex_str("00000000001"), Err(ParseError::Overflow));
    assert_eq!(Hash40::from_hex_str("0xffffffffffffffffffffffff"), Err(ParseError::Overflow));
}

#[test]
fn other_bytes_are_invalid_digits() {
    assert_eq!(Hash40::from_hex_str(""), Err(ParseError::InvalidDigit));
    assert_eq!(Hash40::from_hex_str("0x"), Err(ParseError::InvalidDigit));
    assert_eq!(Hash40::from_hex_str("nothexvalue"), Err(ParseError::InvalidDigit));
    assert_eq!(Hash40::from_hex_str("0X12"), Err(ParseError::InvalidDigit));
    assert_eq!(Hash40::from_hex_str("+12"), Err(ParseError::InvalidDigit));
    assert_eq!(Hash40::from_hex_str("12 "), Err(ParseError::InvalidDigit));
    assert_eq!(Hash40::from_hex_str("0x12g4"), Err(ParseError::InvalidDigit));
    assert_eq!(Hash40::from_hex_str("é"), Err(ParseError::InvalidDigit));
}

#[test]
fn an_invalid_digit_comes_before_the_count_of_digits() {
    assert_eq!(Hash40::from_hex_str("123456789012345z"), Err(ParseError::InvalidDigit));
    assert_eq!(Hash40::from_hex_str("z23456789012345"), Err(ParseError::InvalidDigit));
}

#[test]
fn parses_bytes() {
    assert_eq!(parse_hex_bytes(b"0x1f"), Ok(Hash40(0x1F)));
    assert_eq!(parse_hex_bytes(b"x1f"), Err(ParseError::InvalidDigit));
}

#[test]
fn hex_digit_values() {
    assert_eq!(hex_digit(b'0'), Some(0));
    assert_eq!(hex_digit(b'9'), Some(9));
    assert_eq!(hex_digit(b'a'), Some(10));
    assert_eq!(hex_digit(b'f'), Some(15));
    assert_eq!(hex_digit(b'A'), Some(10));
    assert_eq!(hex_digit(b'F'), Some(15));
    assert_eq!(hex_digit(b'g'), None);
    assert_eq!(hex_digit(b'/'), None);
    assert_eq!(hex_digit(b':'), None);
    assert_eq!(hex_digit(b'@'), None);
    assert_eq!(hex_digit(b'G'), None);
    assert_eq!(hex_digit(b'`'), None);
}

#[test]
fn canonical_text_has_ten_lowercase_digits() {
    assert_eq!(Hash40(0xFFFF).to_hex_string(), "0x000000ffff");
    assert_eq!(Hash40(0).to_hex_string(), "0x0000000000");
    assert_eq!(Hash40(0x123456789A).to_hex_string(), "0x123456789a");
    assert_eq!(Hash40(0xFF_FFFF_FFFF).to_hex_string(), "0xffffffffff");
}

#[test]
fn canonical_text_parses_back() {
    for value in [0u64, 1, 0x1234, 0xABCDEF0123, 0xFF_FFFF_FFFF] {
        let text = Hash40(value).to_hex_string();
        assert_eq!(Hash40::from_hex_str(&text), Ok(Hash40(value)));
    }
}

#[test]
fn validity_is_forty_bits() {
    assert!(Hash40(0xFF_FFFF_FFFF).is_valid());
    assert!(!Hash40(0x100_0000_0000).is_valid());
}

#[test]
fn hashes_compare_by_value() {
    assert!(Hash40(1) < Hash40(2));
    assert!(Hash40(0xFF_FFFF_FFFF) > Hash40(0));
    assert_eq!(Hash40(7), Hash40(7));
    assert_ne!(Hash40(7), Hash40(8));
}
