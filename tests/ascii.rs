use chomp::ascii::{
    signed, Decimal, decimal, digit, is_alpha, is_alphanumeric, is_digit, is_end_of_line, is_horizontal_space,
    is_lowercase, is_uppercase, is_whitespace, skip_whitespace, to_decimal, to_decimal_checked,
};
use chomp::input::{Input, ParseResult};
use chomp::parsers::ParseError;

#[test]
fn test_to_decimal_u8() {
    assert_eq!(to_decimal(b""), 0);
    assert_eq!(to_decimal(b"0"), 0);
    assert_eq!(to_decimal(b"1"), 1);
    assert_eq!(to_decimal(b"2"), 2);
    assert_eq!(to_decimal(b"10"), 10);
    assert_eq!(to_decimal(b"20"), 20);
    assert_eq!(to_decimal(b"25"), 25);
}

#[test]
fn to_decimal_limits() {
    assert_eq!(to_decimal_checked(b"18446744073709551615"), Some(u64::MAX));
    assert_eq!(to_decimal_checked(b"18446744073709551616"), None);
    assert_eq!(to_decimal_checked(b"000123"), Some(123));
}

#[test]
fn predicates() {
    assert!(is_lowercase(b'a') && is_lowercase(b'z') && !is_lowercase(b'A'));
    assert!(is_uppercase(b'A') && is_uppercase(b'Z') && !is_uppercase(b'a'));
    for c in [b'\t', b'\n', 11u8, 12u8, b'\r', b' '] {
        assert!(is_whitespace(c));
    }
    assert!(!is_whitespace(b'a') && !is_whitespace(8) && !is_whitespace(14));
    assert!(is_horizontal_space(b' ') && is_horizontal_space(b'\t') && !is_horizontal_space(b'\n'));
    assert!(is_end_of_line(b'\n') && is_end_of_line(b'\r') && !is_end_of_line(b' '));
    assert!(is_digit(b'0') && is_digit(b'9') && !is_digit(b'a') && !is_digit(b'/'));
    assert!(is_alpha(b'q') && is_alpha(b'Q') && !is_alpha(b'1'));
    assert!(is_alphanumeric(b'q') && is_alphanumeric(b'7') && !is_alphanumeric(b'-'));
}

#[test]
fn digit_and_decimal() {
    assert_eq!(digit(b"1", Input::new(true)), ParseResult::Data(Input::at(1, true), b'1'));
    assert_eq!(digit(b"x", Input::new(true)), ParseResult::Error(Input::at(0, true), ParseError::Unexpected));
    assert_eq!(decimal(b"123", Input::new(true)), ParseResult::Data(Input::at(3, true), 123));
    assert_eq!(decimal(b"123", Input::new(false)), ParseResult::Incomplete(Input::at(0, false), 1));
    assert_eq!(decimal(b"12;", Input::new(false)), ParseResult::Data(Input::at(2, false), 12));
    assert_eq!(decimal(b";", Input::new(true)), ParseResult::Error(Input::at(0, true), ParseError::Unexpected));
    assert_eq!(
        decimal(b"99999999999999999999", Input::new(true)),
        ParseResult::Error(Input::at(0, true), ParseError::Overflow)
    );
}

#[test]
fn skip_whitespace_test() {
    assert_eq!(skip_whitespace(b" \t x", Input::new(true)), ParseResult::Data(Input::at(3, true), ()));
    assert_eq!(skip_whitespace(b"x", Input::new(true)), ParseResult::Data(Input::at(0, true), ()));
    assert_eq!(skip_whitespace(b" \t ", Input::new(true)), ParseResult::Data(Input::at(3, true), ()));
    assert_eq!(skip_whitespace(b" \t ", Input::new(false)), ParseResult::Incomplete(Input::at(0, false), 1));
}

#[test]
fn signed_numbers() {
    assert_eq!(signed(b"-123", Input::new(true), Decimal), ParseResult::Data(Input::at(4, true), -123));
    assert_eq!(signed(b"+45;", Input::new(false), Decimal), ParseResult::Data(Input::at(3, false), 45));
    assert_eq!(signed(b"7;", Input::new(false), Decimal), ParseResult::Data(Input::at(1, false), 7));
    assert_eq!(signed(b"", Input::new(false), Decimal), ParseResult::Incomplete(Input::at(0, false), 1));
    assert_eq!(
        signed(b"-9223372036854775808", Input::new(true), Decimal),
        ParseResult::Data(Input::at(20, true), i64::MIN)
    );
    assert_eq!(
        signed(b"9223372036854775808", Input::new(true), Decimal),
        ParseResult::Error(Input::at(0, true), ParseError::Overflow)
    );
    assert_eq!(signed(b"-x", Input::new(true), Decimal), ParseResult::Error(Input::at(1, true), ParseError::Unexpected));
}
