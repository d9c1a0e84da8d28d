//! The sensor reader: well-formed text parses to the exact milli-to-base
//! converted reading, anything else is a parse error, an unreadable source
//! an I/O error.

use temp_exporter::read::{parse_reading, read, ReadError};
use temp_exporter::value::DecValue;

fn val(neg: bool, mantissa: u64, scale: usize) -> DecValue {
    DecValue { neg, mantissa, scale }
}

#[test]
fn parses_plain_integer_millis() {
    assert_eq!(parse_reading("45210"), Ok(val(false, 45210, 3)));
}

#[test]
fn parses_newline_padded_integer() {
    assert_eq!(parse_reading("45210\n"), Ok(val(false, 45210, 3)));
}

#[test]
fn parses_whitespace_padded_integer() {
    assert_eq!(parse_reading(" \t 37500 \r\n"), Ok(val(false, 37500, 3)));
}

#[test]
fn parses_decimal_content() {
    assert_eq!(parse_reading("45210.5"), Ok(val(false, 452105, 4)));
}

#[test]
fn parses_explicit_plus_sign() {
    assert_eq!(parse_reading("+120"), Ok(val(false, 120, 3)));
}

#[test]
fn parses_negative_value() {
    assert_eq!(parse_reading("-5000"), Ok(val(true, 5000, 3)));
}

#[test]
fn parses_zero() {
    assert_eq!(parse_reading("0"), Ok(val(false, 0, 3)));
}

#[test]
fn negative_zero_is_normalized() {
    assert_eq!(parse_reading("-0"), Ok(val(false, 0, 3)));
}

#[test]
fn parses_fraction_only() {
    assert_eq!(parse_reading(".5"), Ok(val(false, 5, 4)));
}

#[test]
fn parses_trailing_dot() {
    assert_eq!(parse_reading("45."), Ok(val(false, 45, 3)));
}

#[test]
fn parses_very_long_fraction() {
    assert_eq!(
        parse_reading(".000000000000000000001"),
        Ok(val(false, 1, 24))
    );
}

#[test]
fn rejects_letters() {
    assert_eq!(parse_reading("abc"), Err(ReadError::Parse));
}

#[test]
fn rejects_empty_text() {
    assert_eq!(parse_reading(""), Err(ReadError::Parse));
}

#[test]
fn rejects_whitespace_only() {
    assert_eq!(parse_reading(" \n "), Err(ReadError::Parse));
}

#[test]
fn rejects_interior_space() {
    assert_eq!(parse_reading("4 5"), Err(ReadError::Parse));
}

#[test]
fn rejects_two_dots() {
    assert_eq!(parse_reading("1.2.3"), Err(ReadError::Parse));
}

#[test]
fn rejects_bare_dot() {
    assert_eq!(parse_reading("."), Err(ReadError::Parse));
}

#[test]
fn rejects_bare_sign() {
    assert_eq!(parse_reading("-"), Err(ReadError::Parse));
}

#[test]
fn rejects_mantissa_beyond_u64() {
    assert_eq!(
        parse_reading("99999999999999999999999999"),
        Err(ReadError::Parse)
    );
}

#[test]
fn accepts_mantissa_at_u64_max() {
    assert_eq!(
        parse_reading("18446744073709551615"),
        Ok(val(false, 18446744073709551615, 3))
    );
}

#[test]
fn constructor_normalizes_negative_zero() {
    assert_eq!(
        DecValue::new(true, 0, 3),
        DecValue { neg: false, mantissa: 0, scale: 3 }
    );
    assert_eq!(
        DecValue::new(true, 5, 3),
        DecValue { neg: true, mantissa: 5, scale: 3 }
    );
}

#[test]
fn read_of_missing_source_is_io_error() {
    assert_eq!(read(None), Err(ReadError::Io));
}

#[test]
fn read_of_present_source_parses() {
    assert_eq!(read(Some("45210\n")), Ok(val(false, 45210, 3)));
    assert_eq!(read(Some("abc")), Err(ReadError::Parse));
}
