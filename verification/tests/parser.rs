//! Decimal parser behaviour on concrete fields.

use brc_core::parse::fast_parse_float_to_int;

#[test]
fn test_positive_integer() {
    let data = b"123";
    assert_eq!(fast_parse_float_to_int(data), 123);
}

#[test]
fn test_negative_integer() {
    let data = b"-123";
    assert_eq!(fast_parse_float_to_int(data), -123);
}

#[test]
fn test_positive_float() {
    let data = b"123.45";
    assert_eq!(fast_parse_float_to_int(data), 12345);
}

#[test]
fn test_negative_float() {
    let data = b"-123.45";
    assert_eq!(fast_parse_float_to_int(data), -12345);
}

#[test]
fn test_zero() {
    let data = b"0";
    assert_eq!(fast_parse_float_to_int(data), 0);
}

#[test]
fn test_empty() {
    let data = b"";
    assert_eq!(fast_parse_float_to_int(data), 0);
}

#[test]
fn one_fractional_digit_means_tenths() {
    assert_eq!(fast_parse_float_to_int(b"12.3"), 123);
    assert_eq!(fast_parse_float_to_int(b"-12.3"), -123);
    assert_eq!(fast_parse_float_to_int(b"-0.5"), -5);
    assert_eq!(fast_parse_float_to_int(b"0.0"), 0);
}

#[test]
fn values_near_the_integer_bounds() {
    assert_eq!(fast_parse_float_to_int(b"214748364.7"), 2147483647);
    assert_eq!(fast_parse_float_to_int(b"-214748364.7"), -2147483647);
}
