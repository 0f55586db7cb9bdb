//! Numeric literals: variant selection, 64-bit integer bounds, and the
//! malformed literals the grammar rejects.

use bourne::Number;
use bourne::ParseError;
use bourne::Value;

#[test]
fn int_variant_for_plain_digits() {
    assert_eq!(
        Value::from_str("123").unwrap(),
        Value::Number(Number::Int(123))
    );
    assert_eq!(Value::from_str("0").unwrap(), Value::Number(Number::Int(0)));
    assert_eq!(
        Value::from_str("-7 ").unwrap(),
        Value::Number(Number::Int(-7))
    );
    assert_eq!(
        Value::from_str("+25").unwrap(),
        Value::Number(Number::Int(25))
    );
}

#[test]
fn float_variant_for_point_or_exponent() {
    assert_eq!(
        Value::from_str("1.5").unwrap(),
        Value::Number(Number::Float(b"1.5".to_vec()))
    );
    assert_eq!(
        Value::from_str("1e5").unwrap(),
        Value::Number(Number::Float(b"1e5".to_vec()))
    );
    assert_eq!(
        Value::from_str("-0.25E-3").unwrap(),
        Value::Number(Number::Float(b"-0.25E-3".to_vec()))
    );
    assert_eq!(
        Value::from_str("0e0").unwrap(),
        Value::Number(Number::Float(b"0e0".to_vec()))
    );
}

#[test]
fn int_max_is_an_integer_not_a_float() {
    assert_eq!(
        Value::from_str("9223372036854775807").unwrap(),
        Value::Number(Number::Int(i64::MAX))
    );
}

#[test]
fn int_min_is_an_integer() {
    assert_eq!(
        Value::from_str("-9223372036854775808").unwrap(),
        Value::Number(Number::Int(i64::MIN))
    );
}

#[test]
fn int_overflow_is_a_conversion_error() {
    assert_eq!(
        Value::from_str("9223372036854775808"),
        Err(ParseError::ParseIntError)
    );
    assert_eq!(
        Value::from_str("-9223372036854775809"),
        Err(ParseError::ParseIntError)
    );
    assert_eq!(
        Value::from_str("123456789012345678901234567890"),
        Err(ParseError::ParseIntError)
    );
}

#[test]
fn digit_after_leading_zero_fails() {
    assert_eq!(Value::from_str("01"), Err(ParseError::InvalidCharacter(1)));
}

#[test]
fn missing_fractional_digit_fails() {
    assert_eq!(Value::from_str("1."), Err(ParseError::InvalidCharacter(2)));
}

#[test]
fn missing_leading_integer_digit_fails() {
    assert_eq!(Value::from_str(".1"), Err(ParseError::InvalidCharacter(0)));
}

#[test]
fn missing_exponent_digit_fails() {
    assert_eq!(Value::from_str("1e"), Err(ParseError::InvalidCharacter(2)));
    assert_eq!(Value::from_str("1e+"), Err(ParseError::InvalidCharacter(3)));
}

#[test]
fn number_ends_on_terminators() {
    let v = Value::from_str("[10,20]").unwrap();
    assert_eq!(v.get(0usize), Some(&Value::Number(Number::Int(10))));
    assert_eq!(v.get(1usize), Some(&Value::Number(Number::Int(20))));
    let w = Value::from_str("{\"n\": 3}").unwrap();
    assert_eq!(w.get("n".as_bytes()), Some(&Value::Number(Number::Int(3))));
}

#[test]
fn float_text_converts_with_the_native_parser() {
    match Value::from_str("2.5E10").unwrap() {
        Value::Number(Number::Float(text)) => {
            let f: f64 = std::str::from_utf8(&text).unwrap().parse().unwrap();
            assert_eq!(f, 2.5e10);
        }
        other => panic!("expected a float, found {:?}", other),
    }
}
