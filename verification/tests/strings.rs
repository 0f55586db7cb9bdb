//! Quoted strings: escape decoding, the escape/unescape round trip, and the
//! line-break and end-of-input failures with their indices.

use bourne::unescape_string;
use bourne::ParseError;
use bourne::Value;

#[test]
fn named_escapes_decode() {
    let v = Value::from_str(r#""a\nb\tc\rd\fe\bf""#).unwrap();
    assert_eq!(v, Value::String(b"a\nb\tc\rd\x0ce\x08f".to_vec()));
}

#[test]
fn unicode_escape_decodes_to_utf8() {
    let v = Value::from_str(r#""\u0041\u00e9\u20ac""#).unwrap();
    assert_eq!(v, Value::String("A\u{e9}\u{20ac}".as_bytes().to_vec()));
}

#[test]
fn unknown_escapes_pass_through() {
    // deliberately permissive: \/ and \' and \q stand for themselves
    let v = Value::from_str(r#""\/\'\q""#).unwrap();
    assert_eq!(v, Value::String(b"/'q".to_vec()));
}

#[test]
fn unescape_differs_from_raw_input() {
    // decoding really decodes: the result is not the still-escaped text
    let out = unescape_string(b"\\n").unwrap();
    assert_eq!(out, b"\n".to_vec());
    assert_ne!(out, b"\\n".to_vec());
}

#[test]
fn escape_unescape_round_trip_concrete() {
    // the escaped form of `he "l\lo`<newline> decodes back exactly
    let escaped = b"he \\\"l\\\\lo\\n";
    assert_eq!(unescape_string(escaped).unwrap(), b"he \"l\\lo\n".to_vec());
    // a control byte written as \u0001 also round-trips
    assert_eq!(unescape_string(b"\\u0001").unwrap(), vec![1u8]);
}

#[test]
fn lone_surrogate_is_rejected() {
    assert_eq!(
        unescape_string(b"\\ud800"),
        Err(ParseError::InvalidEscapeSequence)
    );
    assert_eq!(
        Value::from_str(r#""\udfff""#),
        Err(ParseError::InvalidEscapeSequence)
    );
}

#[test]
fn bad_hex_digit_is_rejected() {
    assert_eq!(unescape_string(b"\\u00g1"), Err(ParseError::InvalidHex));
    assert_eq!(Value::from_str(r#""\u12x4""#), Err(ParseError::InvalidHex));
}

#[test]
fn truncated_escape_is_rejected() {
    assert_eq!(unescape_string(b"\\u12"), Err(ParseError::UnexpectedEOF));
    assert_eq!(unescape_string(b"\\"), Err(ParseError::UnexpectedEOF));
}

#[test]
fn raw_line_break_fails_at_its_index() {
    assert_eq!(
        Value::from_str("\"abc\ndef\""),
        Err(ParseError::LineBreakWhileParsingString(4))
    );
    assert_eq!(
        Value::from_str("\"x\ry\""),
        Err(ParseError::LineBreakWhileParsingString(2))
    );
}

#[test]
fn unterminated_string_fails_with_its_start() {
    assert_eq!(
        Value::from_str("\"abc"),
        Err(ParseError::UnexpectedEOFWhileParsingString(1))
    );
    assert_eq!(
        Value::from_str("  \"abc"),
        Err(ParseError::UnexpectedEOFWhileParsingString(3))
    );
}

#[test]
fn escaped_quote_does_not_close() {
    let v = Value::from_str(r#""a\"b""#).unwrap();
    assert_eq!(v, Value::String(b"a\"b".to_vec()));
}

#[test]
fn multibyte_text_passes_through() {
    let v = Value::from_str("\"h\u{e9}llo \u{4e16}\u{754c}\"").unwrap();
    assert_eq!(
        v,
        Value::String("h\u{e9}llo \u{4e16}\u{754c}".as_bytes().to_vec())
    );
}

#[test]
fn raw_tab_inside_string_is_allowed() {
    // only raw line breaks are rejected
    let v = Value::from_str("\"a\tb\"").unwrap();
    assert_eq!(v, Value::String(b"a\tb".to_vec()));
}

#[test]
fn escaped_raw_line_break_is_permitted() {
    // a backslash makes the following byte part of the string whatever it
    // is, so a backslash followed by a raw newline stands for that newline
    let v = Value::from_str("\"a\\\nb\"").unwrap();
    assert_eq!(v, Value::String(b"a\nb".to_vec()));
}

#[test]
fn escaped_carriage_return_before_line_feed_fails() {
    // the backslash absorbs the carriage return; the line feed after it is
    // a raw line break and is rejected at its own index
    assert_eq!(
        Value::from_str("\"a\\\r\nb\""),
        Err(ParseError::LineBreakWhileParsingString(4))
    );
}

#[test]
fn documented_escape_family_round_trips() {
    // one string written two ways within the documented escape set: with
    // the optional escapes left raw, and with `\/` plus a `\u` form
    let decoded = b"a/\"\\\x08\x0c\n\r\tA".to_vec();
    assert_eq!(unescape_string(b"a/\\\"\\\\\\b\\f\\n\\r\\tA").unwrap(), decoded);
    assert_eq!(
        unescape_string(b"a\\/\\\"\\\\\\b\\f\\n\\r\\t\\u0041").unwrap(),
        decoded
    );
}
