//! Containers and accessors: empty and malformed arrays and objects,
//! trailing input, auto-vivifying mutators, lookups, lengths, and the
//! byte-cursor itself.

use bourne::ArrayExt;
use bourne::Number;
use bourne::ObjectExt;
use bourne::ParseError;
use bourne::Parser;
use bourne::Value;
use bourne::ValueMap;

#[test]
fn empty_containers_parse_to_zero_length() {
    let a = Value::from_str("[]").unwrap();
    assert_eq!(a.len(), 0);
    assert!(matches!(a, Value::Array(_)));
    let o = Value::from_str("{}").unwrap();
    assert_eq!(o.len(), 0);
    assert!(matches!(o, Value::Object(_)));
}

#[test]
fn stray_commas_fail() {
    assert_eq!(
        Value::from_str("[,]"),
        Err(ParseError::UnexpectedCommaInArrayOrObject(1))
    );
    assert!(Value::from_str("[1,]").is_err());
    assert_eq!(
        Value::from_str("{,}"),
        Err(ParseError::UnexpectedCommaInArrayOrObject(1))
    );
    assert!(Value::from_str(r#"{"a":1,}"#).is_err());
}

#[test]
fn trailing_garbage_fails_trailing_whitespace_succeeds() {
    assert_eq!(
        Value::from_str("null garbage"),
        Err(ParseError::InvalidCharacter(5))
    );
    assert_eq!(Value::from_str("null   "), Ok(Value::Null));
    assert_eq!(Value::from_str("  true\t\r\n"), Ok(Value::Boolean(true)));
}

#[test]
fn keywords_parse() {
    assert_eq!(Value::from_str("null"), Ok(Value::Null));
    assert_eq!(Value::from_str("true"), Ok(Value::Boolean(true)));
    assert_eq!(Value::from_str("false"), Ok(Value::Boolean(false)));
    assert!(Value::from_str("nul").is_err());
    assert!(Value::from_str("truth").is_err());
}

#[test]
fn empty_input_is_unexpected_eof() {
    assert_eq!(Value::from_str(""), Err(ParseError::UnexpectedEOF));
    assert_eq!(Value::from_str("   "), Err(ParseError::UnexpectedEOF));
}

#[test]
fn nested_structure_navigates() {
    let v = Value::from_str(r#"{"items": [1, {"name": "deep"}], "flag": false}"#).unwrap();
    let items = v.get("items".as_bytes()).unwrap();
    assert_eq!(items.len(), 2);
    let inner = items.get(1usize).unwrap();
    assert_eq!(
        inner.get("name".as_bytes()),
        Some(&Value::String(b"deep".to_vec()))
    );
    assert_eq!(v.get("flag".as_bytes()), Some(&Value::Boolean(false)));
    assert_eq!(v.get("absent".as_bytes()), None);
    assert_eq!(v.get(0usize), None);
    assert_eq!(items.get(2usize), None);
}

#[test]
fn duplicate_keys_overwrite_in_place() {
    let v = Value::from_str(r#"{"a": 1, "b": 2, "a": 3}"#).unwrap();
    assert_eq!(v.len(), 2);
    assert_eq!(
        v.get("a".as_bytes()),
        Some(&Value::Number(Number::Int(3)))
    );
    match v {
        Value::Object(map) => {
            // the overwritten key keeps its original (first) position
            assert_eq!(map.entries[0].0, b"a".to_vec());
            assert_eq!(map.entries[1].0, b"b".to_vec());
        }
        other => panic!("expected an object, found {:?}", other),
    }
}

#[test]
fn push_auto_vivifies_null() {
    let mut v = Value::Null;
    v.push(Value::Number(Number::Int(1)));
    v.push(Value::Boolean(true));
    assert_eq!(v.len(), 2);
    assert_eq!(v.get(0usize), Some(&Value::Number(Number::Int(1))));
    assert_eq!(v.get(1usize), Some(&Value::Boolean(true)));
}

#[test]
fn insert_auto_vivifies_null() {
    let mut v = Value::Null;
    let prev = v.insert(b"k".to_vec(), Value::Boolean(false));
    assert_eq!(prev, None);
    let prev2 = v.insert("k".as_bytes(), Value::Null);
    assert_eq!(prev2, Some(Value::Boolean(false)));
    assert_eq!(v.len(), 1);
    assert_eq!(v.get("k".as_bytes()), Some(&Value::Null));
}

#[test]
fn map_insert_reports_previous_value() {
    let mut m = ValueMap::new();
    assert_eq!(m.insert(b"x".to_vec(), Value::Null), None);
    assert_eq!(
        m.insert(b"x".to_vec(), Value::Boolean(true)),
        Some(Value::Null)
    );
    assert_eq!(m.len(), 1);
    assert!(!m.is_empty());
    assert_eq!(m.get(b"x"), Some(&Value::Boolean(true)));
    assert_eq!(m.get(b"y"), None);
}

#[test]
fn extension_traits_build_containers() {
    let mut arr: Vec<Value> = Vec::new();
    arr.push_value(Value::Null);
    arr.push_value(Value::Number(Number::Int(9)));
    assert_eq!(arr.len(), 2);
    let mut map = ValueMap::new();
    assert_eq!(map.insert_value(b"a".to_vec(), Value::Null), None);
    assert_eq!(
        map.insert_value(b"a".to_vec(), Value::Boolean(true)),
        Some(Value::Null)
    );
}

#[test]
fn len_of_each_variant() {
    assert_eq!(Value::Null.len(), 0);
    assert_eq!(Value::Boolean(true).len(), 0);
    assert_eq!(Value::Number(Number::Int(5)).len(), 0);
    assert_eq!(Value::String(b"abc".to_vec()).len(), 3);
    assert_eq!(Value::from_str("[1,2,3]").unwrap().len(), 3);
    assert_eq!(Value::from_str(r#"{"a":1}"#).unwrap().len(), 1);
}

#[test]
fn cursor_operations() {
    let mut p = Parser::new(b"ab cd");
    assert!(!p.is_eof());
    assert_eq!(p.peek(), Some(b'a'));
    assert_eq!(p.next(), Some(b'a'));
    assert_eq!(p.indexed_next(), Some((1usize, b'b')));
    p.eat_whitespace();
    assert_eq!(p.index, 3);
    assert!(p.matches(b"cd"));
    assert!(!p.matches(b"cde"));
    p.advance(2);
    assert!(p.is_eof());
    assert_eq!(p.peek(), None);
    assert_eq!(p.next(), None);
    p.rewind();
    assert_eq!(p.index, 4);
    assert_eq!(p.peek(), Some(b'd'));
}

#[test]
fn rewind_at_start_stays_put() {
    let mut p = Parser::new(b"x");
    p.rewind();
    assert_eq!(p.index, 0);
}

#[test]
fn keyword_parsers_report_position() {
    let mut p = Parser::new(b"nulx");
    assert_eq!(p.parse_null(), Err(ParseError::InvalidCharacter(0)));
    let mut q = Parser::new(b"false");
    assert_eq!(q.parse_boolean(), Ok(false));
    assert_eq!(q.index, 5);
}

#[test]
fn unclosed_containers_fail() {
    let obj = r#"{"a":1}"#;
    assert_eq!(Value::from_str(&"[]"[..1]), Err(ParseError::UnexpectedEOF));
    assert_eq!(Value::from_str(&obj[..1]), Err(ParseError::UnexpectedEOF));
    assert_eq!(Value::from_str(&obj[..4]), Err(ParseError::UnexpectedEOF));
    assert_eq!(Value::from_str(&obj[..5]), Err(ParseError::UnexpectedEOF));
    assert_eq!(Value::from_str(&"[1,2]"[..3]), Err(ParseError::UnexpectedEOF));
}

#[test]
fn whitespace_forms_are_accepted() {
    let v = Value::from_str(" \t\r\n\u{c} [ 1 , 2 ] \t").unwrap();
    assert_eq!(v.len(), 2);
}

#[test]
fn bytes_entry_point_matches_text_entry_point() {
    let a = Value::parse_bytes(b"[true]").unwrap();
    let b = Value::from_str("[true]").unwrap();
    assert_eq!(a, b);
}

#[test]
fn get_mut_writes_in_place() {
    let mut v = Value::from_str(r#"{"a": [1, 2]}"#).unwrap();
    {
        let slot = v.get_mut("a".as_bytes()).unwrap();
        let elem = slot.get_mut(1usize).unwrap();
        *elem = Value::Boolean(true);
    }
    let items = v.get("a".as_bytes()).unwrap();
    assert_eq!(items.get(0usize), Some(&Value::Number(Number::Int(1))));
    assert_eq!(items.get(1usize), Some(&Value::Boolean(true)));
    assert!(v.get_mut("zz".as_bytes()).is_none());
    assert!(v.get_mut(0usize).is_none());
}

#[test]
fn get_or_insert_vivifies_and_inserts() {
    let mut v = Value::Null;
    *v.get_or_insert("a".as_bytes()) = Value::Number(Number::Int(1));
    assert_eq!(v.get("a".as_bytes()), Some(&Value::Number(Number::Int(1))));
    *v.get_or_insert("a".as_bytes()) = Value::Number(Number::Int(2));
    assert_eq!(v.len(), 1);
    assert_eq!(v.get("a".as_bytes()), Some(&Value::Number(Number::Int(2))));

    let mut arr = Value::from_str("[10]").unwrap();
    *arr.get_or_insert(0usize) = Value::Number(Number::Int(11));
    assert_eq!(arr.get(0usize), Some(&Value::Number(Number::Int(11))));
}

#[test]
fn owned_keys_index_like_borrowed_keys() {
    let mut v = Value::from_str(r#"{"k": 7}"#).unwrap();
    assert_eq!(v.get(b"k".to_vec()), Some(&Value::Number(Number::Int(7))));
    *v.get_or_insert(b"m".to_vec()) = Value::Boolean(true);
    assert_eq!(v.get("m".as_bytes()), Some(&Value::Boolean(true)));
    assert_eq!(v.len(), 2);
}

#[test]
fn deeply_nested_arrays_parse() {
    // no depth guard exists: recursion is bounded only by the call stack
    let open = &"[]"[..1];
    let close = &"[]"[1..];
    let text = format!("{}0{}", open.repeat(100), close.repeat(100));
    let mut v = Value::from_str(&text).unwrap();
    for _ in 0..100 {
        v = match v {
            Value::Array(mut a) => {
                assert_eq!(a.len(), 1);
                a.pop().unwrap()
            }
            other => panic!("expected an array, found {:?}", other),
        };
    }
    assert_eq!(v, Value::Number(Number::Int(0)));
}

#[test]
fn matches_accepts_the_empty_literal() {
    let p = Parser::new(b"xy");
    assert!(p.matches(b""));
    let q = Parser::new(b"");
    assert!(q.matches(b""));
}

#[test]
fn string_len_counts_characters() {
    assert_eq!(Value::String("h\u{e9}llo".as_bytes().to_vec()).len(), 5);
    assert_eq!(Value::String("\u{20ac}".as_bytes().to_vec()).len(), 1);
    let v = Value::from_str("\"a\u{e9}\u{4e16}\"").unwrap();
    assert_eq!(v.len(), 3);
}

#[test]
fn positional_get_or_insert_vivifies_and_extends() {
    let mut v = Value::Null;
    *v.get_or_insert(2usize) = Value::Boolean(true);
    assert_eq!(v.len(), 3);
    assert_eq!(v.get(0usize), Some(&Value::Null));
    assert_eq!(v.get(1usize), Some(&Value::Null));
    assert_eq!(v.get(2usize), Some(&Value::Boolean(true)));
    let mut w = Value::from_str("[1]").unwrap();
    *w.get_or_insert(1usize) = Value::Number(Number::Int(2));
    assert_eq!(w.len(), 2);
    assert_eq!(w.get(0usize), Some(&Value::Number(Number::Int(1))));
    assert_eq!(w.get(1usize), Some(&Value::Number(Number::Int(2))));
}

#[test]
fn clone_is_deep_and_equal() {
    let v = Value::from_str(r#"{"a": [1, "x"], "b": 2.5}"#).unwrap();
    let w = v.clone();
    assert_eq!(v, w);
    // the copy owns its own subtree: mutating it leaves the original alone
    let mut w2 = v.clone();
    *w2.get_or_insert("a".as_bytes()) = Value::Null;
    assert_ne!(v, w2);
    assert_eq!(v.get("a".as_bytes()).unwrap().len(), 2);
}

#[test]
fn conversions_build_values() {
    assert_eq!(Value::from(true), Value::Boolean(true));
    assert_eq!(Value::from(5i64), Value::Number(Number::Int(5)));
    assert_eq!(Value::from(b"hi".to_vec()), Value::String(b"hi".to_vec()));
    assert_eq!(Value::from(vec![Value::Null]).len(), 1);
    assert_eq!(Value::from(ValueMap::new()).len(), 0);
    let parsed: Value = "[true]".parse().unwrap();
    assert_eq!(parsed, Value::from_str("[true]").unwrap());
}

#[test]
fn parse_error_leaves_cursor_at_the_rejection() {
    // a string rejected on its first byte leaves the cursor unmoved
    let mut p = Parser::new(b"x");
    assert_eq!(p.parse_string(), Err(ParseError::InvalidCharacter(0)));
    assert_eq!(p.index, 0);
    // a container rejected on its first byte consumes exactly that byte
    let mut q = Parser::new(b"x");
    assert_eq!(q.parse_array(), Err(ParseError::InvalidCharacter(0)));
    assert_eq!(q.index, 1);
    let mut r = Parser::new(b"x");
    assert_eq!(r.parse_object(), Err(ParseError::InvalidCharacter(0)));
    assert_eq!(r.index, 1);
}
