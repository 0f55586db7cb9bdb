//! The classic JSON checker documents: three that must parse and the
//! malformed ones that must be rejected.

use bourne::Number;
use bourne::Value;

#[test]
fn parse_number_test() {
    let object = Value::from_str(
        r#"
            {
                "int": 9223372036854775807,
                "float": 3.14159265358979
            }
        "#,
    )
    .unwrap();
    assert!(matches!(
        object.get("int".as_bytes()),
        Some(Value::Number(Number::Int(i64::MAX)))
    ));
    match object.get("float".as_bytes()) {
        Some(Value::Number(Number::Float(text))) => {
            assert_eq!(text.as_slice(), b"3.14159265358979");
            let parsed: f64 = std::str::from_utf8(text).unwrap().parse().unwrap();
            assert_eq!(parsed, 3.14159265358979);
        }
        other => panic!("expected a float member, found {:?}", other),
    }
}

#[test]
fn parse_pass_1() {
    let text = r##"[
    "JSON Test Pattern pass1",
    {"object with 1 member":["array with 1 element"]},
    {},
    [],
    -42,
    true,
    false,
    null,
    {
        "integer": 1234567890,
        "real": -9876.543210,
        "e": 0.123456789e-12,
        "E": 1.234567890E+34,
        "":  23456789012E66,
        "zero": 0,
        "one": 1,
        "space": " ",
        "quote": "\"",
        "backslash": "\\",
        "controls": "\b\f\n\r\t",
        "slash": "/ & \/",
        "alpha": "abcdefghijklmnopqrstuvwyz",
        "ALPHA": "ABCDEFGHIJKLMNOPQRSTUVWYZ",
        "digit": "0123456789",
        "0123456789": "digit",
        "special": "`1~!@#$%^&*()_+-={':[,]}|;.</>?",
        "hex": "\u0123\u4567\u89AB\uCDEF\uabcd\uef4A",
        "true": true,
        "false": false,
        "null": null,
        "array":[  ],
        "object":{  },
        "address": "50 St. James Street",
        "url": "http://www.JSON.org/",
        "comment": "// /* <!-- --",
        "# -- --> */": " ",
        " s p a c e d " :[1,2 , 3

,

4 , 5        ,          6           ,7        ],"compact":[1,2,3,4,5,6,7],
        "jsontext": "{\"object with 1 member\":[\"array with 1 element\"]}",
        "quotes": "&#34; \u0022 %22 0x22 034 &#x22;",
        "\/\\\"\uCAFE\uBABE\uAB98\uFBCF\r\n\t`1~!@#$%^&*()_+-=[]{}|;:',./<>?"
: "A key can be any string"
    },
    0.5 ,98.6
,
99.44
,

1066,
1e1,
0.1e1,
1e-1,
1e00,2e+00,2e-00
,"rosebud"]"##;
    let value = Value::from_str(text).unwrap();
    assert_eq!(value.len(), 20);
}

#[test]
fn parse_pass_2() {
    let open = &"[]"[..1];
    let close = &"[]"[1..];
    let text = format!("{}{}{}", open.repeat(19), r#""Not too deep""#, close.repeat(19));
    let _ = Value::from_str(&text).unwrap();
}

#[test]
fn parse_pass_3() {
    let text = r#"{
    "JSON Test Pattern pass3": {
        "The outermost value": "must be an object or array.",
        "In this test": "It is an object."
    }
}
"#;
    let _ = Value::from_str(text).unwrap();
}

#[test]
fn test_fail_2() {
    let balanced = r#"["Unclosed array"]"#;
    let result = Value::from_str(&balanced[..balanced.len() - 1]);
    assert!(result.is_err(), "Unclosed array");
}

#[test]
fn test_fail_3() {
    let result = Value::from_str(r#"{unquoted_key: "keys must be quoted"}"#);
    assert!(result.is_err(), "keys must be quoted");
}

#[test]
fn test_fail_4() {
    let result = Value::from_str(r#"["extra comma",]"#);
    assert!(result.is_err(), "extra comma");
}

#[test]
fn test_fail_5() {
    let result = Value::from_str(r#"["double extra comma",,]"#);
    assert!(result.is_err(), "double extra comma");
}

#[test]
fn test_fail_6() {
    let result = Value::from_str(r#"[   , "<-- missing value"]"#);
    assert!(result.is_err(), "missing value before comma");
}

#[test]
fn test_fail_7() {
    let result = Value::from_str(r#"["Comma after the close"],"#);
    assert!(result.is_err(), "Comma after the close");
}

#[test]
fn test_fail_8() {
    let close = &"[]"[1..];
    let result = Value::from_str(&format!("{}{}", r#"["Extra close"]"#, close));
    assert!(result.is_err(), "Extra close");
}

#[test]
fn test_fail_9() {
    let result = Value::from_str(r#"{"Extra comma": true,}"#);
    assert!(result.is_err(), "Extra comma");
}

#[test]
fn test_fail_10() {
    let result = Value::from_str(r#"{"Extra value after close": true} "misplaced quoted value""#);
    assert!(result.is_err(), "Extra value after close");
}

#[test]
fn test_fail_11() {
    let result = Value::from_str(r#"{"Illegal expression": 1 + 2}"#);
    assert!(result.is_err(), "Illegal expression");
}

#[test]
fn test_fail_12() {
    let result = Value::from_str(r#"{"Illegal invocation": alert()}"#);
    assert!(result.is_err(), "Illegal invocation");
}

#[test]
fn test_fail_13() {
    let result = Value::from_str(r#"{"Numbers cannot have leading zeroes": 013}"#);
    assert!(result.is_err(), "Numbers cannot have leading zeroes");
}

#[test]
fn test_fail_14() {
    let result = Value::from_str(r#"{"Numbers cannot be hex": 0x14}"#);
    assert!(result.is_err(), "Numbers cannot be hex");
}

#[test]
fn test_fail_16() {
    let result = Value::from_str(r"[\naked]");
    assert!(result.is_err(), "Text without quotes");
}

#[test]
fn test_fail_19() {
    let result = Value::from_str(r#"{"Missing colon" null}"#);
    assert!(result.is_err(), "Missing colon");
}

#[test]
fn test_fail_20() {
    let result = Value::from_str(r#"{"Double colon":: null}"#);
    assert!(result.is_err(), "Double colon");
}

#[test]
fn test_fail_21() {
    let result = Value::from_str(r#"{"Comma instead of colon", null}"#);
    assert!(result.is_err(), "Comma instead of colon");
}

#[test]
fn test_fail_22() {
    let result = Value::from_str(r#"["Colon instead of comma": false]"#);
    assert!(result.is_err(), "Colon instead of comma");
}

#[test]
fn test_fail_23() {
    let result = Value::from_str(r#"["Bad value", truth]"#);
    assert!(result.is_err(), "Bad value");
}

#[test]
fn test_fail_24() {
    let result = Value::from_str(r#"['single quote']"#);
    assert!(result.is_err(), "Single quote");
}

#[test]
fn test_fail_27() {
    let result = Value::from_str("[\"line\nbreak\"]");
    assert!(result.is_err(), "Newline in string");
}

#[test]
fn test_fail_29() {
    let result = Value::from_str(r#"[0e]"#);
    assert!(result.is_err(), "Unexpected end of number");
}

#[test]
fn test_fail_30() {
    let result = Value::from_str(r#"[0e+]"#);
    assert!(result.is_err(), "Unexpected end of number");
}

#[test]
fn test_fail_31() {
    let result = Value::from_str(r#"[0e+-1]"#);
    assert!(result.is_err(), "Double signed exponent");
}

#[test]
fn test_fail_32() {
    let balanced = r#"{"Comma instead if closing brace": true,}"#;
    let result = Value::from_str(&balanced[..balanced.len() - 1]);
    assert!(result.is_err(), "Comma instead of close curly brace");
}

#[test]
fn test_fail_33() {
    let balanced = r#"["mismatch"]"#;
    let curly = &"{}"[1..];
    let result = Value::from_str(&format!("{}{}", &balanced[..balanced.len() - 1], curly));
    assert!(result.is_err(), "Mismatched close curly brace");
}
