//! Round trips, whitespace insensitivity, duplicate keys, escapes, and
//! grammar rejections on concrete documents.

use json_data::{Array, Error, JsonString, Number, Object, Value};

fn nested_value() -> Value {
    let mut obj = Object::new();
    obj.insert(
        JsonString::from_text("b"),
        Value::Array(Array::from_values(vec![
            Value::Null,
            Value::Bool(true),
            Value::Number(Number::from_decimal(b"-1.5e3").unwrap()),
        ])),
    );
    obj.insert(
        JsonString::from_text("a"),
        Value::String(JsonString::from_ill_formed_utf16(&[
            0x41, 0xd800, 0x22, 0x5c, 0x0a, 0xdc00, 0xd83d, 0xde00,
        ])),
    );
    obj.insert(JsonString::from_text(""), Value::Object(Object::new()));
    Value::Object(obj)
}

#[test]
fn test_round_trip_nested() {
    let v = nested_value();
    let text = v.to_json();
    assert_eq!(Value::from_json(&text), Ok(nested_value()));
}

#[test]
fn test_round_trip_empty_containers() {
    let v = Value::Array(Array::from_values(vec![
        Value::Array(Array::new()),
        Value::Object(Object::new()),
    ]));
    let text = v.to_json();
    assert_eq!(text, b"[[],{}]".to_vec());
    let v2 = Value::from_json(&text).unwrap();
    assert_eq!(v2.to_json(), text);
}

#[test]
fn test_serialize_idempotent() {
    let v = nested_value();
    let once = v.to_json();
    let again = Value::from_json(&once).unwrap().to_json();
    assert_eq!(once, again);
}

#[test]
fn test_whitespace_insensitive() {
    assert_eq!(
        Value::from_json(b"  {\"a\":1}  "),
        Value::from_json(b"{\"a\":1}")
    );
    assert_eq!(
        Value::from_json(b" [ 1 , \t\r\n true ] "),
        Value::from_json(b"[1,true]")
    );
}

#[test]
fn test_trailing_data() {
    assert_eq!(Value::from_json(b"1 2"), Err(Error::TrailingData));
}

#[test]
fn test_duplicate_keys_last_wins() {
    let v = Value::from_json(b"{\"a\":1,\"a\":2}").unwrap();
    match &v {
        Value::Object(o) => {
            assert_eq!(o.len(), 1);
            assert_eq!(
                o.get(&JsonString::from_text("a")),
                Some(&Value::Number(Number::from_decimal(b"2").unwrap()))
            );
        }
        _ => panic!("an object was parsed"),
    }
}

#[test]
fn test_escape_correctness() {
    assert_eq!(
        Value::from_json(b"\"\\u0041\""),
        Ok(Value::String(JsonString::from_text("A")))
    );
    let lone = Value::from_json(b"\"\\ud800\"").unwrap();
    assert_eq!(lone.to_json(), b"\"\\ud800\"".to_vec());
    // the parser accepts an escaped solidus, but the serializer emits the
    // scalar literally
    let slash = Value::from_json(b"\"\\/\"").unwrap();
    assert_eq!(slash, Value::String(JsonString::from_text("/")));
    assert_eq!(slash.to_json(), b"\"/\"".to_vec());
}

#[test]
fn test_all_escapes_round_trip() {
    let units: Vec<u16> = vec![
        0x22, 0x5c, 0x2f, 0x08, 0x0c, 0x0a, 0x0d, 0x09, 0x00, 0x19, 0xd7ff, 0xd800, 0xdbff,
        0xdc00, 0xdfff, 0xe000, 0xffff,
    ];
    let v = Value::String(JsonString::from_ill_formed_utf16(&units));
    let text = v.to_json();
    match Value::from_json(&text).unwrap() {
        Value::String(s) => assert_eq!(s.to_ill_formed_utf16(), units),
        _ => panic!("a string was parsed"),
    }
}

#[test]
fn test_grammar_rejection() {
    assert_eq!(
        Value::from_json(b"[1,]"),
        Err(Error::UnexpectedStartOfValue(b']'))
    );
    assert_eq!(
        Value::from_json(b"{\"a\":1,}"),
        Err(Error::ExpectedDoubleQuote(b'}'))
    );
}

#[test]
fn test_empty_containers() {
    assert_eq!(Value::from_json(b"[]"), Ok(Value::Array(Array::new())));
    assert_eq!(Value::from_json(b"{}"), Ok(Value::Object(Object::new())));
}

#[test]
fn test_number_round_trip_via_text() {
    for lit in [
        &b"0"[..],
        b"-0",
        b"123",
        b"-1.5",
        b"0.12e50",
        b"1e-10",
        b"1.7976931348623157e308",
    ] {
        let v = Value::from_json(lit).unwrap();
        let text = v.to_json();
        let v2 = Value::from_json(&text).unwrap();
        assert_eq!(v, v2, "round trip of {:?}", String::from_utf8_lossy(lit));
    }
}
