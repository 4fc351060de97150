//! The parser on documents of each shape, and the string type's
//! conversions.

use json_data::{Array, Error, JsonString, Number, Object, Value};

#[test]
fn test_empty() {
    assert_eq!(Array::from_json(b"[]"), Ok(Array::new()));
}

#[test]
fn test_one_number() {
    assert_eq!(
        Array::from_json(b"[1.2]"),
        Ok(Array::from_values(vec![Value::Number(
            Number::from_decimal(b"1.2").unwrap()
        )]))
    );
}

#[test]
fn test_mixed() {
    assert_eq!(
        Array::from_json(br#"[null, false, true, 1.2, "a,b", [""]]"#),
        Ok(Array::from_values(vec![
            Value::Null,
            Value::Bool(false),
            Value::Bool(true),
            Value::Number(Number::from_decimal(b"1.2").unwrap()),
            Value::String(JsonString::from_text("a,b")),
            Value::Array(Array::from_values(vec![Value::String(
                JsonString::from_text("")
            )])),
        ]))
    );
}

#[test]
fn test_parse_int() {
    let n = Number::from_json(b"123").unwrap();
    assert_eq!(
        String::from_utf8(n.to_json()).unwrap(),
        serde_json::to_string(&123.0f64).unwrap()
    );
    assert_eq!(Number::from_json(b"123"), Number::from_decimal(b"123"));
}

#[test]
fn test_parse_fractional() {
    let n = Number::from_json(b"1.23").unwrap();
    assert_eq!(
        String::from_utf8(n.to_json()).unwrap(),
        serde_json::to_string(&1.23f64).unwrap()
    );
}

#[test]
fn test_parse_full() {
    let n = Number::from_json(b"0.12e50").unwrap();
    assert_eq!(
        String::from_utf8(n.to_json()).unwrap(),
        serde_json::to_string(&0.12e50f64).unwrap()
    );
}

#[test]
fn test_parse_inf() {
    assert_eq!(Number::from_json(b"1e400"), Err(Error::InfiniteFloat));
}

#[test]
fn test_parse_obj_with_whitespace() {
    let o = Object::from_json(br#"{ "a" : "b" , "c" : "d" }"#).unwrap();
    assert_eq!(o.len(), 2);
    assert_eq!(
        o.get(&JsonString::from_text("a")),
        Some(&Value::String(JsonString::from_text("b")))
    );
    assert_eq!(
        o.get(&JsonString::from_text("c")),
        Some(&Value::String(JsonString::from_text("d")))
    );
}

#[test]
fn test_object() {
    let mut obj = Object::new();
    obj.insert(JsonString::from_text("abc"), Value::Null);
    assert_eq!(obj.get(&JsonString::from_text("abc")), Some(&Value::Null));
}

#[test]
fn test_unicode() {
    assert_eq!(
        JsonString::from_json(r#""鑅""#.as_bytes())
            .unwrap()
            .as_str()
            .unwrap(),
        "鑅".to_string()
    );
}

#[test]
fn test_unicode_2() {
    assert_eq!(
        JsonString::from_json(r#""鑅""#.as_bytes()).unwrap().to_string(),
        r#""鑅""#.to_string()
    );
}

#[test]
fn test_lone_surrogate() {
    assert_eq!(
        JsonString::from_json(br#""\ud800""#)
            .unwrap()
            .to_ill_formed_utf16(),
        vec![0xd800]
    );
    assert_eq!(
        JsonString::from_json(br#""\ud800""#).unwrap().to_string(),
        r#""\ud800""#.to_string()
    );
}

#[test]
fn test_number_canonical_text() {
    // an integer literal canonicalizes to the double's decimal text
    let n = Number::from_json(b"123").unwrap();
    assert_eq!(n.to_json(), b"123.0".to_vec());
    let m = Number::from_json(b"1.50").unwrap();
    assert_eq!(m.to_json(), b"1.5".to_vec());
    assert_eq!(n.to_string(), "123.0".to_string());
}

#[test]
fn test_negative_zero_distinct() {
    let pz = Number::from_json(b"0").unwrap();
    let nz = Number::from_json(b"-0").unwrap();
    assert_ne!(pz, nz);
    assert_eq!(pz.to_json(), b"0.0".to_vec());
    assert_eq!(nz.to_json(), b"-0.0".to_vec());
}

#[test]
fn test_string_conversions() {
    let js = JsonString::from_text("é");
    assert_eq!(js.to_ill_formed_utf16(), vec![0xe9]);
    let lone = JsonString::from_ill_formed_utf16(&[0x41, 0xd800]);
    assert!(lone.as_str().is_none());
    assert_eq!(lone.into_string_lossy(), "A\u{fffd}".to_string());
    let lone2 = JsonString::from_ill_formed_utf16(&[0x41, 0xd800]);
    let back = lone2.into_string().unwrap_err();
    assert_eq!(back.to_ill_formed_utf16(), vec![0x41, 0xd800]);
    let ok = JsonString::from_ill_formed_utf16(&[0xd83d, 0xde00]);
    assert_eq!(ok.into_string().unwrap(), "😀".to_string());
}

#[test]
fn test_object_insert_remove() {
    let mut o = Object::new();
    assert!(o.is_empty());
    assert_eq!(o.insert(JsonString::from_text("b"), Value::Bool(true)), None);
    assert_eq!(o.insert(JsonString::from_text("a"), Value::Null), None);
    assert_eq!(
        o.insert(JsonString::from_text("b"), Value::Bool(false)),
        Some(Value::Bool(true))
    );
    assert_eq!(o.len(), 2);
    // members are kept in ascending key order
    let inner = o.as_inner();
    assert_eq!(inner[0].0, JsonString::from_text("a"));
    assert_eq!(inner[1].0, JsonString::from_text("b"));
    assert!(o.contains_key(&JsonString::from_text("a")));
    assert_eq!(
        o.remove(&JsonString::from_text("a")),
        Some(Value::Null)
    );
    assert_eq!(o.remove(&JsonString::from_text("a")), None);
    assert_eq!(o.len(), 1);
    let mut o2 = o;
    o2.clear();
    assert!(o2.is_empty());
}
