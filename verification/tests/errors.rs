//! One input for every error variant, with the offending byte it carries.

use json_data::{Array, Error, JsonString, Number, Object, Value};

#[test]
fn test_unexpected_eof() {
    assert_eq!(Value::from_json(b""), Err(Error::UnexpectedEof));
    assert_eq!(Value::from_json(b"[1,"), Err(Error::UnexpectedEof));
    assert_eq!(JsonString::from_json(b"\"abc"), Err(Error::UnexpectedEof));
    assert_eq!(Value::from_json(b"nul"), Err(Error::UnexpectedEof));
}

#[test]
fn test_expected_literals() {
    assert_eq!(Value::from_json(b"nulx"), Err(Error::ExpectedNull));
    assert_eq!(Value::from_json(b"trux"), Err(Error::ExpectedTrue));
    assert_eq!(Value::from_json(b"falsx"), Err(Error::ExpectedFalse));
}

#[test]
fn test_unexpected_start_of_value() {
    assert_eq!(Value::from_json(b"x"), Err(Error::UnexpectedStartOfValue(b'x')));
}

#[test]
fn test_invalid_digit() {
    assert_eq!(Value::from_json(b"-x"), Err(Error::InvalidDigit(b'x')));
    assert_eq!(Number::from_json(b"1.x"), Err(Error::InvalidDigit(b'x')));
    assert_eq!(Number::from_json(b"1ex"), Err(Error::InvalidDigit(b'x')));
}

#[test]
fn test_leading_zero_rejected() {
    // a further digit after a leading zero is a grammar error, blamed on
    // that digit
    assert_eq!(Number::from_json(b"012"), Err(Error::InvalidDigit(b'1')));
    assert_eq!(Value::from_json(b"[01]"), Err(Error::InvalidDigit(b'1')));
    assert_eq!(Number::from_json(b"-012"), Err(Error::InvalidDigit(b'1')));
}

#[test]
fn test_string_errors() {
    assert_eq!(
        Value::from_json(b"\"\x01\""),
        Err(Error::InvalidControlCharacter(0x01))
    );
    assert_eq!(
        Value::from_json(b"\"\\x\""),
        Err(Error::UnexpectedEscape(b'x'))
    );
    assert_eq!(
        Value::from_json(b"\"\\u12g4\""),
        Err(Error::InvalidHexChar(b'g'))
    );
    assert_eq!(Value::from_json(b"\"\xff\""), Err(Error::InvalidUtf8Char));
    // a truncated multi-byte sequence is malformed, not an abrupt end
    assert_eq!(Value::from_json(b"\"\xc3\""), Err(Error::InvalidUtf8Char));
    assert_eq!(
        Object::from_json(b"{1:2}"),
        Err(Error::ExpectedDoubleQuote(b'1'))
    );
}

#[test]
fn test_container_errors() {
    assert_eq!(Array::from_json(b"x"), Err(Error::ExpectedLeftBracket(b'x')));
    assert_eq!(
        Value::from_json(b"[1 2]"),
        Err(Error::ExpectedCommaOrRightBracket(b'2'))
    );
    assert_eq!(Object::from_json(b"x"), Err(Error::ExpectedLeftBrace(b'x')));
    assert_eq!(
        Value::from_json(b"{\"a\" 1}"),
        Err(Error::ExpectedColon(b'1'))
    );
    assert_eq!(
        Value::from_json(b"{\"a\":1 \"b\":2}"),
        Err(Error::ExpectedCommaOrRightBrace(b'"'))
    );
}

#[test]
fn test_infinite_float() {
    assert_eq!(Value::from_json(b"1e400"), Err(Error::InfiniteFloat));
    assert_eq!(Value::from_json(b"-1e400"), Err(Error::InfiniteFloat));
}

#[test]
fn test_specialized_entry_points_whitespace() {
    // like the general entry point, the shaped ones permit whitespace on
    // either side of the single document
    assert_eq!(Number::from_json(b" 1 "), Number::from_json(b"1"));
    assert!(Number::from_json(b" 1 ").is_ok());
    assert_eq!(Array::from_json(b" [] "), Ok(Array::new()));
    assert_eq!(
        JsonString::from_json(b" \"a\" "),
        Ok(JsonString::from_text("a"))
    );
    assert_eq!(Object::from_json(b"\t{}\n"), Ok(Object::new()));
    // anything beyond whitespace is still trailing data
    assert_eq!(Number::from_json(b"1 x"), Err(Error::TrailingData));
    assert_eq!(Array::from_json(b"[] []"), Err(Error::TrailingData));
}
