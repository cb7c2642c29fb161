use json_msgpack::cursor::Cursor;
use json_msgpack::message_pack::serialize::serialize;
use json_msgpack::number::Number;
use json_msgpack::parser::token::{numeric_literals, tokenize, ParseError, Token};
use json_msgpack::parser::{parse, JsonObject, Members, StructuralError};

fn num(value: f64) -> Number {
    Number::new(value.to_bits(), value.to_string())
}

fn read(literal: &String) -> Option<Number> {
    literal.parse::<f64>().ok().map(num)
}

fn tokens_of(input: &str) -> Result<Vec<Token>, ParseError> {
    let numbers: Vec<Option<Number>> = numeric_literals(input).iter().map(read).collect();
    tokenize(input.to_string(), &numbers)
}

fn value_of(input: &str) -> Result<JsonObject, StructuralError> {
    let tokens = tokens_of(input).unwrap();
    parse(&mut Cursor::new(&tokens))
}

fn bytes_of(input: &str) -> Vec<u8> {
    serialize(value_of(input).unwrap())
}

#[test]
fn literals_round_trip() {
    assert_eq!(value_of("null"), Ok(JsonObject::Null));
    assert_eq!(value_of("true"), Ok(JsonObject::Boolean(true)));
    assert_eq!(value_of("false"), Ok(JsonObject::Boolean(false)));
    assert_eq!(bytes_of("null"), vec![0xc0]);
    assert_eq!(bytes_of("true"), vec![0xc3]);
    assert_eq!(bytes_of("false"), vec![0xc2]);
}

#[test]
fn empty_document_is_null() {
    assert_eq!(value_of(""), Ok(JsonObject::Null));
    assert_eq!(bytes_of("  "), vec![0xc0]);
}

#[test]
fn nested_arrays_keep_their_shape() {
    assert_eq!(
        value_of("[[42.69]]"),
        Ok(JsonObject::Array(vec![JsonObject::Array(vec![
            JsonObject::Number(num(42.69))
        ])]))
    );
}

#[test]
fn nested_objects_keep_their_shape() {
    let mut inner = Members::new();
    inner.insert("bar".to_string(), JsonObject::Number(num(42.69)));
    let mut outer = Members::new();
    outer.insert("foo".to_string(), JsonObject::Object(inner));
    assert_eq!(
        value_of(r#"{"foo":{"bar":42.69}}"#),
        Ok(JsonObject::Object(outer))
    );
}

#[test]
fn stray_commas_are_tolerated() {
    assert_eq!(value_of("[,]"), Ok(JsonObject::Array(vec![])));
    assert_eq!(
        value_of("[1,,2]"),
        Ok(JsonObject::Array(vec![
            JsonObject::Number(num(1.0)),
            JsonObject::Number(num(2.0))
        ]))
    );
    assert_eq!(
        value_of("[1,2,]"),
        Ok(JsonObject::Array(vec![
            JsonObject::Number(num(1.0)),
            JsonObject::Number(num(2.0))
        ]))
    );
    assert_eq!(bytes_of("[1,,2]"), vec![0x92, 0x01, 0x02]);
    assert_eq!(bytes_of("{,}"), vec![0x80]);
}

#[test]
fn lexical_errors_are_reported() {
    assert_eq!(tokens_of("123.456.789"), Err(ParseError::InvalidNumber));
    assert_eq!(tokens_of("a"), Err(ParseError::InvalidToken));
    assert_eq!(tokens_of("tru"), Err(ParseError::UnexpectedEndOfInput));
}

#[test]
fn structural_errors_are_reported() {
    assert_eq!(value_of("{1}"), Err(StructuralError::MissingColon));
    assert_eq!(value_of("]"), Err(StructuralError::UnexpectedToken));
    assert_eq!(value_of("[1"), Err(StructuralError::UnexpectedToken));
    assert_eq!(value_of("{null:1}"), Err(StructuralError::InvalidTokenInObject));
}

#[test]
fn document_is_encoded_whole() {
    assert_eq!(
        bytes_of(r#"{"a": [1, -1, 1.5, "x", true, null], "b": {}}"#),
        vec![
            0x82, 0xa1, b'a', 0x96, 0x01, 0xff, 0xcb, 0x3f, 0xf8, 0x00, 0x00, 0x00, 0x00, 0x00,
            0x00, 0xa1, b'x', 0xc3, 0xc0, 0xa1, b'b', 0x80,
        ]
    );
}

#[test]
fn number_and_boolean_keys_are_written_as_text() {
    assert_eq!(
        bytes_of("{1: 2, true: 3, 2.50: 4}"),
        vec![
            0x83, 0xa1, b'1', 0x02, 0xa4, b't', b'r', b'u', b'e', 0x03, 0xa3, b'2', b'.', b'5',
            0x04,
        ]
    );
}

#[test]
fn duplicate_key_keeps_the_last_value() {
    assert_eq!(
        bytes_of(r#"{"a": 1, "b": 2, "a": 3}"#),
        vec![0x82, 0xa1, b'a', 0x03, 0xa1, b'b', 0x02]
    );
}

#[test]
fn integers_are_encoded_from_text() {
    assert_eq!(bytes_of("0"), vec![0x00]);
    assert_eq!(bytes_of("128"), vec![0xcc, 0x80]);
    assert_eq!(bytes_of("65536"), vec![0xce, 0x00, 0x01, 0x00, 0x00]);
    assert_eq!(bytes_of("1e2"), vec![0x64]);
    assert_eq!(bytes_of("-33"), vec![0xd0, 0xdf]);
    assert_eq!(bytes_of("2.5e1"), vec![0x19]);
    assert_eq!(
        bytes_of("18446744073709551615"),
        vec![0xcf, 0xff, 0xff, 0xff, 0xff, 0xff, 0xff, 0xff, 0xff]
    );
}
