use json_msgpack::message_pack::serialize::{
    can_serialize, serialize, serialize_int, serialize_uint,
};
use json_msgpack::number::Number;
use json_msgpack::parser::{JsonObject, Members};

fn num(value: f64) -> Number {
    Number::new(value.to_bits(), value.to_string())
}

fn number(value: f64) -> JsonObject {
    JsonObject::Number(num(value))
}

fn text(value: &str) -> JsonObject {
    JsonObject::String(value.to_string())
}

#[test]
fn test_serialize_null() {
    assert_eq!(serialize(JsonObject::Null), vec![0xc0]);
}

#[test]
fn test_serialize_false() {
    assert_eq!(serialize(JsonObject::Boolean(false)), vec![0xc2]);
}

#[test]
fn test_serialize_true() {
    assert_eq!(serialize(JsonObject::Boolean(true)), vec![0xc3]);
}

#[test]
fn test_serialize_uint() {
    assert_eq!(serialize(number(127.0)), vec![0x7f]);
    assert_eq!(serialize(number(255.0)), vec![0xcc, 0xff]);
    assert_eq!(serialize(number(65535.0)), vec![0xcd, 0xff, 0xff]);
    assert_eq!(
        serialize(number(4294967295.0)),
        vec![0xce, 0xff, 0xff, 0xff, 0xff]
    );
    assert_eq!(
        serialize(number(u64::MAX as f64)),
        vec![0xcf, 0xff, 0xff, 0xff, 0xff, 0xff, 0xff, 0xff, 0xff]
    );
}

#[test]
fn unsigned_integers_take_the_narrowest_form() {
    assert_eq!(serialize(number(0.0)), vec![0x00]);
    assert_eq!(serialize(number(127.0)), vec![0x7f]);
    assert_eq!(serialize(number(128.0)), vec![0xcc, 0x80]);
    assert_eq!(serialize(number(255.0)), vec![0xcc, 0xff]);
    assert_eq!(serialize(number(256.0)), vec![0xcd, 0x01, 0x00]);
    assert_eq!(serialize(number(65535.0)), vec![0xcd, 0xff, 0xff]);
    assert_eq!(
        serialize(number(65536.0)),
        vec![0xce, 0x00, 0x01, 0x00, 0x00]
    );
    assert_eq!(
        serialize(number(4294967295.0)),
        vec![0xce, 0xff, 0xff, 0xff, 0xff]
    );
    assert_eq!(
        serialize(number(4294967296.0)),
        vec![0xcf, 0x00, 0x00, 0x00, 0x01, 0x00, 0x00, 0x00, 0x00]
    );
}

#[test]
fn negative_integers_take_the_narrowest_form() {
    assert_eq!(serialize(number(-1.0)), vec![0xff]);
    assert_eq!(serialize(number(-32.0)), vec![0xe0]);
    assert_eq!(serialize(number(-33.0)), vec![0xd0, 0xdf]);
    assert_eq!(serialize(number(-128.0)), vec![0xd0, 0x80]);
    assert_eq!(serialize(number(-129.0)), vec![0xd1, 0xff, 0x7f]);
    assert_eq!(serialize(number(-32768.0)), vec![0xd1, 0x80, 0x00]);
    assert_eq!(
        serialize(number(-32769.0)),
        vec![0xd2, 0xff, 0xff, 0x7f, 0xff]
    );
    assert_eq!(
        serialize(number(-2147483648.0)),
        vec![0xd2, 0x80, 0x00, 0x00, 0x00]
    );
    assert_eq!(
        serialize(number(-2147483649.0)),
        vec![0xd3, 0xff, 0xff, 0xff, 0xff, 0x7f, 0xff, 0xff, 0xff]
    );
    assert_eq!(
        serialize(number(i64::MIN as f64)),
        vec![0xd3, 0x80, 0x00, 0x00, 0x00, 0x00, 0x00, 0x00, 0x00]
    );
}

#[test]
fn serialize_uint_writes_big_endian() {
    assert_eq!(serialize_uint(0), vec![0x00]);
    assert_eq!(serialize_uint(0x1234), vec![0xcd, 0x12, 0x34]);
    assert_eq!(serialize_uint(0x1234_5678), vec![0xce, 0x12, 0x34, 0x56, 0x78]);
    assert_eq!(
        serialize_uint(0x0102_0304_0506_0708),
        vec![0xcf, 0x01, 0x02, 0x03, 0x04, 0x05, 0x06, 0x07, 0x08]
    );
    assert_eq!(
        serialize_uint(u64::MAX),
        vec![0xcf, 0xff, 0xff, 0xff, 0xff, 0xff, 0xff, 0xff, 0xff]
    );
}

#[test]
fn serialize_int_writes_twos_complement() {
    assert_eq!(serialize_int(-1), vec![0xff]);
    assert_eq!(serialize_int(-32), vec![0xe0]);
    assert_eq!(serialize_int(-33), vec![0xd0, 0xdf]);
    assert_eq!(serialize_int(-129), vec![0xd1, 0xff, 0x7f]);
    assert_eq!(serialize_int(-65536), vec![0xd2, 0xff, 0xff, 0x00, 0x00]);
    assert_eq!(
        serialize_int(i64::MIN),
        vec![0xd3, 0x80, 0x00, 0x00, 0x00, 0x00, 0x00, 0x00, 0x00]
    );
    assert_eq!(
        serialize_int(-4294967297),
        (-4294967297i64)
            .to_be_bytes()
            .iter()
            .fold(vec![0xd3u8], |mut bytes, byte| {
                bytes.push(*byte);
                bytes
            })
    );
}

#[test]
fn whole_numbers_beyond_64_bits_are_clamped() {
    assert_eq!(
        serialize(number(1e300)),
        vec![0xcf, 0xff, 0xff, 0xff, 0xff, 0xff, 0xff, 0xff, 0xff]
    );
    assert_eq!(
        serialize(number(-1e300)),
        vec![0xd3, 0x80, 0x00, 0x00, 0x00, 0x00, 0x00, 0x00, 0x00]
    );
    assert_eq!(
        serialize(number(9223372036854775808.0)),
        vec![0xcf, 0x80, 0x00, 0x00, 0x00, 0x00, 0x00, 0x00, 0x00]
    );
}

#[test]
fn negative_zero_is_the_integer_zero() {
    assert_eq!(serialize(number(-0.0)), vec![0x00]);
}

#[test]
fn fractions_are_written_as_float64() {
    let mut expected = vec![0xcb];
    expected.extend_from_slice(&42.69f64.to_be_bytes());
    assert_eq!(serialize(number(42.69)), expected);
    assert_eq!(
        serialize(number(0.5)),
        vec![0xcb, 0x3f, 0xe0, 0x00, 0x00, 0x00, 0x00, 0x00, 0x00]
    );
    assert_eq!(
        serialize(number(-1.5)),
        vec![0xcb, 0xbf, 0xf8, 0x00, 0x00, 0x00, 0x00, 0x00, 0x00]
    );
    let mut tiny = vec![0xcb];
    tiny.extend_from_slice(&5e-324f64.to_be_bytes());
    assert_eq!(serialize(number(5e-324)), tiny);
}

#[test]
fn infinities_and_nan_are_written_as_float64() {
    assert_eq!(
        serialize(number(f64::INFINITY)),
        vec![0xcb, 0x7f, 0xf0, 0x00, 0x00, 0x00, 0x00, 0x00, 0x00]
    );
    assert_eq!(
        serialize(number(f64::NEG_INFINITY)),
        vec![0xcb, 0xff, 0xf0, 0x00, 0x00, 0x00, 0x00, 0x00, 0x00]
    );
    let mut nan = vec![0xcb];
    nan.extend_from_slice(&f64::NAN.to_be_bytes());
    assert_eq!(serialize(number(f64::NAN)), nan);
}

#[test]
fn strings_take_the_narrowest_header() {
    assert_eq!(serialize(text("")), vec![0xa0]);
    assert_eq!(serialize(text("foo")), vec![0xa3, b'f', b'o', b'o']);

    let mut expected = vec![0xbf];
    expected.extend_from_slice(&[b'a'; 31]);
    assert_eq!(serialize(text(&"a".repeat(31))), expected);

    let mut expected = vec![0xd9, 32];
    expected.extend_from_slice(&[b'a'; 32]);
    assert_eq!(serialize(text(&"a".repeat(32))), expected);

    let mut expected = vec![0xd9, 0xff];
    expected.extend_from_slice(&[b'a'; 255]);
    assert_eq!(serialize(text(&"a".repeat(255))), expected);

    let mut expected = vec![0xda, 0x01, 0x00];
    expected.extend_from_slice(&[b'a'; 256]);
    assert_eq!(serialize(text(&"a".repeat(256))), expected);

    let mut expected = vec![0xda, 0xff, 0xff];
    expected.extend_from_slice(&vec![b'a'; 65535]);
    assert_eq!(serialize(text(&"a".repeat(65535))), expected);

    let mut expected = vec![0xdb, 0x00, 0x01, 0x00, 0x00];
    expected.extend_from_slice(&vec![b'a'; 65536]);
    assert_eq!(serialize(text(&"a".repeat(65536))), expected);
}

#[test]
fn string_length_counts_utf8_bytes() {
    assert_eq!(
        serialize(text("h\u{e9}")),
        vec![0xa3, b'h', 0xc3, 0xa9]
    );
    assert_eq!(
        serialize(text("\u{20ac}\u{1f600}")),
        vec![0xa7, 0xe2, 0x82, 0xac, 0xf0, 0x9f, 0x98, 0x80]
    );
    let sixteen = "\u{e9}".repeat(16);
    let mut expected = vec![0xd9, 32];
    expected.extend_from_slice(sixteen.as_bytes());
    assert_eq!(serialize(text(&sixteen)), expected);
}

#[test]
fn arrays_take_the_narrowest_header() {
    assert_eq!(serialize(JsonObject::Array(vec![])), vec![0x90]);
    assert_eq!(
        serialize(JsonObject::Array(vec![
            number(1.0),
            JsonObject::Null,
            text("a")
        ])),
        vec![0x93, 0x01, 0xc0, 0xa1, b'a']
    );

    let fifteen: Vec<JsonObject> = (0..15).map(|_| JsonObject::Null).collect();
    let mut expected = vec![0x9f];
    expected.extend_from_slice(&[0xc0; 15]);
    assert_eq!(serialize(JsonObject::Array(fifteen)), expected);

    let sixteen: Vec<JsonObject> = (0..16).map(|_| JsonObject::Null).collect();
    let mut expected = vec![0xdc, 0x00, 0x10];
    expected.extend_from_slice(&[0xc0; 16]);
    assert_eq!(serialize(JsonObject::Array(sixteen)), expected);

    let many: Vec<JsonObject> = (0..65535).map(|_| JsonObject::Null).collect();
    let mut expected = vec![0xdc, 0xff, 0xff];
    expected.extend_from_slice(&vec![0xc0; 65535]);
    assert_eq!(serialize(JsonObject::Array(many)), expected);

    let more: Vec<JsonObject> = (0..65536).map(|_| JsonObject::Null).collect();
    let mut expected = vec![0xdd, 0x00, 0x01, 0x00, 0x00];
    expected.extend_from_slice(&vec![0xc0; 65536]);
    assert_eq!(serialize(JsonObject::Array(more)), expected);
}

#[test]
fn nested_arrays_are_written_in_order() {
    let value = JsonObject::Array(vec![
        JsonObject::Array(vec![number(1.0), number(2.0)]),
        JsonObject::Array(vec![]),
        JsonObject::Boolean(true),
    ]);
    assert_eq!(serialize(value), vec![0x93, 0x92, 0x01, 0x02, 0x90, 0xc3]);
}

#[test]
fn objects_are_written_as_maps_in_insertion_order() {
    assert_eq!(serialize(JsonObject::Object(Members::new())), vec![0x80]);

    let mut members = Members::new();
    members.insert("b".to_string(), number(1.0));
    members.insert("a".to_string(), JsonObject::Null);
    assert_eq!(
        serialize(JsonObject::Object(members)),
        vec![0x82, 0xa1, b'b', 0x01, 0xa1, b'a', 0xc0]
    );

    let mut inner = Members::new();
    inner.insert("bar".to_string(), JsonObject::Boolean(false));
    let mut outer = Members::new();
    outer.insert("foo".to_string(), JsonObject::Object(inner));
    assert_eq!(
        serialize(JsonObject::Object(outer)),
        vec![0x81, 0xa3, b'f', b'o', b'o', 0x81, 0xa3, b'b', b'a', b'r', 0xc2]
    );
}

#[test]
fn maps_take_the_narrowest_header() {
    let mut fifteen = Members::new();
    for i in 0..15 {
        fifteen.insert(format!("{:02}", i), JsonObject::Null);
    }
    let bytes = serialize(JsonObject::Object(fifteen));
    assert_eq!(bytes[0], 0x8f);
    assert_eq!(bytes.len(), 1 + 15 * 4);

    let mut sixteen = Members::new();
    for i in 0..16 {
        sixteen.insert(format!("{:02}", i), JsonObject::Null);
    }
    let bytes = serialize(JsonObject::Object(sixteen));
    assert_eq!(&bytes[..3], &[0xde, 0x00, 0x10]);
    assert_eq!(&bytes[3..7], &[0xa2, b'0', b'0', 0xc0]);
    assert_eq!(bytes.len(), 3 + 16 * 4);
}

#[test]
fn equal_trees_have_equal_encodings() {
    let build = || {
        let mut members = Members::new();
        members.insert("x".to_string(), number(1.5));
        members.insert("y".to_string(), JsonObject::Array(vec![text("z"), number(-7.0)]));
        JsonObject::Object(members)
    };
    assert_eq!(serialize(build()), serialize(build()));
}

#[test]
fn ordinary_values_fit_the_format() {
    assert!(can_serialize(&JsonObject::Null));
    assert!(can_serialize(&text("hello")));
    let mut members = Members::new();
    members.insert("k".to_string(), JsonObject::Array(vec![number(1.0), text("v")]));
    assert!(can_serialize(&JsonObject::Object(members)));
}
