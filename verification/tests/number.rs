use json_msgpack::cursor::Cursor;
use json_msgpack::number::Number;

fn num(value: f64) -> Number {
    Number::new(value.to_bits(), value.to_string())
}

#[test]
fn whole_numbers_are_integers() {
    assert_eq!(num(0.0).to_integer(), Some(0));
    assert_eq!(num(-0.0).to_integer(), Some(0));
    assert_eq!(num(1.0).to_integer(), Some(1));
    assert_eq!(num(-1.0).to_integer(), Some(-1));
    assert_eq!(num(42.0).to_integer(), Some(42));
    assert_eq!(num(1e15).to_integer(), Some(1_000_000_000_000_000));
    assert_eq!(num(9007199254740991.0).to_integer(), Some(9007199254740991));
    assert_eq!(num(9007199254740992.0).to_integer(), Some(9007199254740992));
    assert_eq!(num(9007199254740994.0).to_integer(), Some(9007199254740994));
    assert_eq!(
        num(-9007199254740993.0).to_integer(),
        Some(-9007199254740992)
    );
    assert_eq!(num(1e18).to_integer(), Some(1_000_000_000_000_000_000));
    assert_eq!(
        num(18446744073709549568.0).to_integer(),
        Some(18446744073709549568)
    );
    assert_eq!(
        num(9223372036854775808.0).to_integer(),
        Some(9223372036854775808)
    );
    assert_eq!(
        num(-9223372036854774784.0).to_integer(),
        Some(-9223372036854774784)
    );
}

#[test]
fn whole_numbers_out_of_range_are_clamped() {
    assert_eq!(
        num(18446744073709551616.0).to_integer(),
        Some(u64::MAX as i128)
    );
    assert_eq!(num(1e300).to_integer(), Some(u64::MAX as i128));
    assert_eq!(num(f64::MAX).to_integer(), Some(u64::MAX as i128));
    assert_eq!(
        num(-9223372036854775808.0).to_integer(),
        Some(i64::MIN as i128)
    );
    assert_eq!(
        num(-9223372036854777856.0).to_integer(),
        Some(i64::MIN as i128)
    );
    assert_eq!(num(-1e300).to_integer(), Some(i64::MIN as i128));
}

#[test]
fn numbers_with_a_fraction_are_no_integers() {
    assert_eq!(num(0.5).to_integer(), None);
    assert_eq!(num(-0.5).to_integer(), None);
    assert_eq!(num(1.5).to_integer(), None);
    assert_eq!(num(42.69).to_integer(), None);
    assert_eq!(num(4503599627370495.5).to_integer(), None);
    assert_eq!(num(0.9999999999999999).to_integer(), None);
    assert_eq!(num(1.0000000000000002).to_integer(), None);
    assert_eq!(num(5e-324).to_integer(), None);
    assert_eq!(num(2.2250738585072014e-308).to_integer(), None);
    assert_eq!(num(1e-300).to_integer(), None);
}

#[test]
fn infinities_and_nan_are_no_integers() {
    assert_eq!(num(f64::INFINITY).to_integer(), None);
    assert_eq!(num(f64::NEG_INFINITY).to_integer(), None);
    assert_eq!(num(f64::NAN).to_integer(), None);
}

#[test]
fn to_integer_agrees_with_truncation() {
    let mut value = 1.0f64;
    for _ in 0..70 {
        for candidate in [value, -value, value + 1.0, value - 0.5, value * 1.5] {
            let expected = if candidate.is_finite() && candidate == candidate.trunc() {
                Some((candidate as i128).clamp(i64::MIN as i128, u64::MAX as i128))
            } else {
                None
            };
            assert_eq!(num(candidate).to_integer(), expected, "{}", candidate);
        }
        value *= 2.0;
    }
}

#[test]
fn number_keeps_its_parts() {
    let number = Number::new(0x4045_5851_eb85_1eb8, "42.69".to_string());
    assert_eq!(number.bits, 42.69f64.to_bits());
    assert_eq!(number.text, "42.69");
    assert_eq!(number.clone(), number);
}

#[test]
fn cursor_walks_its_items() {
    let items = vec![10, 20, 30];
    let mut cursor = Cursor::new(&items);
    assert_eq!(cursor.offset(), 0);
    assert_eq!(cursor.peek(), Some(&10));
    assert_eq!(cursor.offset(), 0);
    assert_eq!(cursor.next(), Some(&10));
    assert_eq!(cursor.next(), Some(&20));
    assert_eq!(cursor.offset(), 2);
    cursor.rewind(1);
    assert_eq!(cursor.peek(), Some(&20));
    assert_eq!(cursor.next(), Some(&20));
    assert_eq!(cursor.next(), Some(&30));
    assert_eq!(cursor.peek(), None);
    assert_eq!(cursor.next(), None);
    assert_eq!(cursor.offset(), 3);
}
