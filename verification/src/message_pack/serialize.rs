//! Encoding of values in the MessagePack binary format.
//!
//! Each value is written in the shortest representation that the format
//! offers for it. The `*_encoding` functions say which bytes those are; the
//! executable functions are proved to write exactly them.

use vstd::prelude::*;
use vstd::arithmetic::power::pow;
use vstd::utf8::encode_utf8;
use crate::number::{clamp_to_64_bits, integer_value, Number};
use crate::parser::{JsonModel, JsonObject};

verus! {

/// The greatest length and the greatest count that the format can record.
pub const MAX_LENGTH: usize = 0xffff_ffff;

/// The `width` low-order bytes of `value`, most significant first.
pub open spec fn be_bytes(value: nat, width: nat) -> Seq<u8>
    decreases width,
{
    if width == 0 {
        Seq::empty()
    } else {
        be_bytes(value / 256, (width - 1) as nat).push((value % 256) as u8)
    }
}

/// The number that `bytes` spell in base 256, most significant first.
pub open spec fn be_value(bytes: Seq<u8>) -> nat
    decreases bytes.len(),
{
    if bytes.len() == 0 {
        0
    } else {
        be_value(bytes.drop_last()) * 256 + bytes.last() as nat
    }
}

/// Big-endian bytes lose nothing: `width` bytes are written, and a value
/// below 256^`width` is read back from them exactly.
pub proof fn lemma_be_bytes_round_trip(value: nat, width: nat)
    ensures
        be_bytes(value, width).len() == width,
        value < pow(256, width) ==> be_value(be_bytes(value, width)) == value,
    decreases width,
{
    reveal(pow);
    if width > 0 {
        let rest = be_bytes(value / 256, (width - 1) as nat);
        lemma_be_bytes_round_trip(value / 256, (width - 1) as nat);
        assert(be_bytes(value, width).drop_last() =~= rest);
        if value < pow(256, width) {
            assert(value / 256 < pow(256, (width - 1) as nat)) by (nonlinear_arith)
                requires
                    value < 256 * pow(256, (width - 1) as nat),
            ;
        }
    }
}

/// The encoding of a non-negative integer: a positive fixint up to 127, then
/// the narrowest of uint8, uint16, uint32 and uint64 that holds it.
pub open spec fn uint_encoding(value: nat) -> Seq<u8>
    recommends
        value <= u64::MAX,
{
    if value <= 0x7f {
        seq![value as u8]
    } else if value <= 0xff {
        seq![0xccu8] + be_bytes(value, 1)
    } else if value <= 0xffff {
        seq![0xcdu8] + be_bytes(value, 2)
    } else if value <= 0xffff_ffff {
        seq![0xceu8] + be_bytes(value, 4)
    } else {
        seq![0xcfu8] + be_bytes(value, 8)
    }
}

/// The encoding of a negative integer: a negative fixint down to -32, then
/// the narrowest of int8, int16, int32 and int64 that holds it, in two's
/// complement.
pub open spec fn int_encoding(value: int) -> Seq<u8>
    recommends
        i64::MIN <= value < 0,
{
    if value >= -0x20 {
        seq![(value + 0x100) as u8]
    } else if value >= -0x80 {
        seq![0xd0u8] + be_bytes((value + 0x100) as nat, 1)
    } else if value >= -0x8000 {
        seq![0xd1u8] + be_bytes((value + 0x1_0000) as nat, 2)
    } else if value >= -0x8000_0000 {
        seq![0xd2u8] + be_bytes((value + 0x1_0000_0000) as nat, 4)
    } else {
        seq![0xd3u8] + be_bytes((value + 0x1_0000_0000_0000_0000) as nat, 8)
    }
}

/// Appends the `width` low-order bytes of `value`, most significant first.
fn push_be_bytes(out: &mut Vec<u8>, value: u64, width: u8)
    ensures
        final(out)@ == old(out)@ + be_bytes(value as nat, width as nat),
    decreases width,
{
    if width > 0 {
        push_be_bytes(out, value / 256, width - 1);
        out.push((value % 256) as u8);
    }
}

/// Encodes a non-negative integer.
pub fn serialize_uint(val: u64) -> (bytes: Vec<u8>)
    ensures
        bytes@ == uint_encoding(val as nat),
{
    let mut bytes: Vec<u8> = Vec::new();
    write_uint(&mut bytes, val);
    bytes
}

/// Encodes a negative integer.
pub fn serialize_int(val: i64) -> (bytes: Vec<u8>)
    requires
        val < 0,
    ensures
        bytes@ == int_encoding(val as int),
{
    let mut bytes: Vec<u8> = Vec::new();
    write_int(&mut bytes, val);
    bytes
}

fn write_uint(bytes: &mut Vec<u8>, val: u64)
    ensures
        final(bytes)@ == old(bytes)@ + uint_encoding(val as nat),
{
    if val <= 0x7f {
        bytes.push(val as u8);
    } else if val <= 0xff {
        bytes.push(0xcc);
        push_be_bytes(bytes, val, 1);
    } else if val <= 0xffff {
        bytes.push(0xcd);
        push_be_bytes(bytes, val, 2);
    } else if val <= 0xffff_ffff {
        bytes.push(0xce);
        push_be_bytes(bytes, val, 4);
    } else {
        bytes.push(0xcf);
        push_be_bytes(bytes, val, 8);
    }
    assert(bytes@ =~= old(bytes)@ + uint_encoding(val as nat));
}

fn write_int(bytes: &mut Vec<u8>, val: i64)
    requires
        val < 0,
    ensures
        final(bytes)@ == old(bytes)@ + int_encoding(val as int),
{
    let wide: i128 = val as i128;
    if val >= -0x20 {
        bytes.push((wide + 0x100) as u8);
    } else if val >= -0x80 {
        bytes.push(0xd0);
        push_be_bytes(bytes, (wide + 0x100) as u64, 1);
    } else if val >= -0x8000 {
        bytes.push(0xd1);
        push_be_bytes(bytes, (wide + 0x1_0000) as u64, 2);
    } else if val >= -0x8000_0000 {
        bytes.push(0xd2);
        push_be_bytes(bytes, (wide + 0x1_0000_0000) as u64, 4);
    } else {
        bytes.push(0xd3);
        push_be_bytes(bytes, (wide + 0x1_0000_0000_0000_0000) as u64, 8);
    }
    assert(bytes@ =~= old(bytes)@ + int_encoding(val as int));
}

/// The encoding of a number: as an integer where it is a whole number, and
/// as a float64, the tag `0xcb` and the eight bytes of the bit pattern,
/// where it is not. A whole number beyond the 64-bit range is written as the
/// nearest integer in the range.
pub open spec fn number_encoding(bits: u64) -> Seq<u8> {
    match integer_value(bits) {
        Some(value) => if value >= 0 {
            uint_encoding(clamp_to_64_bits(value) as nat)
        } else {
            int_encoding(clamp_to_64_bits(value))
        },
        None => seq![0xcbu8] + be_bytes(bits as nat, 8),
    }
}

/// The header of a string of `length` bytes: fixstr up to 31, then the
/// narrowest of str8, str16 and str32.
pub open spec fn string_header(length: nat) -> Seq<u8>
    recommends
        length <= MAX_LENGTH,
{
    if length <= 31 {
        seq![(0xa0 + length) as u8]
    } else if length <= 0xff {
        seq![0xd9u8] + be_bytes(length, 1)
    } else if length <= 0xffff {
        seq![0xdau8] + be_bytes(length, 2)
    } else {
        seq![0xdbu8] + be_bytes(length, 4)
    }
}

/// The header of an array of `count` items: fixarray up to 15, then array16
/// or array32.
pub open spec fn array_header(count: nat) -> Seq<u8>
    recommends
        count <= MAX_LENGTH,
{
    if count <= 15 {
        seq![(0x90 + count) as u8]
    } else if count <= 0xffff {
        seq![0xdcu8] + be_bytes(count, 2)
    } else {
        seq![0xddu8] + be_bytes(count, 4)
    }
}

/// The header of a map of `count` members: fixmap up to 15, then map16 or
/// map32.
pub open spec fn map_header(count: nat) -> Seq<u8>
    recommends
        count <= MAX_LENGTH,
{
    if count <= 15 {
        seq![(0x80 + count) as u8]
    } else if count <= 0xffff {
        seq![0xdeu8] + be_bytes(count, 2)
    } else {
        seq![0xdfu8] + be_bytes(count, 4)
    }
}

/// The encoding of a string: the header for the length of its UTF-8 form,
/// then that form.
pub open spec fn string_encoding(text: Seq<char>) -> Seq<u8> {
    string_header(encode_utf8(text).len()) + encode_utf8(text)
}

/// The encoding of a value.
///
/// Null is `0xc0`, false `0xc2` and true `0xc3`. An array is its header and
/// then its items in order. An object is a map: its header and then, for each
/// member in order, the key as a string and the value.
pub open spec fn encoding(value: JsonModel) -> Seq<u8>
    decreases value,
{
    match value {
        JsonModel::Null => seq![0xc0u8],
        JsonModel::Boolean(b) => if b {
            seq![0xc3u8]
        } else {
            seq![0xc2u8]
        },
        JsonModel::Number(number) => number_encoding(number.bits),
        JsonModel::String(text) => string_encoding(text),
        JsonModel::Array(items) => array_header(items.len()) + items_encoding(items),
        JsonModel::Object(members) => map_header(members.len()) + members_encoding(members),
    }
}

/// The encodings of `items`, one after the other.
pub open spec fn items_encoding(items: Seq<JsonModel>) -> Seq<u8>
    decreases items,
{
    if items.len() == 0 {
        Seq::empty()
    } else {
        items_encoding(items.drop_last()) + encoding(items.last())
    }
}

/// The encodings of `members`, one after the other, each as its key and
/// then its value.
pub open spec fn members_encoding(members: Seq<(Seq<char>, JsonModel)>) -> Seq<u8>
    decreases members,
{
    if members.len() == 0 {
        Seq::empty()
    } else {
        members_encoding(members.drop_last()) + string_encoding(members.last().0) + encoding(
            members.last().1,
        )
    }
}

/// The format has room for the value: no string in it, key or value, is
/// longer in UTF-8 than `MAX_LENGTH` bytes, and no array or object in it has
/// more than `MAX_LENGTH` items or members.
pub open spec fn encodable(value: JsonModel) -> bool
    decreases value,
{
    match value {
        JsonModel::String(text) => encode_utf8(text).len() <= MAX_LENGTH,
        JsonModel::Array(items) => {
            &&& items.len() <= MAX_LENGTH
            &&& forall|i: int| 0 <= i < items.len() ==> encodable(#[trigger] items[i])
        },
        JsonModel::Object(members) => {
            &&& members.len() <= MAX_LENGTH
            &&& forall|i: int|
                0 <= i < members.len() ==> {
                    &&& encode_utf8((#[trigger] members[i]).0).len() <= MAX_LENGTH
                    &&& encodable(members[i].1)
                }
        },
        _ => true,
    }
}

fn write_number(bytes: &mut Vec<u8>, number: &Number)
    ensures
        final(bytes)@ == old(bytes)@ + number_encoding(number.bits),
{
    match number.to_integer() {
        Some(value) => {
            if value >= 0 {
                write_uint(bytes, value as u64);
            } else {
                write_int(bytes, value as i64);
            }
        },
        None => {
            bytes.push(0xcb);
            push_be_bytes(bytes, number.bits, 8);
            assert(bytes@ =~= old(bytes)@ + number_encoding(number.bits));
        },
    }
}

fn write_string(bytes: &mut Vec<u8>, text: &str)
    requires
        encode_utf8(text@).len() <= MAX_LENGTH,
    ensures
        final(bytes)@ == old(bytes)@ + string_encoding(text@),
{
    let utf8 = text.as_bytes();
    let length = utf8.len();
    if length <= 31 {
        bytes.push(0xa0 + length as u8);
    } else if length <= 0xff {
        bytes.push(0xd9);
        push_be_bytes(bytes, length as u64, 1);
    } else if length <= 0xffff {
        bytes.push(0xda);
        push_be_bytes(bytes, length as u64, 2);
    } else {
        bytes.push(0xdb);
        push_be_bytes(bytes, length as u64, 4);
    }
    assert(bytes@ =~= old(bytes)@ + string_header(length as nat));
    let mut i: usize = 0;
    while i < length
        invariant
            i <= length,
            length == utf8@.len(),
            bytes@ == old(bytes)@ + string_header(length as nat) + utf8@.take(i as int),
        decreases length - i,
    {
        bytes.push(utf8[i]);
        i += 1;
        assert(bytes@ =~= old(bytes)@ + string_header(length as nat) + utf8@.take(i as int));
    }
    assert(utf8@.take(length as int) =~= utf8@);
    assert(bytes@ =~= old(bytes)@ + string_encoding(text@));
}

fn write_value(bytes: &mut Vec<u8>, value: &JsonObject)
    requires
        encodable(value@),
    ensures
        final(bytes)@ == old(bytes)@ + encoding(value@),
    decreases value,
{
    match value {
        JsonObject::Null => {
            bytes.push(0xc0);
        },
        JsonObject::Boolean(b) => {
            if *b {
                bytes.push(0xc3);
            } else {
                bytes.push(0xc2);
            }
        },
        JsonObject::Number(number) => {
            write_number(bytes, number);
        },
        JsonObject::String(text) => {
            write_string(bytes, text.as_str());
        },
        JsonObject::Array(items) => {
            let count = items.len();
            if count <= 15 {
                bytes.push(0x90 + count as u8);
            } else if count <= 0xffff {
                bytes.push(0xdc);
                push_be_bytes(bytes, count as u64, 2);
            } else {
                bytes.push(0xdd);
                push_be_bytes(bytes, count as u64, 4);
            }
            let ghost models = value@->Array_0;
            assert(bytes@ =~= old(bytes)@ + array_header(count as nat));
            let mut i: usize = 0;
            while i < count
                invariant
                    i <= count,
                    count == items@.len(),
                    value == JsonObject::Array(*items),
                    models == value@->Array_0,
                    encodable(value@),
                    bytes@ == old(bytes)@ + array_header(count as nat) + items_encoding(
                        models.take(i as int),
                    ),
                decreases count - i,
            {
                assert(models[i as int] == items@[i as int]@);
                write_value(bytes, &items[i]);
                i += 1;
                proof {
                    assert(models.take(i as int).drop_last() =~= models.take(i - 1));
                    assert(bytes@ =~= old(bytes)@ + array_header(count as nat) + items_encoding(
                        models.take(i as int),
                    ));
                }
            }
            assert(models.take(count as int) =~= models);
            assert(bytes@ =~= old(bytes)@ + encoding(value@));
        },
        JsonObject::Object(members) => {
            let count = members.len();
            if count <= 15 {
                bytes.push(0x80 + count as u8);
            } else if count <= 0xffff {
                bytes.push(0xde);
                push_be_bytes(bytes, count as u64, 2);
            } else {
                bytes.push(0xdf);
                push_be_bytes(bytes, count as u64, 4);
            }
            let ghost models = members@;
            assert(bytes@ =~= old(bytes)@ + map_header(count as nat));
            let mut i: usize = 0;
            while i < count
                invariant
                    i <= count,
                    count == members@.len(),
                    value == JsonObject::Object(*members),
                    models == members@,
                    encodable(value@),
                    bytes@ == old(bytes)@ + map_header(count as nat) + members_encoding(
                        models.take(i as int),
                    ),
                decreases count - i,
            {
                let member = members.member(i);
                write_string(bytes, member.key.as_str());
                write_value(bytes, &member.value);
                i += 1;
                proof {
                    assert(models.take(i as int).drop_last() =~= models.take(i - 1));
                    assert(bytes@ =~= old(bytes)@ + map_header(count as nat) + members_encoding(
                        models.take(i as int),
                    ));
                }
            }
            assert(models.take(count as int) =~= models);
            assert(bytes@ =~= old(bytes)@ + encoding(value@));
        },
    }
}

/// Whether the format has room for the value.
pub fn can_serialize(object: &JsonObject) -> (fits: bool)
    ensures
        fits == encodable(object@),
    decreases object,
{
    match object {
        JsonObject::String(text) => text.as_str().as_bytes().len() <= MAX_LENGTH,
        JsonObject::Array(items) => {
            if items.len() > MAX_LENGTH {
                return false;
            }
            let ghost models = object@->Array_0;
            let mut i: usize = 0;
            while i < items.len()
                invariant
                    i <= items@.len(),
                    object == JsonObject::Array(*items),
                    models == object@->Array_0,
                    forall|j: int| 0 <= j < i ==> encodable(#[trigger] models[j]),
                decreases items@.len() - i,
            {
                assert(models[i as int] == items@[i as int]@);
                if !can_serialize(&items[i]) {
                    return false;
                }
                i += 1;
            }
            true
        },
        JsonObject::Object(members) => {
            if members.len() > MAX_LENGTH {
                return false;
            }
            let mut i: usize = 0;
            while i < members.len()
                invariant
                    i <= members@.len(),
                    object == JsonObject::Object(*members),
                    decreases_to!(object => members),
                    forall|j: int|
                        0 <= j < i ==> {
                            &&& encode_utf8((#[trigger] members@[j]).0).len() <= MAX_LENGTH
                            &&& encodable(members@[j].1)
                        },
                decreases members@.len() - i,
            {
                let member = members.member(i);
                if member.key.as_str().as_bytes().len() > MAX_LENGTH {
                    return false;
                }
                let fits = can_serialize(&member.value);
                if !fits {
                    return false;
                }
                i += 1;
            }
            true
        },
        _ => true,
    }
}

/// The encoding is a function of the tree alone: two values that stand for
/// the same tree, members in the same order, are written as the same bytes.
pub proof fn lemma_encoding_deterministic(first: JsonObject, second: JsonObject)
    requires
        first@ == second@,
    ensures
        encoding(first@) == encoding(second@),
{
}

/// Encodes a value in the MessagePack format.
///
/// The value must fit the format, see [`encodable`]; [`can_serialize`] tests
/// that. The encoder descends once for each level of nesting.
pub fn serialize(object: JsonObject) -> (bytes: Vec<u8>)
    requires
        encodable(object@),
    ensures
        bytes@ == encoding(object@),
{
    let mut bytes: Vec<u8> = Vec::new();
    write_value(&mut bytes, &object);
    bytes
}

} // verus!
