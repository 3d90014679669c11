//! The decode engine.
//!
//! The decoder walks a byte slice from the front, popping one tag and its
//! payload per value, and never backtracks.  String and byte payloads are
//! borrowed straight from the input wherever a caller can take a slice;
//! the tree built by [`from_bytes`] copies them into owned values.  Every
//! function's contract equates its outcome with the mathematical decoder
//! in [`crate::grammar`], on success and on failure alike.

use vstd::prelude::*;

use crate::bigendian::{be_val, lemma_be_val_bound, pow256, read_be};
use crate::error::{Error, NoWriterError};
use crate::grammar::{
    char_width, dec_entries, dec_list, dec_unsized_entries, dec_unsized_list, dec_value,
    dec_whole, num_of, num_width,
};
use crate::tag::{spec_tag_byte, spec_tag_of_byte, Expected, Tag, TagParsingError};
use crate::text::{char_from_u32, find_marker, find_marker_from, scalar_at, validate_utf8_range};
use vstd::utf8::valid_utf8;
use crate::value::{view_list, view_entries, view_value, SpecValue, Value, ValueEntry};

verus! {

/// Reads one value of any shape starting at `pos`, mirroring the
/// mathematical decoder byte for byte.
#[verifier::rlimit(100)]
pub fn decode_value_at<'de>(input: &'de [u8], pos: usize) -> (r: Result<
    (Value, usize),
    Error<NoWriterError>,
>)
    requires
        pos <= input@.len(),
    ensures
        match r {
            Ok((v, newpos)) => {
                &&& pos < newpos <= input@.len()
                &&& dec_value(input@.skip(pos as int)) == Ok::<(SpecValue, int), Error<
                    NoWriterError,
                >>((v@, newpos - pos))
            },
            Err(e) => dec_value(input@.skip(pos as int)) == Err::<(SpecValue, int), Error<
                NoWriterError,
            >>(e),
        },
    decreases input@.len() - pos, 0int,
{
    let ghost s = input@.skip(pos as int);
    let len = input.len();
    if pos >= len {
        return Err(Error::Eof);
    }
    let b = input[pos];
    proof {
        assert(s[0] == b);
    }
    let tag = match Tag::from_byte(b) {
        Ok(t) => t,
        Err(te) => {
            return Err(Error::TagParsingError(te));
        },
    };
    match tag {
        Tag::OptionNone => {
            let v = Value::OptionNone;
            proof {
                assert(v@ == SpecValue::OptionNone);
            }
            Ok((v, pos + 1))
        },
        Tag::OptionSome => {
            match decode_value_at(input, pos + 1) {
                Ok((inner, newpos)) => {
                    let v = Value::OptionSome(Box::new(inner));
                    proof {
                        assert(s.skip(1) =~= input@.skip(pos as int + 1));
                        assert(v@ == SpecValue::OptionSome(Box::new(view_value(inner))));
                    }
                    Ok((v, newpos))
                },
                Err(e) => {
                    proof {
                        assert(s.skip(1) =~= input@.skip(pos as int + 1));
                    }
                    Err(e)
                },
            }
        },
        Tag::BoolFalse => Ok((Value::Bool(false), pos + 1)),
        Tag::BoolTrue => Ok((Value::Bool(true), pos + 1)),
        Tag::I8 | Tag::I16 | Tag::I32 | Tag::I64 | Tag::U8 | Tag::U16 | Tag::U32 | Tag::U64
            | Tag::F32 | Tag::F64 | Tag::I128 | Tag::U128 => {
            match decode_number_at(input, pos, tag) {
                Ok((v, newpos)) => Ok((v, newpos)),
                Err(e) => Err(e),
            }
        },
        Tag::Char1 | Tag::Char2 | Tag::Char3 | Tag::Char4 => {
            match decode_char_at(input, pos, tag) {
                Ok((v, newpos)) => Ok((v, newpos)),
                Err(e) => Err(e),
            }
        },
        Tag::Str => {
            match decode_str_at(input, pos) {
                Ok((v, newpos)) => Ok((v, newpos)),
                Err(e) => Err(e),
            }
        },
        Tag::NullTerminatedString => {
            match decode_unsized_str_at(input, pos) {
                Ok((v, newpos)) => Ok((v, newpos)),
                Err(e) => Err(e),
            }
        },
        Tag::ByteArray => {
            match decode_bytes_at(input, pos) {
                Ok((v, newpos)) => Ok((v, newpos)),
                Err(e) => Err(e),
            }
        },
        Tag::Unit => Ok((Value::Unit, pos + 1)),
        Tag::UnitStruct => Ok((Value::UnitStruct, pos + 1)),
        Tag::UnitVariant => {
            if len - pos < 5 {
                return Err(Error::Eof);
            }
            let idx = read_be(input, pos + 1, 4) as u32;
            proof {
                let payload = s.subrange(1, 5);
                assert(payload =~= input@.subrange(pos as int + 1, pos as int + 5));
                lemma_be_val_bound(payload);
                assert(pow256(4) == 0x100000000) by {
                    reveal_with_fuel(pow256, 5);
                }
            }
            Ok((Value::UnitVariant(idx), pos + 5))
        },
        Tag::NewTypeStruct => {
            match decode_value_at(input, pos + 1) {
                Ok((inner, newpos)) => {
                    let v = Value::NewtypeStruct(Box::new(inner));
                    proof {
                        assert(s.skip(1) =~= input@.skip(pos as int + 1));
                        assert(v@ == SpecValue::NewtypeStruct(Box::new(view_value(inner))));
                    }
                    Ok((v, newpos))
                },
                Err(e) => {
                    proof {
                        assert(s.skip(1) =~= input@.skip(pos as int + 1));
                    }
                    Err(e)
                },
            }
        },
        Tag::NewTypeVariant => {
            if len - pos < 5 {
                return Err(Error::Eof);
            }
            let idx = read_be(input, pos + 1, 4) as u32;
            proof {
                let payload = s.subrange(1, 5);
                assert(payload =~= input@.subrange(pos as int + 1, pos as int + 5));
                lemma_be_val_bound(payload);
                assert(pow256(4) == 0x100000000) by {
                    reveal_with_fuel(pow256, 5);
                }
                assert(s.skip(5) =~= input@.skip(pos as int + 5));
            }
            match decode_value_at(input, pos + 5) {
                Ok((inner, newpos)) => {
                    let v = Value::NewtypeVariant(idx, Box::new(inner));
                    proof {
                        assert(v@ == SpecValue::NewtypeVariant(
                            idx,
                            Box::new(view_value(inner)),
                        ));
                    }
                    Ok((v, newpos))
                },
                Err(e) => Err(e),
            }
        },
        Tag::SizedSeq => {
            if len - pos < 9 {
                return Err(Error::Eof);
            }
            let count_wide = read_be(input, pos + 1, 8);
            proof {
                assert(s.subrange(1, 9) =~= input@.subrange(pos as int + 1, pos as int + 9));
            }
            if count_wide > usize::MAX as u128 {
                return Err(Error::InvalidSize);
            }
            let count = count_wide as usize;
            proof {
                assert(s.skip(9) =~= input@.skip(pos as int + 9));
            }
            match decode_list_at(input, pos + 9, count) {
                Ok((items, newpos)) => {
                    let v = Value::Array(items);
                    proof {
                        assert(v@ == SpecValue::Array(view_list(items@)));
                    }
                    Ok((v, newpos))
                },
                Err(e) => Err(e),
            }
        },
        Tag::UnsizedSeq => {
            proof {
                assert(s.skip(1) =~= input@.skip(pos as int + 1));
            }
            match decode_unsized_list_at(input, pos + 1) {
                Ok((items, newpos)) => {
                    let v = Value::UnsizedArray(items);
                    proof {
                        assert(v@ == SpecValue::UnsizedArray(view_list(items@)));
                    }
                    Ok((v, newpos))
                },
                Err(e) => Err(e),
            }
        },
        Tag::UnsizedSeqEnd => Err(
            Error::TagParsingError(
                TagParsingError::UnexpectedTag {
                    expected: Expected::AnyButSeqEnd,
                    got: Tag::UnsizedSeqEnd,
                },
            ),
        ),
        Tag::Tuple | Tag::TupleStruct | Tag::Struct => {
            if len - pos < 2 {
                return Err(Error::Eof);
            }
            let count = input[pos + 1];
            proof {
                assert(s[1] == count);
                assert(s.skip(2) =~= input@.skip(pos as int + 2));
            }
            match decode_list_at(input, pos + 2, count as usize) {
                Ok((items, newpos)) => {
                    let v = match tag {
                        Tag::Tuple => Value::Tuple(items),
                        Tag::TupleStruct => Value::TupleStruct(items),
                        _ => Value::Struct(items),
                    };
                    Ok((v, newpos))
                },
                Err(e) => Err(e),
            }
        },
        Tag::TupleVariant => Err(Error::Unimplemented),
        Tag::StructVariant => Err(Error::Unimplemented),
        Tag::SizedMap => {
            if len - pos < 9 {
                return Err(Error::Eof);
            }
            let count_wide = read_be(input, pos + 1, 8);
            proof {
                assert(s.subrange(1, 9) =~= input@.subrange(pos as int + 1, pos as int + 9));
            }
            if count_wide > usize::MAX as u128 {
                return Err(Error::InvalidSize);
            }
            let count = count_wide as usize;
            proof {
                assert(s.skip(9) =~= input@.skip(pos as int + 9));
            }
            match decode_entries_at(input, pos + 9, count) {
                Ok((items, newpos)) => {
                    let v = Value::Mapping(items);
                    proof {
                        assert(v@ == SpecValue::Mapping(view_entries(items@)));
                    }
                    Ok((v, newpos))
                },
                Err(e) => Err(e),
            }
        },
        Tag::UnsizedMap => {
            proof {
                assert(s.skip(1) =~= input@.skip(pos as int + 1));
            }
            match decode_unsized_entries_at(input, pos + 1) {
                Ok((items, newpos)) => {
                    let v = Value::UnsizedMapping(items);
                    proof {
                        assert(v@ == SpecValue::UnsizedMapping(view_entries(items@)));
                    }
                    Ok((v, newpos))
                },
                Err(e) => Err(e),
            }
        },
    }
}

/// Reads a number under the given numeric tag.
fn decode_number_at<'de>(input: &'de [u8], pos: usize, tag: Tag) -> (r: Result<
    (Value, usize),
    Error<NoWriterError>,
>)
    requires
        pos < input@.len(),
        spec_tag_of_byte(input@[pos as int]) == Some(tag),
        num_width(tag) >= 1,
    ensures
        match r {
            Ok((v, newpos)) => {
                &&& pos < newpos <= input@.len()
                &&& dec_value(input@.skip(pos as int)) == Ok::<(SpecValue, int), Error<
                    NoWriterError,
                >>((v@, newpos - pos))
            },
            Err(e) => dec_value(input@.skip(pos as int)) == Err::<(SpecValue, int), Error<
                NoWriterError,
            >>(e),
        },
{
    let ghost s = input@.skip(pos as int);
    let len = input.len();
    let w: usize = match tag {
        Tag::I8 | Tag::U8 => 1,
        Tag::I16 | Tag::U16 => 2,
        Tag::I32 | Tag::U32 | Tag::F32 => 4,
        Tag::I64 | Tag::U64 | Tag::F64 => 8,
        _ => 16,
    };
    proof {
        assert(s[0] == input@[pos as int]);
        assert(w == num_width(tag));
    }
    if len - pos < 1 + w {
        return Err(Error::Eof);
    }
    let wide = read_be(input, pos + 1, w);
    let ghost payload = s.subrange(1, 1 + w as int);
    proof {
        assert(payload =~= input@.subrange(pos as int + 1, pos as int + 1 + w as int));
        lemma_be_val_bound(payload);
        assert(pow256(16) == 0x100000000000000000000000000000000 && pow256(8)
            == 0x10000000000000000 && pow256(4) == 0x100000000 && pow256(2) == 0x10000 && pow256(
            1,
        ) == 0x100) by {
            reveal_with_fuel(pow256, 17);
        }
    }
    let num = match tag {
        Tag::I8 => crate::value::Number::I8((wide as u8) as i8),
        Tag::I16 => crate::value::Number::I16((wide as u16) as i16),
        Tag::I32 => crate::value::Number::I32((wide as u32) as i32),
        Tag::I64 => crate::value::Number::I64((wide as u64) as i64),
        Tag::U8 => crate::value::Number::U8(wide as u8),
        Tag::U16 => crate::value::Number::U16(wide as u16),
        Tag::U32 => crate::value::Number::U32(wide as u32),
        Tag::U64 => crate::value::Number::U64(wide as u64),
        Tag::F32 => crate::value::Number::F32Bits(wide as u32),
        Tag::F64 => crate::value::Number::F64Bits(wide as u64),
        Tag::I128 => crate::value::Number::I128(wide as i128),
        _ => crate::value::Number::U128(wide),
    };
    proof {
        assert(num == num_of(tag, be_val(payload)));
    }
    Ok((Value::Number(num), pos + 1 + w))
}

/// Reads a character under the given width tag.
fn decode_char_at<'de>(input: &'de [u8], pos: usize, tag: Tag) -> (r: Result<
    (Value, usize),
    Error<NoWriterError>,
>)
    requires
        pos < input@.len(),
        spec_tag_of_byte(input@[pos as int]) == Some(tag),
        tag == Tag::Char1 || tag == Tag::Char2 || tag == Tag::Char3 || tag == Tag::Char4,
    ensures
        match r {
            Ok((v, newpos)) => {
                &&& pos < newpos <= input@.len()
                &&& dec_value(input@.skip(pos as int)) == Ok::<(SpecValue, int), Error<
                    NoWriterError,
                >>((v@, newpos - pos))
            },
            Err(e) => dec_value(input@.skip(pos as int)) == Err::<(SpecValue, int), Error<
                NoWriterError,
            >>(e),
        },
{
    let ghost s = input@.skip(pos as int);
    let len = input.len();
    let w: usize = match tag {
        Tag::Char1 => 1,
        Tag::Char2 => 2,
        Tag::Char3 => 3,
        _ => 4,
    };
    proof {
        assert(s[0] == input@[pos as int]);
        assert(w == char_width(tag));
    }
    if len - pos < 1 + w {
        return Err(Error::Eof);
    }
    let ghost payload = s.subrange(1, 1 + w as int);
    proof {
        assert(payload =~= input@.subrange(pos as int + 1, pos as int + 1 + w as int));
    }
    match scalar_at(input, pos + 1, pos + 1 + w) {
        Some((code, k)) => {
            if k != w {
                return Err(Error::InvalidStr);
            }
            proof {
                lemma_scalar_is_scalar(payload, code as u32);
            }
            match char_from_u32(code) {
                Some(c) => {
                    proof {
                        vstd::utf8::char_u32_cast(
                            c,
                            vstd::utf8::decode_first_scalar(payload),
                        );
                    }
                    Ok((Value::Char(c), pos + 1 + w))
                },
                None => {
                    // unreachable: the checks above established a scalar
                    Err(Error::InvalidChar(code))
                },
            }
        },
        None => Err(Error::InvalidStr),
    }
}

/// A well-formed first scalar's code point is a Unicode scalar value.
proof fn lemma_scalar_is_scalar(payload: Seq<u8>, code: u32)
    requires
        vstd::utf8::valid_first_scalar(payload),
        code == vstd::utf8::decode_first_scalar(payload),
    ensures
        vstd::utf8::is_scalar(code),
{
    let b0 = payload[0];
    if vstd::utf8::is_leading_byte_width_1(b0) {
        assert(b0 & 0x7F <= 0x7F) by (bit_vector);
    } else if vstd::utf8::is_leading_byte_width_2(b0) {
        let b1 = payload[1];
        assert((((b0 & 0x1F) as u32) << 6) | ((b1 & 0x3F) as u32) <= 0x7FF) by (bit_vector);
    } else if vstd::utf8::is_leading_byte_width_3(b0) {
        let b1 = payload[1];
        let b2 = payload[2];
        assert((((b0 & 0x0F) as u32) << 12) | (((b1 & 0x3F) as u32) << 6) | ((b2
            & 0x3F) as u32) <= 0xFFFF) by (bit_vector);
    } else {
    }
}

/// Reads a length-prefixed string, validating its UTF-8 payload.
fn decode_str_at<'de>(input: &'de [u8], pos: usize) -> (r: Result<
    (Value, usize),
    Error<NoWriterError>,
>)
    requires
        pos < input@.len(),
        spec_tag_of_byte(input@[pos as int]) == Some(Tag::Str),
    ensures
        match r {
            Ok((v, newpos)) => {
                &&& pos < newpos <= input@.len()
                &&& dec_value(input@.skip(pos as int)) == Ok::<(SpecValue, int), Error<
                    NoWriterError,
                >>((v@, newpos - pos))
            },
            Err(e) => dec_value(input@.skip(pos as int)) == Err::<(SpecValue, int), Error<
                NoWriterError,
            >>(e),
        },
{
    let ghost s = input@.skip(pos as int);
    proof {
        assert(s[0] == input@[pos as int]);
    }
    let len = input.len();
    if len - pos < 9 {
        return Err(Error::Eof);
    }
    let plen_wide = read_be(input, pos + 1, 8);
    proof {
        assert(s.subrange(1, 9) =~= input@.subrange(pos as int + 1, pos as int + 9));
    }
    if plen_wide > usize::MAX as u128 {
        return Err(Error::InvalidSize);
    }
    let plen = plen_wide as usize;
    if len - pos - 9 < plen {
        return Err(Error::Eof);
    }
    let ghost payload = s.subrange(9, 9 + plen as int);
    proof {
        assert(payload =~= input@.subrange(pos as int + 9, pos as int + 9 + plen as int));
    }
    if !validate_utf8_range(input, pos + 9, pos + 9 + plen) {
        return Err(Error::InvalidStr);
    }
    let sl = vstd::slice::slice_subrange(input, pos + 9, pos + 9 + plen);
    let v = Value::Str(vstd::slice::slice_to_vec(sl));
    proof {
        assert(v@ == SpecValue::Str(payload));
    }
    Ok((v, pos + 9 + plen))
}

/// Reads an end-marked string by scanning for the marker, validating the
/// run before it.
fn decode_unsized_str_at<'de>(input: &'de [u8], pos: usize) -> (r: Result<
    (Value, usize),
    Error<NoWriterError>,
>)
    requires
        pos < input@.len(),
        spec_tag_of_byte(input@[pos as int]) == Some(Tag::NullTerminatedString),
    ensures
        match r {
            Ok((v, newpos)) => {
                &&& pos < newpos <= input@.len()
                &&& dec_value(input@.skip(pos as int)) == Ok::<(SpecValue, int), Error<
                    NoWriterError,
                >>((v@, newpos - pos))
            },
            Err(e) => dec_value(input@.skip(pos as int)) == Err::<(SpecValue, int), Error<
                NoWriterError,
            >>(e),
        },
{
    let ghost s = input@.skip(pos as int);
    proof {
        assert(s[0] == input@[pos as int]);
        assert(s.skip(1) =~= input@.subrange(pos as int + 1, input@.len() as int));
    }
    let len = input.len();
    match find_marker_from(input, pos + 1, len) {
        None => Err(Error::Eof),
        Some(i) => {
            proof {
                crate::text::lemma_find_marker_characterization(s.skip(1));
                assert(s.subrange(1, 1 + i as int) =~= input@.subrange(
                    pos as int + 1,
                    pos as int + 1 + i as int,
                ));
            }
            if !validate_utf8_range(input, pos + 1, pos + 1 + i) {
                return Err(Error::InvalidStr);
            }
            let sl = vstd::slice::slice_subrange(input, pos + 1, pos + 1 + i);
            let v = Value::UnsizedStr(vstd::slice::slice_to_vec(sl));
            proof {
                assert(v@ == SpecValue::UnsizedStr(s.subrange(1, 1 + i as int)));
            }
            Ok((v, pos + 3 + i))
        },
    }
}

/// Reads a length-prefixed raw byte array.
fn decode_bytes_at<'de>(input: &'de [u8], pos: usize) -> (r: Result<
    (Value, usize),
    Error<NoWriterError>,
>)
    requires
        pos < input@.len(),
        spec_tag_of_byte(input@[pos as int]) == Some(Tag::ByteArray),
    ensures
        match r {
            Ok((v, newpos)) => {
                &&& pos < newpos <= input@.len()
                &&& dec_value(input@.skip(pos as int)) == Ok::<(SpecValue, int), Error<
                    NoWriterError,
                >>((v@, newpos - pos))
            },
            Err(e) => dec_value(input@.skip(pos as int)) == Err::<(SpecValue, int), Error<
                NoWriterError,
            >>(e),
        },
{
    let ghost s = input@.skip(pos as int);
    proof {
        assert(s[0] == input@[pos as int]);
    }
    let len = input.len();
    if len - pos < 9 {
        return Err(Error::Eof);
    }
    let plen_wide = read_be(input, pos + 1, 8);
    proof {
        assert(s.subrange(1, 9) =~= input@.subrange(pos as int + 1, pos as int + 9));
    }
    if plen_wide > usize::MAX as u128 {
        return Err(Error::InvalidSize);
    }
    let plen = plen_wide as usize;
    if len - pos - 9 < plen {
        return Err(Error::Eof);
    }
    let sl = vstd::slice::slice_subrange(input, pos + 9, pos + 9 + plen);
    let v = Value::Bytes(vstd::slice::slice_to_vec(sl));
    proof {
        assert(s.subrange(9, 9 + plen as int) =~= input@.subrange(
            pos as int + 9,
            pos as int + 9 + plen as int,
        ));
        assert(v@ == SpecValue::Bytes(s.subrange(9, 9 + plen as int)));
    }
    Ok((v, pos + 9 + plen))
}

/// Reads exactly `count` values back to back.
fn decode_list_at<'de>(input: &'de [u8], pos: usize, count: usize) -> (r: Result<
    (Vec<Value>, usize),
    Error<NoWriterError>,
>)
    requires
        pos <= input@.len(),
    ensures
        match r {
            Ok((items, newpos)) => {
                &&& pos <= newpos <= input@.len()
                &&& dec_list(input@.skip(pos as int), count as nat) == Ok::<
                    (Seq<SpecValue>, int),
                    Error<NoWriterError>,
                >((view_list(items@), newpos - pos))
            },
            Err(e) => dec_list(input@.skip(pos as int), count as nat) == Err::<
                (Seq<SpecValue>, int),
                Error<NoWriterError>,
            >(e),
        },
    decreases input@.len() - pos, 1int,
{
    let mut items: Vec<Value> = Vec::new();
    let mut cur = pos;
    let mut i: usize = 0;
    proof {
        assert(view_list(items@) =~= Seq::<SpecValue>::empty());
    }
    while i < count
        invariant
            pos <= cur <= input@.len(),
            i <= count,
            items@.len() == i,
            ({
                let outer = dec_list(input@.skip(pos as int), count as nat);
                let inner = dec_list(input@.skip(cur as int), (count - i) as nat);
                match inner {
                    Ok((vs, m)) => outer == Ok::<(Seq<SpecValue>, int), Error<NoWriterError>>(
                        (view_list(items@) + vs, (cur - pos) + m),
                    ),
                    Err(e) => outer == Err::<(Seq<SpecValue>, int), Error<NoWriterError>>(e),
                }
            }),
        decreases count - i,
    {
        let ghost items_before = items@;
        let ghost cur_before = cur as int;
        match decode_value_at(input, cur) {
            Ok((v, newpos)) => {
                proof {
                    assert(input@.skip(cur_before).skip(newpos - cur_before) =~= input@.skip(
                        newpos as int,
                    ));
                }
                items.push(v);
                proof {
                    lemma_view_list_push(items_before, v);
                    assert(view_list(items_before) + (seq![view_value(v)] + view_list(
                        Seq::<Value>::empty(),
                    )) =~= view_list(items_before.push(v)));
                    assert forall|vs: Seq<SpecValue>|
                        true implies (view_list(items_before) + (seq![view_value(v)] + vs))
                        =~= (view_list(items_before.push(v)) + vs) by {}
                }
                cur = newpos;
                i = i + 1;
            },
            Err(e) => {
                return Err(e);
            },
        }
    }
    proof {
        assert(view_list(items@) + Seq::<SpecValue>::empty() =~= view_list(items@));
    }
    Ok((items, cur))
}

/// Only a character node's shadow is a character.
proof fn lemma_char_view_inversion(v: Value)
    ensures
        view_value(v) is Char ==> v is Char,
{
    match v {
        Value::Unit => {},
        Value::UnitStruct => {},
        Value::Bool(_) => {},
        Value::Number(_) => {},
        Value::Char(_) => {},
        Value::Str(_) => {},
        Value::UnsizedStr(_) => {},
        Value::Bytes(_) => {},
        Value::OptionNone => {},
        Value::OptionSome(_) => {},
        Value::NewtypeStruct(_) => {},
        Value::UnitVariant(_) => {},
        Value::NewtypeVariant(_, _) => {},
        Value::TupleVariant(_, _) => {},
        Value::StructVariant(_, _) => {},
        Value::Tuple(_) => {},
        Value::TupleStruct(_) => {},
        Value::Struct(_) => {},
        Value::Array(_) => {},
        Value::UnsizedArray(_) => {},
        Value::Mapping(_) => {},
        Value::UnsizedMapping(_) => {},
    }
}

/// The shadow of a run grows by the pushed value's shadow.
proof fn lemma_view_list_push(s: Seq<Value>, v: Value)
    ensures
        view_list(s.push(v)) == view_list(s) + seq![view_value(v)],
    decreases s.len(),
{
    if s.len() == 0 {
        assert(s.push(v).drop_first() =~= Seq::<Value>::empty());
        assert(s.push(v)[0] == v);
        assert(view_list(Seq::<Value>::empty()) =~= Seq::<SpecValue>::empty());
        assert(view_list(s) =~= Seq::<SpecValue>::empty());
        assert(view_list(s.push(v)) == seq![view_value(v)] + view_list(
            s.push(v).drop_first(),
        ));
        assert(view_list(s.push(v)) =~= view_list(s) + seq![view_value(v)]);
    } else {
        assert(s.push(v).drop_first() =~= s.drop_first().push(v));
        assert(s.push(v)[0] == s[0]);
        lemma_view_list_push(s.drop_first(), v);
        assert(view_list(s.push(v)) =~= view_list(s) + seq![view_value(v)]);
    }
}

/// The shadow of an entry run grows by the pushed entry's shadows.
proof fn lemma_view_entries_push(s: Seq<ValueEntry>, k: Value, v: Value)
    ensures
        view_entries(s.push(ValueEntry { key: k, value: v })) == view_entries(s) + seq![
            (view_value(k), view_value(v)),
        ],
    decreases s.len(),
{
    let e = ValueEntry { key: k, value: v };
    if s.len() == 0 {
        assert(s.push(e).drop_first() =~= Seq::<ValueEntry>::empty());
        assert(s.push(e)[0] == e);
        assert(view_entries(Seq::<ValueEntry>::empty()) =~= Seq::<(SpecValue, SpecValue)>::empty());
        assert(view_entries(s) =~= Seq::<(SpecValue, SpecValue)>::empty());
        assert(view_entries(s.push(e)) == seq![(view_value(e.key), view_value(e.value))]
            + view_entries(s.push(e).drop_first()));
        assert(view_entries(s.push(e)) =~= view_entries(s) + seq![
            (view_value(k), view_value(v)),
        ]);
    } else {
        assert(s.push(e).drop_first() =~= s.drop_first().push(e));
        assert(s.push(e)[0] == s[0]);
        lemma_view_entries_push(s.drop_first(), k, v);
        assert(view_entries(s.push(e)) =~= view_entries(s) + seq![
            (view_value(k), view_value(v)),
        ]);
    }
}

/// Reads values until the end-of-sequence tag, consuming it.
fn decode_unsized_list_at<'de>(input: &'de [u8], pos: usize) -> (r: Result<
    (Vec<Value>, usize),
    Error<NoWriterError>,
>)
    requires
        pos <= input@.len(),
    ensures
        match r {
            Ok((items, newpos)) => {
                &&& pos < newpos <= input@.len()
                &&& dec_unsized_list(input@.skip(pos as int)) == Ok::<
                    (Seq<SpecValue>, int),
                    Error<NoWriterError>,
                >((view_list(items@), newpos - pos))
            },
            Err(e) => dec_unsized_list(input@.skip(pos as int)) == Err::<
                (Seq<SpecValue>, int),
                Error<NoWriterError>,
            >(e),
        },
    decreases input@.len() - pos, 1int,
{
    let mut items: Vec<Value> = Vec::new();
    let mut cur = pos;
    proof {
        assert(view_list(items@) =~= Seq::<SpecValue>::empty());
    }
    loop
        invariant
            pos <= cur <= input@.len(),
            ({
                let outer = dec_unsized_list(input@.skip(pos as int));
                let inner = dec_unsized_list(input@.skip(cur as int));
                match inner {
                    Ok((vs, m)) => outer == Ok::<(Seq<SpecValue>, int), Error<NoWriterError>>(
                        (view_list(items@) + vs, (cur - pos) + m),
                    ),
                    Err(e) => outer == Err::<(Seq<SpecValue>, int), Error<NoWriterError>>(e),
                }
            }),
        decreases input@.len() - cur,
    {
        let len = input.len();
        if cur >= len {
            return Err(Error::Eof);
        }
        if input[cur] == spec_tag_byte_exec(Tag::UnsizedSeqEnd) {
            proof {
                assert(input@.skip(cur as int)[0] == input@[cur as int]);
                assert(view_list(items@) + Seq::<SpecValue>::empty() =~= view_list(items@));
            }
            return Ok((items, cur + 1));
        }
        proof {
            assert(input@.skip(cur as int)[0] == input@[cur as int]);
        }
        let ghost items_before = items@;
        let ghost cur_before = cur as int;
        match decode_value_at(input, cur) {
            Ok((v, newpos)) => {
                proof {
                    assert(input@.skip(cur_before).skip(newpos - cur_before) =~= input@.skip(
                        newpos as int,
                    ));
                }
                items.push(v);
                proof {
                    lemma_view_list_push(items_before, v);
                    assert forall|vs: Seq<SpecValue>|
                        true implies (view_list(items_before) + (seq![view_value(v)] + vs))
                        =~= (view_list(items_before.push(v)) + vs) by {}
                }
                cur = newpos;
            },
            Err(e) => {
                return Err(e);
            },
        }
    }
}

/// The tag byte, computed in executable code.
fn spec_tag_byte_exec(t: Tag) -> (b: u8)
    ensures
        b == spec_tag_byte(t),
{
    t.to_byte()
}

/// Reads exactly `count` key-value pairs back to back.
fn decode_entries_at<'de>(input: &'de [u8], pos: usize, count: usize) -> (r: Result<
    (Vec<ValueEntry>, usize),
    Error<NoWriterError>,
>)
    requires
        pos <= input@.len(),
    ensures
        match r {
            Ok((items, newpos)) => {
                &&& pos <= newpos <= input@.len()
                &&& dec_entries(input@.skip(pos as int), count as nat) == Ok::<
                    (Seq<(SpecValue, SpecValue)>, int),
                    Error<NoWriterError>,
                >((view_entries(items@), newpos - pos))
            },
            Err(e) => dec_entries(input@.skip(pos as int), count as nat) == Err::<
                (Seq<(SpecValue, SpecValue)>, int),
                Error<NoWriterError>,
            >(e),
        },
    decreases input@.len() - pos, 1int,
{
    let mut items: Vec<ValueEntry> = Vec::new();
    let mut cur = pos;
    let mut i: usize = 0;
    proof {
        assert(view_entries(items@) =~= Seq::<(SpecValue, SpecValue)>::empty());
    }
    while i < count
        invariant
            pos <= cur <= input@.len(),
            i <= count,
            items@.len() == i,
            ({
                let outer = dec_entries(input@.skip(pos as int), count as nat);
                let inner = dec_entries(input@.skip(cur as int), (count - i) as nat);
                match inner {
                    Ok((es, m)) => outer == Ok::<
                        (Seq<(SpecValue, SpecValue)>, int),
                        Error<NoWriterError>,
                    >((view_entries(items@) + es, (cur - pos) + m)),
                    Err(e) => outer == Err::<
                        (Seq<(SpecValue, SpecValue)>, int),
                        Error<NoWriterError>,
                    >(e),
                }
            }),
        decreases count - i,
    {
        let ghost items_before = items@;
        let ghost cur_before = cur as int;
        let (key, kpos) = match decode_value_at(input, cur) {
            Ok(p) => p,
            Err(e) => {
                return Err(e);
            },
        };
        proof {
            assert(input@.skip(cur_before).skip(kpos - cur_before) =~= input@.skip(kpos as int));
        }
        let (value, vpos) = match decode_value_at(input, kpos) {
            Ok(p) => p,
            Err(e) => {
                return Err(e);
            },
        };
        proof {
            assert(input@.skip(kpos as int).skip(vpos - kpos) =~= input@.skip(vpos as int));
            assert(input@.skip(cur_before).skip((kpos - cur_before) + (vpos - kpos))
                =~= input@.skip(vpos as int));
        }
        items.push(ValueEntry { key, value });
        proof {
            lemma_view_entries_push(items_before, key, value);
            assert forall|es: Seq<(SpecValue, SpecValue)>|
                true implies (view_entries(items_before) + (seq![
                (view_value(key), view_value(value)),
            ] + es)) =~= (view_entries(items_before.push(
                ValueEntry { key: key, value: value },
            )) + es) by {}
        }
        cur = vpos;
        i = i + 1;
    }
    proof {
        assert(view_entries(items@) + Seq::<(SpecValue, SpecValue)>::empty() =~= view_entries(
            items@,
        ));
    }
    Ok((items, cur))
}

/// Reads key-value pairs until the end-of-sequence tag, consuming it.
fn decode_unsized_entries_at<'de>(input: &'de [u8], pos: usize) -> (r: Result<
    (Vec<ValueEntry>, usize),
    Error<NoWriterError>,
>)
    requires
        pos <= input@.len(),
    ensures
        match r {
            Ok((items, newpos)) => {
                &&& pos < newpos <= input@.len()
                &&& dec_unsized_entries(input@.skip(pos as int)) == Ok::<
                    (Seq<(SpecValue, SpecValue)>, int),
                    Error<NoWriterError>,
                >((view_entries(items@), newpos - pos))
            },
            Err(e) => dec_unsized_entries(input@.skip(pos as int)) == Err::<
                (Seq<(SpecValue, SpecValue)>, int),
                Error<NoWriterError>,
            >(e),
        },
    decreases input@.len() - pos, 1int,
{
    let mut items: Vec<ValueEntry> = Vec::new();
    let mut cur = pos;
    proof {
        assert(view_entries(items@) =~= Seq::<(SpecValue, SpecValue)>::empty());
    }
    loop
        invariant
            pos <= cur <= input@.len(),
            ({
                let outer = dec_unsized_entries(input@.skip(pos as int));
                let inner = dec_unsized_entries(input@.skip(cur as int));
                match inner {
                    Ok((es, m)) => outer == Ok::<
                        (Seq<(SpecValue, SpecValue)>, int),
                        Error<NoWriterError>,
                    >((view_entries(items@) + es, (cur - pos) + m)),
                    Err(e) => outer == Err::<
                        (Seq<(SpecValue, SpecValue)>, int),
                        Error<NoWriterError>,
                    >(e),
                }
            }),
        decreases input@.len() - cur,
    {
        let len = input.len();
        if cur >= len {
            return Err(Error::Eof);
        }
        if input[cur] == spec_tag_byte_exec(Tag::UnsizedSeqEnd) {
            proof {
                assert(input@.skip(cur as int)[0] == input@[cur as int]);
                assert(view_entries(items@) + Seq::<(SpecValue, SpecValue)>::empty()
                    =~= view_entries(items@));
            }
            return Ok((items, cur + 1));
        }
        proof {
            assert(input@.skip(cur as int)[0] == input@[cur as int]);
        }
        let ghost items_before = items@;
        let ghost cur_before = cur as int;
        let (key, kpos) = match decode_value_at(input, cur) {
            Ok(p) => p,
            Err(e) => {
                return Err(e);
            },
        };
        proof {
            assert(input@.skip(cur_before).skip(kpos - cur_before) =~= input@.skip(kpos as int));
        }
        let (value, vpos) = match decode_value_at(input, kpos) {
            Ok(p) => p,
            Err(e) => {
                return Err(e);
            },
        };
        proof {
            assert(input@.skip(kpos as int).skip(vpos - kpos) =~= input@.skip(vpos as int));
            assert(input@.skip(cur_before).skip((kpos - cur_before) + (vpos - kpos))
                =~= input@.skip(vpos as int));
        }
        items.push(ValueEntry { key, value });
        proof {
            lemma_view_entries_push(items_before, key, value);
            assert forall|es: Seq<(SpecValue, SpecValue)>|
                true implies (view_entries(items_before) + (seq![
                (view_value(key), view_value(value)),
            ] + es)) =~= (view_entries(items_before.push(
                ValueEntry { key: key, value: value },
            )) + es) by {}
        }
        cur = vpos;
    }
}

/// Decodes a whole input as one self-describing value.  Every byte must
/// be consumed: a remainder after a successful read is reported as that
/// many trailing bytes.
pub fn from_bytes<'de>(input: &'de [u8]) -> (r: Result<Value, Error<NoWriterError>>)
    ensures
        match r {
            Ok(v) => {
                &&& dec_whole(input@) == Ok::<SpecValue, Error<NoWriterError>>(v@)
                &&& crate::value::wf_value(v@)
                &&& crate::value::self_describing(v@)
                &&& crate::grammar::enc_value(v@) == input@
            },
            Err(e) => dec_whole(input@) == Err::<SpecValue, Error<NoWriterError>>(e),
        },
{
    proof {
        assert(input@.skip(0) =~= input@);
        crate::grammar::lemma_dynamic_tree_faithful(input@);
    }
    match decode_value_at(input, 0) {
        Ok((v, newpos)) => {
            if newpos == input.len() {
                Ok(v)
            } else {
                Err(Error::TrailingBytes(input.len() - newpos))
            }
        },
        Err(e) => Err(e),
    }
}

/// The error owed when a read under one expected tag cannot proceed: end
/// of input, a byte outside the tag range, a valid tag other than the
/// expected one, or -- with the right tag -- a payload falling short of
/// `width` more bytes.  No case applies to a stream opening with the
/// expected tag and a complete payload, so a contract carrying this
/// predicate on its error side owes success there.
pub open spec fn expected_tag_err(
    s: Seq<u8>,
    tag: Tag,
    expected: Expected,
    width: int,
    e: Error<NoWriterError>,
) -> bool {
    if s.len() == 0 {
        e == Error::<NoWriterError>::Eof
    } else {
        match spec_tag_of_byte(s[0]) {
            None => e == Error::<NoWriterError>::TagParsingError(TagParsingError::InvalidTag(s[0])),
            Some(t) => if t != tag {
                e == Error::<NoWriterError>::TagParsingError(
                    TagParsingError::UnexpectedTag { expected, got: t },
                )
            } else {
                s.len() < 1 + width && e == Error::<NoWriterError>::Eof
            },
        }
    }
}

/// The error owed when the head of the stream opens none of an accepted
/// set of tags: end of input, a byte outside the tag range, or a valid
/// tag from outside the set.  False on an accepted head, so in a
/// disjunction with the payload-level cases it owes success elsewhere.
pub open spec fn head_err(
    s: Seq<u8>,
    accepts: spec_fn(Tag) -> bool,
    expected: Expected,
    e: Error<NoWriterError>,
) -> bool {
    if s.len() == 0 {
        e == Error::<NoWriterError>::Eof
    } else {
        match spec_tag_of_byte(s[0]) {
            None => e == Error::<NoWriterError>::TagParsingError(TagParsingError::InvalidTag(s[0])),
            Some(t) => !accepts(t) && e == Error::<NoWriterError>::TagParsingError(
                TagParsingError::UnexpectedTag { expected, got: t },
            ),
        }
    }
}

/// The schema-driven reading of the stream: one instance wraps one input
/// slice, and the caller asks for one expected shape at a time, exactly
/// as a typed reconstruction drives it.  A tag that does not fit the
/// expectation is rejected with the context and the tag found.
pub struct Deserializer<'de> {
    input: &'de [u8],
    pos: usize,
}

impl<'de> Deserializer<'de> {
    /// The whole input, which never changes.
    pub closed spec fn data(&self) -> Seq<u8> {
        self.input@
    }

    /// How many bytes have been consumed.
    pub closed spec fn position(&self) -> int {
        self.pos as int
    }

    /// The reading position lies within the input.
    pub open spec fn wf(&self) -> bool {
        0 <= self.position() <= self.data().len()
    }

    /// The bytes not yet consumed.
    pub open spec fn remaining(&self) -> Seq<u8> {
        self.data().skip(self.position())
    }

    /// Wraps an input slice, positioned at its front.
    pub fn new(input: &'de [u8]) -> (r: Deserializer<'de>)
        ensures
            r.wf(),
            r.data() == input@,
            r.position() == 0,
    {
        Deserializer { input, pos: 0 }
    }

    /// How many bytes remain.
    pub fn remaining_len(&self) -> (r: usize)
        requires
            self.wf(),
        ensures
            r == self.remaining().len(),
    {
        self.input.len() - self.pos
    }

    /// Reads the next tag byte, consuming it.
    pub fn pop_tag(&mut self) -> (r: Result<Tag, Error<NoWriterError>>)
        requires
            old(self).wf(),
        ensures
            final(self).wf(),
            final(self).data() == old(self).data(),
            ({
                let s = old(self).remaining();
                match r {
                    Ok(t) => {
                        &&& s.len() > 0
                        &&& spec_tag_of_byte(s[0]) == Some(t)
                        &&& final(self).position() == old(self).position() + 1
                    },
                    Err(e) => {
                        &&& final(self).position() == old(self).position()
                        &&& (if s.len() == 0 {
                            e == Error::<NoWriterError>::Eof
                        } else {
                            spec_tag_of_byte(s[0]) is None && e == Error::<
                                NoWriterError,
                            >::TagParsingError(TagParsingError::InvalidTag(s[0]))
                        })
                    },
                }
            }),
    {
        if self.pos >= self.input.len() {
            return Err(Error::Eof);
        }
        let b = self.input[self.pos];
        proof {
            assert(old(self).remaining()[0] == b);
        }
        match Tag::from_byte(b) {
            Ok(t) => {
                self.pos = self.pos + 1;
                Ok(t)
            },
            Err(te) => Err(Error::TagParsingError(te)),
        }
    }

    /// Reads the next tag byte without consuming it.
    pub fn peek_tag(&self) -> (r: Result<Tag, Error<NoWriterError>>)
        requires
            self.wf(),
        ensures
            ({
                let s = self.remaining();
                match r {
                    Ok(t) => s.len() > 0 && spec_tag_of_byte(s[0]) == Some(t),
                    Err(e) => if s.len() == 0 {
                        e == Error::<NoWriterError>::Eof
                    } else {
                        spec_tag_of_byte(s[0]) is None && e == Error::<
                            NoWriterError,
                        >::TagParsingError(TagParsingError::InvalidTag(s[0]))
                    },
                }
            }),
    {
        if self.pos >= self.input.len() {
            return Err(Error::Eof);
        }
        let b = self.input[self.pos];
        proof {
            assert(self.remaining()[0] == b);
        }
        match Tag::from_byte(b) {
            Ok(t) => Ok(t),
            Err(te) => Err(Error::TagParsingError(te)),
        }
    }

    /// Takes the next `len` bytes as a borrowed slice of the input.
    pub fn pop_slice(&mut self, len: usize) -> (r: Result<&'de [u8], Error<NoWriterError>>)
        requires
            old(self).wf(),
        ensures
            final(self).wf(),
            final(self).data() == old(self).data(),
            match r {
                Ok(sl) => {
                    &&& len <= old(self).remaining().len()
                    &&& sl@ == old(self).remaining().take(len as int)
                    &&& final(self).position() == old(self).position() + len
                },
                Err(e) => {
                    &&& e == Error::<NoWriterError>::Eof
                    &&& old(self).remaining().len() < len
                    &&& final(self).position() == old(self).position()
                },
            },
    {
        if self.input.len() - self.pos < len {
            return Err(Error::Eof);
        }
        let sl = vstd::slice::slice_subrange(self.input, self.pos, self.pos + len);
        proof {
            assert(sl@ =~= old(self).remaining().take(len as int));
        }
        self.pos = self.pos + len;
        Ok(sl)
    }

    /// Reads an 8-byte big-endian length and checks it fits a machine
    /// count.
    pub fn pop_usize(&mut self) -> (r: Result<usize, Error<NoWriterError>>)
        requires
            old(self).wf(),
        ensures
            final(self).wf(),
            final(self).data() == old(self).data(),
            ({
                let s = old(self).remaining();
                match r {
                    Ok(n) => {
                        &&& s.len() >= 8
                        &&& n as nat == be_val(s.subrange(0, 8))
                        &&& final(self).position() == old(self).position() + 8
                    },
                    Err(e) => {
                        &&& final(self).position() == old(self).position()
                        &&& (if s.len() < 8 {
                            e == Error::<NoWriterError>::Eof
                        } else {
                            be_val(s.subrange(0, 8)) > usize::MAX && e == Error::<
                                NoWriterError,
                            >::InvalidSize
                        })
                    },
                }
            }),
    {
        if self.input.len() - self.pos < 8 {
            return Err(Error::Eof);
        }
        let wide = read_be(self.input, self.pos, 8);
        proof {
            assert(old(self).remaining().subrange(0, 8) =~= self.data().subrange(
                self.position(),
                self.position() + 8,
            ));
        }
        if wide > usize::MAX as u128 {
            return Err(Error::InvalidSize);
        }
        self.pos = self.pos + 8;
        Ok(wide as usize)
    }

    /// Takes `len` bytes and validates them as UTF-8, borrowing them from
    /// the input.
    pub fn parse_str_inner(&mut self, len: usize) -> (r: Result<&'de [u8], Error<NoWriterError>>)
        requires
            old(self).wf(),
        ensures
            final(self).wf(),
            final(self).data() == old(self).data(),
            match r {
                Ok(sl) => {
                    &&& len <= old(self).remaining().len()
                    &&& sl@ == old(self).remaining().take(len as int)
                    &&& valid_utf8(sl@)
                    &&& final(self).position() == old(self).position() + len
                },
                Err(e) => {
                    &&& final(self).position() == old(self).position()
                    &&& (if old(self).remaining().len() < len {
                        e == Error::<NoWriterError>::Eof
                    } else {
                        !valid_utf8(old(self).remaining().take(len as int)) && e == Error::<
                            NoWriterError,
                        >::InvalidStr
                    })
                },
            },
    {
        if self.input.len() - self.pos < len {
            return Err(Error::Eof);
        }
        proof {
            assert(old(self).remaining().take(len as int) =~= self.data().subrange(
                self.position(),
                self.position() + len,
            ));
        }
        if !validate_utf8_range(self.input, self.pos, self.pos + len) {
            return Err(Error::InvalidStr);
        }
        let sl = vstd::slice::slice_subrange(self.input, self.pos, self.pos + len);
        self.pos = self.pos + len;
        Ok(sl)
    }

    /// Reads a length-prefixed string's length and payload; the tag has
    /// already been consumed.
    pub fn parse_known_len_str(&mut self) -> (r: Result<&'de [u8], Error<NoWriterError>>)
        requires
            old(self).wf(),
        ensures
            final(self).wf(),
            final(self).data() == old(self).data(),
            ({
                let s = old(self).remaining();
                match r {
                    Ok(sl) => {
                        &&& valid_utf8(sl@)
                        &&& s.len() >= 8
                        &&& sl@.len() == be_val(s.subrange(0, 8))
                        &&& sl@ == s.subrange(8, 8 + be_val(s.subrange(0, 8)) as int)
                        &&& final(self).position() == old(self).position() + 8 + sl@.len()
                    },
                    Err(e) => {
                        &&& final(self).position() == old(self).position()
                        &&& (if s.len() < 8 {
                            e == Error::<NoWriterError>::Eof
                        } else {
                            let plen = be_val(s.subrange(0, 8));
                            if plen > usize::MAX {
                                e == Error::<NoWriterError>::InvalidSize
                            } else if s.len() < 8 + plen {
                                e == Error::<NoWriterError>::Eof
                            } else {
                                !valid_utf8(s.subrange(8, 8 + plen as int)) && e == Error::<
                                    NoWriterError,
                                >::InvalidStr
                            }
                        })
                    },
                }
            }),
    {
        let start = self.pos;
        let len = match self.pop_usize() {
            Ok(n) => n,
            Err(e) => {
                return Err(e);
            },
        };
        let ghost mid = *self;
        proof {
            assert(mid.remaining() =~= old(self).remaining().skip(8));
            if len as int <= mid.remaining().len() {
                assert(mid.remaining().take(len as int) =~= old(self).remaining().subrange(
                    8,
                    8 + len as int,
                ));
            }
        }
        match self.parse_str_inner(len) {
            Ok(sl) => Ok(sl),
            Err(e) => {
                self.pos = start;
                Err(e)
            },
        }
    }

    /// Locates the end marker, takes the run before it as UTF-8, and
    /// consumes the marker; the tag has already been consumed.
    pub fn parse_unknown_len_str(&mut self) -> (r: Result<&'de [u8], Error<NoWriterError>>)
        requires
            old(self).wf(),
        ensures
            final(self).wf(),
            final(self).data() == old(self).data(),
            ({
                let s = old(self).remaining();
                match r {
                    Ok(sl) => {
                        &&& valid_utf8(sl@)
                        &&& find_marker(s) == Some(sl@.len())
                        &&& sl@ == s.take(sl@.len() as int)
                        &&& final(self).position() == old(self).position() + sl@.len() + 2
                    },
                    Err(e) => {
                        &&& final(self).position() == old(self).position()
                        &&& match find_marker(s) {
                            None => e == Error::<NoWriterError>::Eof,
                            Some(i) => !valid_utf8(s.take(i as int)) && e == Error::<
                                NoWriterError,
                            >::InvalidStr,
                        }
                    },
                }
            }),
    {
        let len = self.input.len();
        let i = match find_marker_from(self.input, self.pos, len) {
            Some(i) => i,
            None => {
                return Err(Error::Eof);
            },
        };
        proof {
            crate::text::lemma_find_marker_characterization(old(self).remaining());
        }
        let ghost mid = *self;
        proof {
            assert(mid.remaining().take(i as int) =~= old(self).remaining().take(i as int));
        }
        let sl = match self.parse_str_inner(i) {
            Ok(sl) => sl,
            Err(e) => {
                proof {
                    if e == Error::<NoWriterError>::Eof {
                        assert(false);
                    }
                }
                return Err(e);
            },
        };
        self.pos = self.pos + 2;
        Ok(sl)
    }

    /// Reads a whole string value.  The tag alone decides between the
    /// length-prefixed and end-marked forms, never the content, and the
    /// outcome is exactly the mathematical decoder's on string heads.
    pub fn parse_str(&mut self) -> (r: Result<&'de [u8], Error<NoWriterError>>)
        requires
            old(self).wf(),
        ensures
            final(self).wf(),
            final(self).data() == old(self).data(),
            ({
                let s = old(self).remaining();
                match r {
                    Ok(sl) => {
                        &&& valid_utf8(sl@)
                        &&& s.len() > 0
                        &&& (s[0] == spec_tag_byte(Tag::Str) || s[0] == spec_tag_byte(
                            Tag::NullTerminatedString,
                        ))
                        &&& dec_value(s) == Ok::<(SpecValue, int), Error<NoWriterError>>(
                            (
                                if s[0] == spec_tag_byte(Tag::Str) {
                                    SpecValue::Str(sl@)
                                } else {
                                    SpecValue::UnsizedStr(sl@)
                                },
                                final(self).position() - old(self).position(),
                            ),
                        )
                    },
                    Err(e) => {
                        &&& final(self).position() == old(self).position()
                        &&& (head_err(
                            s,
                            (|t: Tag| t == Tag::Str || t == Tag::NullTerminatedString),
                            Expected::Text,
                            e,
                        ) || ((s.len() > 0 && (s[0] == spec_tag_byte(Tag::Str) || s[0]
                            == spec_tag_byte(Tag::NullTerminatedString))) && dec_value(s)
                            == Err::<(SpecValue, int), Error<NoWriterError>>(e)))
                    },
                }
            }),
    {
        let ghost s = old(self).remaining();
        let start = self.pos;
        let t = match self.peek_tag() {
            Ok(t) => t,
            Err(e) => {
                return Err(e);
            },
        };
        proof {
            crate::tag::lemma_tag_of_byte_inverse(s[0]);
        }
        match t {
            Tag::Str => {
                let total = self.input.len();
                proof {
                    assert(self.pos < total);
                }
                self.pos = self.pos + 1;
                let ghost mid = *self;
                proof {
                    assert(mid.remaining() =~= s.skip(1));
                    if s.len() >= 9 {
                        assert(s.skip(1).subrange(0, 8) =~= s.subrange(1, 9));
                        let plen = be_val(s.subrange(1, 9)) as int;
                        if plen <= usize::MAX && s.len() >= 9 + plen {
                            assert(s.skip(1).subrange(8, 8 + plen) =~= s.subrange(9, 9 + plen));
                        }
                    }
                }
                match self.parse_known_len_str() {
                    Ok(sl) => Ok(sl),
                    Err(e) => {
                        self.pos = start;
                        Err(e)
                    },
                }
            },
            Tag::NullTerminatedString => {
                let total = self.input.len();
                proof {
                    assert(self.pos < total);
                }
                self.pos = self.pos + 1;
                let ghost mid = *self;
                proof {
                    assert(mid.remaining() =~= s.skip(1));
                    crate::text::lemma_find_marker_characterization(s.skip(1));
                    match find_marker(s.skip(1)) {
                        Some(i) => {
                            assert(s.skip(1).take(i as int) =~= s.subrange(1, 1 + i as int));
                        },
                        None => {},
                    }
                }
                match self.parse_unknown_len_str() {
                    Ok(sl) => Ok(sl),
                    Err(e) => {
                        self.pos = start;
                        Err(e)
                    },
                }
            },
            _ => Err(Error::TagParsingError(TagParsingError::unexpected(Expected::Text, t))),
        }
    }

    /// Reads one value of any shape, self-describing: the tree analog of
    /// a typed decode, built from the tags alone.
    pub fn deserialize_any(&mut self) -> (r: Result<Value, Error<NoWriterError>>)
        requires
            old(self).wf(),
        ensures
            final(self).wf(),
            final(self).data() == old(self).data(),
            match r {
                Ok(v) => dec_value(old(self).remaining()) == Ok::<(SpecValue, int), Error<
                    NoWriterError,
                >>((v@, final(self).position() - old(self).position())),
                Err(e) => {
                    &&& final(self).position() == old(self).position()
                    &&& dec_value(old(self).remaining()) == Err::<(SpecValue, int), Error<
                        NoWriterError,
                    >>(e)
                },
            },
    {
        match decode_value_at(self.input, self.pos) {
            Ok((v, newpos)) => {
                self.pos = newpos;
                Ok(v)
            },
            Err(e) => Err(e),
        }
    }

    /// Reads and discards one value of any shape.
    pub fn deserialize_ignored_any(&mut self) -> (r: Result<(), Error<NoWriterError>>)
        requires
            old(self).wf(),
        ensures
            final(self).wf(),
            final(self).data() == old(self).data(),
            match r {
                Ok(_) => dec_value(old(self).remaining()) is Ok,
                Err(e) => {
                    &&& final(self).position() == old(self).position()
                    &&& dec_value(old(self).remaining()) == Err::<(SpecValue, int), Error<
                        NoWriterError,
                    >>(e)
                },
            },
    {
        match self.deserialize_any() {
            Ok(_) => Ok(()),
            Err(e) => Err(e),
        }
    }

    /// Reads a boolean: one of the two boolean tags.
    pub fn deserialize_bool(&mut self) -> (r: Result<bool, Error<NoWriterError>>)
        requires
            old(self).wf(),
        ensures
            final(self).wf(),
            final(self).data() == old(self).data(),
            ({
                let s = old(self).remaining();
                match r {
                    Ok(b) => {
                        &&& s.len() > 0
                        &&& s[0] == (if b {
                            spec_tag_byte(Tag::BoolTrue)
                        } else {
                            spec_tag_byte(Tag::BoolFalse)
                        })
                        &&& final(self).position() == old(self).position() + 1
                    },
                    Err(e) => {
                        &&& final(self).position() == old(self).position()
                        &&& head_err(
                            s,
                            (|t: Tag| t == Tag::BoolFalse || t == Tag::BoolTrue),
                            Expected::Boolean,
                            e,
                        )
                    },
                }
            }),
    {
        proof {
            if old(self).remaining().len() > 0 {
                crate::tag::lemma_tag_of_byte_inverse(old(self).remaining()[0]);
            }
        }
        let t = match self.peek_tag() {
            Ok(t) => t,
            Err(e) => {
                return Err(e);
            },
        };
        match t {
            Tag::BoolFalse | Tag::BoolTrue => {
                let total = self.input.len();
                proof {
                    assert(self.pos < total);
                }
                self.pos = self.pos + 1;
                Ok(t.to_byte() == Tag::BoolTrue.to_byte())
            },
            _ => Err(Error::TagParsingError(TagParsingError::unexpected(Expected::Boolean, t))),
        }
    }

    /// Reads an optional's opening tag: true means a value follows.
    pub fn deserialize_option(&mut self) -> (r: Result<bool, Error<NoWriterError>>)
        requires
            old(self).wf(),
        ensures
            final(self).wf(),
            final(self).data() == old(self).data(),
            ({
                let s = old(self).remaining();
                match r {
                    Ok(b) => {
                        &&& s.len() > 0
                        &&& s[0] == (if b {
                            spec_tag_byte(Tag::OptionSome)
                        } else {
                            spec_tag_byte(Tag::OptionNone)
                        })
                        &&& final(self).position() == old(self).position() + 1
                    },
                    Err(e) => {
                        &&& final(self).position() == old(self).position()
                        &&& head_err(
                            s,
                            (|t: Tag| t == Tag::OptionNone || t == Tag::OptionSome),
                            Expected::Optional,
                            e,
                        )
                    },
                }
            }),
    {
        proof {
            if old(self).remaining().len() > 0 {
                crate::tag::lemma_tag_of_byte_inverse(old(self).remaining()[0]);
            }
        }
        let t = match self.peek_tag() {
            Ok(t) => t,
            Err(e) => {
                return Err(e);
            },
        };
        match t {
            Tag::OptionNone | Tag::OptionSome => {
                let total = self.input.len();
                proof {
                    assert(self.pos < total);
                }
                self.pos = self.pos + 1;
                Ok(t.to_byte() == Tag::OptionSome.to_byte())
            },
            _ => Err(Error::TagParsingError(TagParsingError::unexpected(Expected::Optional, t))),
        }
    }

    /// Reads one expected tag that carries no payload.
    fn expect_bare_tag(&mut self, tag: Tag, expected: Expected) -> (r: Result<
        (),
        Error<NoWriterError>,
    >)
        requires
            old(self).wf(),
        ensures
            final(self).wf(),
            final(self).data() == old(self).data(),
            ({
                let s = old(self).remaining();
                match r {
                    Ok(_) => {
                        &&& s.len() > 0
                        &&& s[0] == spec_tag_byte(tag)
                        &&& final(self).position() == old(self).position() + 1
                    },
                    Err(e) => {
                        &&& final(self).position() == old(self).position()
                        &&& expected_tag_err(s, tag, expected, 0, e)
                    },
                }
            }),
    {
        proof {
            if old(self).remaining().len() > 0 {
                crate::tag::lemma_tag_of_byte_inverse(old(self).remaining()[0]);
            }
        }
        let t = match self.peek_tag() {
            Ok(t) => t,
            Err(e) => {
                return Err(e);
            },
        };
        if t.to_byte() == tag.to_byte() {
            let total = self.input.len();
            proof {
                crate::tag::lemma_tag_byte_injective(t, tag);
                assert(self.pos < total);
            }
            self.pos = self.pos + 1;
            Ok(())
        } else {
            Err(Error::TagParsingError(TagParsingError::unexpected(expected, t)))
        }
    }

    /// Reads the unit value's tag.
    pub fn deserialize_unit(&mut self) -> (r: Result<(), Error<NoWriterError>>)
        requires
            old(self).wf(),
        ensures
            final(self).wf(),
            final(self).data() == old(self).data(),
            ({
                let s = old(self).remaining();
                match r {
                    Ok(_) => {
                        &&& s.len() > 0
                        &&& s[0] == spec_tag_byte(Tag::Unit)
                        &&& final(self).position() == old(self).position() + 1
                    },
                    Err(e) => {
                        &&& final(self).position() == old(self).position()
                        &&& expected_tag_err(s, Tag::Unit, Expected::Unit, 0, e)
                    },
                }
            }),
    {
        self.expect_bare_tag(Tag::Unit, Expected::Unit)
    }

    /// Reads a unit struct's tag.
    pub fn deserialize_unit_struct(&mut self) -> (r: Result<(), Error<NoWriterError>>)
        requires
            old(self).wf(),
        ensures
            final(self).wf(),
            final(self).data() == old(self).data(),
            ({
                let s = old(self).remaining();
                match r {
                    Ok(_) => {
                        &&& s.len() > 0
                        &&& s[0] == spec_tag_byte(Tag::UnitStruct)
                        &&& final(self).position() == old(self).position() + 1
                    },
                    Err(e) => {
                        &&& final(self).position() == old(self).position()
                        &&& expected_tag_err(s, Tag::UnitStruct, Expected::UnitStruct, 0, e)
                    },
                }
            }),
    {
        self.expect_bare_tag(Tag::UnitStruct, Expected::UnitStruct)
    }

    /// Reads a newtype struct's opening tag; the inner value follows.
    pub fn deserialize_newtype_struct(&mut self) -> (r: Result<(), Error<NoWriterError>>)
        requires
            old(self).wf(),
        ensures
            final(self).wf(),
            final(self).data() == old(self).data(),
            ({
                let s = old(self).remaining();
                match r {
                    Ok(_) => {
                        &&& s.len() > 0
                        &&& s[0] == spec_tag_byte(Tag::NewTypeStruct)
                        &&& final(self).position() == old(self).position() + 1
                    },
                    Err(e) => {
                        &&& final(self).position() == old(self).position()
                        &&& expected_tag_err(s, Tag::NewTypeStruct, Expected::NewTypeStruct, 0, e)
                    },
                }
            }),
    {
        self.expect_bare_tag(Tag::NewTypeStruct, Expected::NewTypeStruct)
    }

    /// Reads one expected numeric tag and its fixed-width payload.
    fn expect_tagged_be(&mut self, tag: Tag, w: usize, expected: Expected) -> (r: Result<
        u128,
        Error<NoWriterError>,
    >)
        requires
            old(self).wf(),
            1 <= w <= 16,
        ensures
            final(self).wf(),
            final(self).data() == old(self).data(),
            ({
                let s = old(self).remaining();
                match r {
                    Ok(val) => {
                        &&& s.len() >= 1 + w
                        &&& s[0] == spec_tag_byte(tag)
                        &&& val as nat == be_val(s.subrange(1, 1 + w as int))
                        &&& final(self).position() == old(self).position() + 1 + w
                    },
                    Err(e) => {
                        &&& final(self).position() == old(self).position()
                        &&& expected_tag_err(s, tag, expected, w as int, e)
                    },
                }
            }),
    {
        let start = self.pos;
        match self.expect_bare_tag(tag, expected) {
            Ok(_) => {},
            Err(e) => {
                return Err(e);
            },
        }
        if self.input.len() - self.pos < w {
            self.pos = start;
            return Err(Error::Eof);
        }
        let wide = read_be(self.input, self.pos, w);
        proof {
            assert(old(self).remaining().subrange(1, 1 + w as int) =~= self.data().subrange(
                self.position(),
                self.position() + w,
            ));
        }
        self.pos = self.pos + w;
        Ok(wide)
    }

    /// Reads one i8 value: its tag and its big-endian payload.
    pub fn deserialize_i8(&mut self) -> (r: Result<i8, Error<NoWriterError>>)
        requires
            old(self).wf(),
        ensures
            final(self).wf(),
            final(self).data() == old(self).data(),
            ({
                let s = old(self).remaining();
                match r {
                    Ok(x) => {
                        &&& s.len() >= 1 + 1
                        &&& s[0] == spec_tag_byte(Tag::I8)
                        &&& x == ((be_val(s.subrange(1, 2)) as u8) as i8)
                        &&& final(self).position() == old(self).position() + 1 + 1
                    },
                    Err(e) => {
                        &&& final(self).position() == old(self).position()
                        &&& expected_tag_err(s, Tag::I8, Expected::IntI8, 1, e)
                    },
                }
            }),
    {
        match self.expect_tagged_be(Tag::I8, 1, Expected::IntI8) {
            Ok(wide) => {
                proof {
                    lemma_be_val_bound(old(self).remaining().subrange(1, 1 + 1int));
                    assert(pow256(16) == 0x100000000000000000000000000000000 && pow256(8)
                        == 0x10000000000000000 && pow256(4) == 0x100000000 && pow256(2) == 0x10000
                        && pow256(1) == 0x100) by {
                        reveal_with_fuel(pow256, 17);
                    }
                }
                Ok({ let w128: u128 = wide; (w128 as u8) as i8 })
            },
            Err(e) => Err(e),
        }
    }

    /// Reads one i16 value: its tag and its big-endian payload.
    pub fn deserialize_i16(&mut self) -> (r: Result<i16, Error<NoWriterError>>)
        requires
            old(self).wf(),
        ensures
            final(self).wf(),
            final(self).data() == old(self).data(),
            ({
                let s = old(self).remaining();
                match r {
                    Ok(x) => {
                        &&& s.len() >= 1 + 2
                        &&& s[0] == spec_tag_byte(Tag::I16)
                        &&& x == ((be_val(s.subrange(1, 3)) as u16) as i16)
                        &&& final(self).position() == old(self).position() + 1 + 2
                    },
                    Err(e) => {
                        &&& final(self).position() == old(self).position()
                        &&& expected_tag_err(s, Tag::I16, Expected::IntI16, 2, e)
                    },
                }
            }),
    {
        match self.expect_tagged_be(Tag::I16, 2, Expected::IntI16) {
            Ok(wide) => {
                proof {
                    lemma_be_val_bound(old(self).remaining().subrange(1, 1 + 2int));
                    assert(pow256(16) == 0x100000000000000000000000000000000 && pow256(8)
                        == 0x10000000000000000 && pow256(4) == 0x100000000 && pow256(2) == 0x10000
                        && pow256(1) == 0x100) by {
                        reveal_with_fuel(pow256, 17);
                    }
                }
                Ok({ let w128: u128 = wide; (w128 as u16) as i16 })
            },
            Err(e) => Err(e),
        }
    }

    /// Reads one i32 value: its tag and its big-endian payload.
    pub fn deserialize_i32(&mut self) -> (r: Result<i32, Error<NoWriterError>>)
        requires
            old(self).wf(),
        ensures
            final(self).wf(),
            final(self).data() == old(self).data(),
            ({
                let s = old(self).remaining();
                match r {
                    Ok(x) => {
                        &&& s.len() >= 1 + 4
                        &&& s[0] == spec_tag_byte(Tag::I32)
                        &&& x == ((be_val(s.subrange(1, 5)) as u32) as i32)
                        &&& final(self).position() == old(self).position() + 1 + 4
                    },
                    Err(e) => {
                        &&& final(self).position() == old(self).position()
                        &&& expected_tag_err(s, Tag::I32, Expected::IntI32, 4, e)
                    },
                }
            }),
    {
        match self.expect_tagged_be(Tag::I32, 4, Expected::IntI32) {
            Ok(wide) => {
                proof {
                    lemma_be_val_bound(old(self).remaining().subrange(1, 1 + 4int));
                    assert(pow256(16) == 0x100000000000000000000000000000000 && pow256(8)
                        == 0x10000000000000000 && pow256(4) == 0x100000000 && pow256(2) == 0x10000
                        && pow256(1) == 0x100) by {
                        reveal_with_fuel(pow256, 17);
                    }
                }
                Ok({ let w128: u128 = wide; (w128 as u32) as i32 })
            },
            Err(e) => Err(e),
        }
    }

    /// Reads one i64 value: its tag and its big-endian payload.
    pub fn deserialize_i64(&mut self) -> (r: Result<i64, Error<NoWriterError>>)
        requires
            old(self).wf(),
        ensures
            final(self).wf(),
            final(self).data() == old(self).data(),
            ({
                let s = old(self).remaining();
                match r {
                    Ok(x) => {
                        &&& s.len() >= 1 + 8
                        &&& s[0] == spec_tag_byte(Tag::I64)
                        &&& x == ((be_val(s.subrange(1, 9)) as u64) as i64)
                        &&& final(self).position() == old(self).position() + 1 + 8
                    },
                    Err(e) => {
                        &&& final(self).position() == old(self).position()
                        &&& expected_tag_err(s, Tag::I64, Expected::IntI64, 8, e)
                    },
                }
            }),
    {
        match self.expect_tagged_be(Tag::I64, 8, Expected::IntI64) {
            Ok(wide) => {
                proof {
                    lemma_be_val_bound(old(self).remaining().subrange(1, 1 + 8int));
                    assert(pow256(16) == 0x100000000000000000000000000000000 && pow256(8)
                        == 0x10000000000000000 && pow256(4) == 0x100000000 && pow256(2) == 0x10000
                        && pow256(1) == 0x100) by {
                        reveal_with_fuel(pow256, 17);
                    }
                }
                Ok({ let w128: u128 = wide; (w128 as u64) as i64 })
            },
            Err(e) => Err(e),
        }
    }

    /// Reads one u8 value: its tag and its big-endian payload.
    pub fn deserialize_u8(&mut self) -> (r: Result<u8, Error<NoWriterError>>)
        requires
            old(self).wf(),
        ensures
            final(self).wf(),
            final(self).data() == old(self).data(),
            ({
                let s = old(self).remaining();
                match r {
                    Ok(x) => {
                        &&& s.len() >= 1 + 1
                        &&& s[0] == spec_tag_byte(Tag::U8)
                        &&& x as nat == be_val(s.subrange(1, 2))
                        &&& final(self).position() == old(self).position() + 1 + 1
                    },
                    Err(e) => {
                        &&& final(self).position() == old(self).position()
                        &&& expected_tag_err(s, Tag::U8, Expected::IntU8, 1, e)
                    },
                }
            }),
    {
        match self.expect_tagged_be(Tag::U8, 1, Expected::IntU8) {
            Ok(wide) => {
                proof {
                    lemma_be_val_bound(old(self).remaining().subrange(1, 1 + 1int));
                    assert(pow256(16) == 0x100000000000000000000000000000000 && pow256(8)
                        == 0x10000000000000000 && pow256(4) == 0x100000000 && pow256(2) == 0x10000
                        && pow256(1) == 0x100) by {
                        reveal_with_fuel(pow256, 17);
                    }
                }
                Ok({ let w128: u128 = wide; w128 as u8 })
            },
            Err(e) => Err(e),
        }
    }

    /// Reads one u16 value: its tag and its big-endian payload.
    pub fn deserialize_u16(&mut self) -> (r: Result<u16, Error<NoWriterError>>)
        requires
            old(self).wf(),
        ensures
            final(self).wf(),
            final(self).data() == old(self).data(),
            ({
                let s = old(self).remaining();
                match r {
                    Ok(x) => {
                        &&& s.len() >= 1 + 2
                        &&& s[0] == spec_tag_byte(Tag::U16)
                        &&& x as nat == be_val(s.subrange(1, 3))
                        &&& final(self).position() == old(self).position() + 1 + 2
                    },
                    Err(e) => {
                        &&& final(self).position() == old(self).position()
                        &&& expected_tag_err(s, Tag::U16, Expected::IntU16, 2, e)
                    },
                }
            }),
    {
        match self.expect_tagged_be(Tag::U16, 2, Expected::IntU16) {
            Ok(wide) => {
                proof {
                    lemma_be_val_bound(old(self).remaining().subrange(1, 1 + 2int));
                    assert(pow256(16) == 0x100000000000000000000000000000000 && pow256(8)
                        == 0x10000000000000000 && pow256(4) == 0x100000000 && pow256(2) == 0x10000
                        && pow256(1) == 0x100) by {
                        reveal_with_fuel(pow256, 17);
                    }
                }
                Ok({ let w128: u128 = wide; w128 as u16 })
            },
            Err(e) => Err(e),
        }
    }

    /// Reads one u32 value: its tag and its big-endian payload.
    pub fn deserialize_u32(&mut self) -> (r: Result<u32, Error<NoWriterError>>)
        requires
            old(self).wf(),
        ensures
            final(self).wf(),
            final(self).data() == old(self).data(),
            ({
                let s = old(self).remaining();
                match r {
                    Ok(x) => {
                        &&& s.len() >= 1 + 4
                        &&& s[0] == spec_tag_byte(Tag::U32)
                        &&& x as nat == be_val(s.subrange(1, 5))
                        &&& final(self).position() == old(self).position() + 1 + 4
                    },
                    Err(e) => {
                        &&& final(self).position() == old(self).position()
                        &&& expected_tag_err(s, Tag::U32, Expected::IntU32, 4, e)
                    },
                }
            }),
    {
        match self.expect_tagged_be(Tag::U32, 4, Expected::IntU32) {
            Ok(wide) => {
                proof {
                    lemma_be_val_bound(old(self).remaining().subrange(1, 1 + 4int));
                    assert(pow256(16) == 0x100000000000000000000000000000000 && pow256(8)
                        == 0x10000000000000000 && pow256(4) == 0x100000000 && pow256(2) == 0x10000
                        && pow256(1) == 0x100) by {
                        reveal_with_fuel(pow256, 17);
                    }
                }
                Ok({ let w128: u128 = wide; w128 as u32 })
            },
            Err(e) => Err(e),
        }
    }

    /// Reads one u64 value: its tag and its big-endian payload.
    pub fn deserialize_u64(&mut self) -> (r: Result<u64, Error<NoWriterError>>)
        requires
            old(self).wf(),
        ensures
            final(self).wf(),
            final(self).data() == old(self).data(),
            ({
                let s = old(self).remaining();
                match r {
                    Ok(x) => {
                        &&& s.len() >= 1 + 8
                        &&& s[0] == spec_tag_byte(Tag::U64)
                        &&& x as nat == be_val(s.subrange(1, 9))
                        &&& final(self).position() == old(self).position() + 1 + 8
                    },
                    Err(e) => {
                        &&& final(self).position() == old(self).position()
                        &&& expected_tag_err(s, Tag::U64, Expected::IntU64, 8, e)
                    },
                }
            }),
    {
        match self.expect_tagged_be(Tag::U64, 8, Expected::IntU64) {
            Ok(wide) => {
                proof {
                    lemma_be_val_bound(old(self).remaining().subrange(1, 1 + 8int));
                    assert(pow256(16) == 0x100000000000000000000000000000000 && pow256(8)
                        == 0x10000000000000000 && pow256(4) == 0x100000000 && pow256(2) == 0x10000
                        && pow256(1) == 0x100) by {
                        reveal_with_fuel(pow256, 17);
                    }
                }
                Ok({ let w128: u128 = wide; w128 as u64 })
            },
            Err(e) => Err(e),
        }
    }

    /// Reads one i128 value: its tag and its big-endian payload.
    pub fn deserialize_i128(&mut self) -> (r: Result<i128, Error<NoWriterError>>)
        requires
            old(self).wf(),
        ensures
            final(self).wf(),
            final(self).data() == old(self).data(),
            ({
                let s = old(self).remaining();
                match r {
                    Ok(x) => {
                        &&& s.len() >= 1 + 16
                        &&& s[0] == spec_tag_byte(Tag::I128)
                        &&& x == ((be_val(s.subrange(1, 17)) as u128) as i128)
                        &&& final(self).position() == old(self).position() + 1 + 16
                    },
                    Err(e) => {
                        &&& final(self).position() == old(self).position()
                        &&& expected_tag_err(s, Tag::I128, Expected::IntI128, 16, e)
                    },
                }
            }),
    {
        match self.expect_tagged_be(Tag::I128, 16, Expected::IntI128) {
            Ok(wide) => {
                proof {
                    lemma_be_val_bound(old(self).remaining().subrange(1, 1 + 16int));
                    assert(pow256(16) == 0x100000000000000000000000000000000 && pow256(8)
                        == 0x10000000000000000 && pow256(4) == 0x100000000 && pow256(2) == 0x10000
                        && pow256(1) == 0x100) by {
                        reveal_with_fuel(pow256, 17);
                    }
                }
                Ok({ let w128: u128 = wide; w128 as i128 })
            },
            Err(e) => Err(e),
        }
    }

    /// Reads one u128 value: its tag and its big-endian payload.
    pub fn deserialize_u128(&mut self) -> (r: Result<u128, Error<NoWriterError>>)
        requires
            old(self).wf(),
        ensures
            final(self).wf(),
            final(self).data() == old(self).data(),
            ({
                let s = old(self).remaining();
                match r {
                    Ok(x) => {
                        &&& s.len() >= 1 + 16
                        &&& s[0] == spec_tag_byte(Tag::U128)
                        &&& x as nat == be_val(s.subrange(1, 17))
                        &&& final(self).position() == old(self).position() + 1 + 16
                    },
                    Err(e) => {
                        &&& final(self).position() == old(self).position()
                        &&& expected_tag_err(s, Tag::U128, Expected::IntU128, 16, e)
                    },
                }
            }),
    {
        match self.expect_tagged_be(Tag::U128, 16, Expected::IntU128) {
            Ok(wide) => {
                proof {
                    lemma_be_val_bound(old(self).remaining().subrange(1, 1 + 16int));
                    assert(pow256(16) == 0x100000000000000000000000000000000 && pow256(8)
                        == 0x10000000000000000 && pow256(4) == 0x100000000 && pow256(2) == 0x10000
                        && pow256(1) == 0x100) by {
                        reveal_with_fuel(pow256, 17);
                    }
                }
                Ok({ let w128: u128 = wide; w128 })
            },
            Err(e) => Err(e),
        }
    }

    /// Reads one u32 value: its tag and its big-endian payload.
    pub fn deserialize_f32_bits(&mut self) -> (r: Result<u32, Error<NoWriterError>>)
        requires
            old(self).wf(),
        ensures
            final(self).wf(),
            final(self).data() == old(self).data(),
            ({
                let s = old(self).remaining();
                match r {
                    Ok(x) => {
                        &&& s.len() >= 1 + 4
                        &&& s[0] == spec_tag_byte(Tag::F32)
                        &&& x as nat == be_val(s.subrange(1, 5))
                        &&& final(self).position() == old(self).position() + 1 + 4
                    },
                    Err(e) => {
                        &&& final(self).position() == old(self).position()
                        &&& expected_tag_err(s, Tag::F32, Expected::FloatF32, 4, e)
                    },
                }
            }),
    {
        match self.expect_tagged_be(Tag::F32, 4, Expected::FloatF32) {
            Ok(wide) => {
                proof {
                    lemma_be_val_bound(old(self).remaining().subrange(1, 1 + 4int));
                    assert(pow256(16) == 0x100000000000000000000000000000000 && pow256(8)
                        == 0x10000000000000000 && pow256(4) == 0x100000000 && pow256(2) == 0x10000
                        && pow256(1) == 0x100) by {
                        reveal_with_fuel(pow256, 17);
                    }
                }
                Ok({ let w128: u128 = wide; w128 as u32 })
            },
            Err(e) => Err(e),
        }
    }

    /// Reads one u64 value: its tag and its big-endian payload.
    pub fn deserialize_f64_bits(&mut self) -> (r: Result<u64, Error<NoWriterError>>)
        requires
            old(self).wf(),
        ensures
            final(self).wf(),
            final(self).data() == old(self).data(),
            ({
                let s = old(self).remaining();
                match r {
                    Ok(x) => {
                        &&& s.len() >= 1 + 8
                        &&& s[0] == spec_tag_byte(Tag::F64)
                        &&& x as nat == be_val(s.subrange(1, 9))
                        &&& final(self).position() == old(self).position() + 1 + 8
                    },
                    Err(e) => {
                        &&& final(self).position() == old(self).position()
                        &&& expected_tag_err(s, Tag::F64, Expected::FloatF64, 8, e)
                    },
                }
            }),
    {
        match self.expect_tagged_be(Tag::F64, 8, Expected::FloatF64) {
            Ok(wide) => {
                proof {
                    lemma_be_val_bound(old(self).remaining().subrange(1, 1 + 8int));
                    assert(pow256(16) == 0x100000000000000000000000000000000 && pow256(8)
                        == 0x10000000000000000 && pow256(4) == 0x100000000 && pow256(2) == 0x10000
                        && pow256(1) == 0x100) by {
                        reveal_with_fuel(pow256, 17);
                    }
                }
                Ok({ let w128: u128 = wide; w128 as u64 })
            },
            Err(e) => Err(e),
        }
    }

    /// Reads one character: a width tag and that many UTF-8 bytes.
    pub fn deserialize_char(&mut self) -> (r: Result<char, Error<NoWriterError>>)
        requires
            old(self).wf(),
        ensures
            final(self).wf(),
            final(self).data() == old(self).data(),
            ({
                let s = old(self).remaining();
                match r {
                    Ok(c) => {
                        &&& final(self).position() > old(self).position()
                        &&& dec_value(s) == Ok::<(SpecValue, int), Error<NoWriterError>>(
                            (SpecValue::Char(c), final(self).position() - old(self).position()),
                        )
                    },
                    Err(e) => {
                        &&& final(self).position() == old(self).position()
                        &&& (head_err(
                            s,
                            (|t: Tag|
                                t == Tag::Char1 || t == Tag::Char2 || t == Tag::Char3 || t
                                    == Tag::Char4),
                            Expected::Character,
                            e,
                        ) || dec_value(s) == Err::<(SpecValue, int), Error<NoWriterError>>(e))
                    },
                }
            }),
    {
        let t = match self.peek_tag() {
            Ok(t) => t,
            Err(e) => {
                return Err(e);
            },
        };
        match t {
            Tag::Char1 | Tag::Char2 | Tag::Char3 | Tag::Char4 => {
                match decode_char_at(self.input, self.pos, t) {
                    Ok((v, newpos)) => {
                        match v {
                            Value::Char(c) => {
                                self.pos = newpos;
                                Ok(c)
                            },
                            _ => {
                                proof {
                                    lemma_char_view_inversion(v);
                                }
                                Err(Error::InvalidStr)  // unreachable: a char tag decodes to a char
                            },
                        }
                    },
                    Err(e) => Err(e),
                }
            },
            _ => Err(Error::TagParsingError(TagParsingError::unexpected(Expected::Character, t))),
        }
    }

    /// Reads a string of either form, borrowing its UTF-8 bytes from the
    /// input; the outcome is exactly the mathematical decoder's on
    /// string heads.
    pub fn deserialize_str(&mut self) -> (r: Result<&'de [u8], Error<NoWriterError>>)
        requires
            old(self).wf(),
        ensures
            final(self).wf(),
            final(self).data() == old(self).data(),
            ({
                let s = old(self).remaining();
                match r {
                    Ok(sl) => {
                        &&& valid_utf8(sl@)
                        &&& s.len() > 0
                        &&& (s[0] == spec_tag_byte(Tag::Str) || s[0] == spec_tag_byte(
                            Tag::NullTerminatedString,
                        ))
                        &&& dec_value(s) == Ok::<(SpecValue, int), Error<NoWriterError>>(
                            (
                                if s[0] == spec_tag_byte(Tag::Str) {
                                    SpecValue::Str(sl@)
                                } else {
                                    SpecValue::UnsizedStr(sl@)
                                },
                                final(self).position() - old(self).position(),
                            ),
                        )
                    },
                    Err(e) => {
                        &&& final(self).position() == old(self).position()
                        &&& (head_err(
                            s,
                            (|t: Tag| t == Tag::Str || t == Tag::NullTerminatedString),
                            Expected::Text,
                            e,
                        ) || dec_value(s) == Err::<(SpecValue, int), Error<NoWriterError>>(e))
                    },
                }
            }),
    {
        self.parse_str()
    }

    /// Reads a string of either form; the owned-buffer reading of the
    /// same bytes.
    pub fn deserialize_string(&mut self) -> (r: Result<&'de [u8], Error<NoWriterError>>)
        requires
            old(self).wf(),
        ensures
            final(self).wf(),
            final(self).data() == old(self).data(),
            ({
                let s = old(self).remaining();
                match r {
                    Ok(sl) => {
                        &&& valid_utf8(sl@)
                        &&& s.len() > 0
                        &&& (s[0] == spec_tag_byte(Tag::Str) || s[0] == spec_tag_byte(
                            Tag::NullTerminatedString,
                        ))
                        &&& dec_value(s) == Ok::<(SpecValue, int), Error<NoWriterError>>(
                            (
                                if s[0] == spec_tag_byte(Tag::Str) {
                                    SpecValue::Str(sl@)
                                } else {
                                    SpecValue::UnsizedStr(sl@)
                                },
                                final(self).position() - old(self).position(),
                            ),
                        )
                    },
                    Err(e) => {
                        &&& final(self).position() == old(self).position()
                        &&& (head_err(
                            s,
                            (|t: Tag| t == Tag::Str || t == Tag::NullTerminatedString),
                            Expected::Text,
                            e,
                        ) || dec_value(s) == Err::<(SpecValue, int), Error<NoWriterError>>(e))
                    },
                }
            }),
    {
        self.parse_str()
    }

    /// Reads a length-prefixed byte array, borrowing it from the input;
    /// the outcome is exactly the mathematical decoder's on a byte-array
    /// head.
    pub fn deserialize_bytes(&mut self) -> (r: Result<&'de [u8], Error<NoWriterError>>)
        requires
            old(self).wf(),
        ensures
            final(self).wf(),
            final(self).data() == old(self).data(),
            ({
                let s = old(self).remaining();
                match r {
                    Ok(sl) => {
                        &&& s.len() >= 9
                        &&& s[0] == spec_tag_byte(Tag::ByteArray)
                        &&& sl@ == s.subrange(9, 9 + be_val(s.subrange(1, 9)) as int)
                        &&& final(self).position() == old(self).position() + 9 + sl@.len()
                        &&& dec_value(s) == Ok::<(SpecValue, int), Error<NoWriterError>>(
                            (SpecValue::Bytes(sl@), 9 + sl@.len() as int),
                        )
                    },
                    Err(e) => {
                        &&& final(self).position() == old(self).position()
                        &&& (head_err(
                            s,
                            (|t: Tag| t == Tag::ByteArray),
                            Expected::ByteArray,
                            e,
                        ) || dec_value(s) == Err::<(SpecValue, int), Error<NoWriterError>>(e))
                    },
                }
            }),
    {
        let ghost s = old(self).remaining();
        let start = self.pos;
        match self.expect_bare_tag(Tag::ByteArray, Expected::ByteArray) {
            Ok(_) => {},
            Err(e) => {
                return Err(e);
            },
        }
        let ghost mid = *self;
        proof {
            assert(mid.remaining() =~= s.skip(1));
            if s.len() >= 9 {
                assert(mid.remaining().subrange(0, 8) =~= s.subrange(1, 9));
            }
        }
        let len = match self.pop_usize() {
            Ok(n) => n,
            Err(e) => {
                self.pos = start;
                return Err(e);
            },
        };
        let ghost mid2 = *self;
        proof {
            assert(mid2.remaining() =~= s.skip(9));
            if len as int <= mid2.remaining().len() {
                assert(mid2.remaining().take(len as int) =~= s.subrange(9, 9 + len as int));
            }
        }
        match self.pop_slice(len) {
            Ok(sl) => Ok(sl),
            Err(e) => {
                self.pos = start;
                Err(e)
            },
        }
    }

    /// Reads a length-prefixed byte array; the owned-buffer reading of
    /// the same bytes.
    pub fn deserialize_byte_buf(&mut self) -> (r: Result<&'de [u8], Error<NoWriterError>>)
        requires
            old(self).wf(),
        ensures
            final(self).wf(),
            final(self).data() == old(self).data(),
            ({
                let s = old(self).remaining();
                match r {
                    Ok(sl) => {
                        &&& sl@ == s.subrange(9, 9 + be_val(s.subrange(1, 9)) as int)
                        &&& final(self).position() == old(self).position() + 9 + sl@.len()
                        &&& dec_value(s) == Ok::<(SpecValue, int), Error<NoWriterError>>(
                            (SpecValue::Bytes(sl@), 9 + sl@.len() as int),
                        )
                    },
                    Err(e) => {
                        &&& final(self).position() == old(self).position()
                        &&& (head_err(
                            s,
                            (|t: Tag| t == Tag::ByteArray),
                            Expected::ByteArray,
                            e,
                        ) || dec_value(s) == Err::<(SpecValue, int), Error<NoWriterError>>(e))
                    },
                }
            }),
    {
        self.deserialize_bytes()
    }

    /// Opens a sequence: the sized form yields its element count, the
    /// end-marked form yields none and [`Deserializer::check_seq_end`]
    /// detects its end.
    pub fn deserialize_seq(&mut self) -> (r: Result<Option<usize>, Error<NoWriterError>>)
        requires
            old(self).wf(),
        ensures
            final(self).wf(),
            final(self).data() == old(self).data(),
            ({
                let s = old(self).remaining();
                match r {
                    Ok(hint) => match hint {
                        Some(n) => {
                            &&& s.len() >= 9
                            &&& s[0] == spec_tag_byte(Tag::SizedSeq)
                            &&& n as nat == be_val(s.subrange(1, 9))
                            &&& final(self).position() == old(self).position() + 9
                        },
                        None => {
                            &&& s.len() >= 1
                            &&& s[0] == spec_tag_byte(Tag::UnsizedSeq)
                            &&& final(self).position() == old(self).position() + 1
                        },
                    },
                    Err(e) => {
                        &&& final(self).position() == old(self).position()
                        &&& (head_err(
                            s,
                            (|t: Tag| t == Tag::SizedSeq || t == Tag::UnsizedSeq),
                            Expected::Sequence,
                            e,
                        ) || (s.len() > 0 && s[0] == spec_tag_byte(Tag::SizedSeq) && (if s.len()
                            < 9 {
                            e == Error::<NoWriterError>::Eof
                        } else {
                            be_val(s.subrange(1, 9)) > usize::MAX && e == Error::<
                                NoWriterError,
                            >::InvalidSize
                        })))
                    },
                }
            }),
    {
        proof {
            if old(self).remaining().len() > 0 {
                crate::tag::lemma_tag_of_byte_inverse(old(self).remaining()[0]);
            }
        }
        let start = self.pos;
        let t = match self.peek_tag() {
            Ok(t) => t,
            Err(e) => {
                return Err(e);
            },
        };
        match t {
            Tag::SizedSeq => {
                let total = self.input.len();
                proof {
                    assert(self.pos < total);
                }
                self.pos = self.pos + 1;
                let ghost mid = *self;
                proof {
                    assert(mid.remaining() =~= old(self).remaining().skip(1));
                    if old(self).remaining().len() >= 9 {
                        assert(mid.remaining().subrange(0, 8) =~= old(self).remaining().subrange(
                            1,
                            9,
                        ));
                    }
                }
                match self.pop_usize() {
                    Ok(n) => Ok(Some(n)),
                    Err(e) => {
                        self.pos = start;
                        Err(e)
                    },
                }
            },
            Tag::UnsizedSeq => {
                let total = self.input.len();
                proof {
                    assert(self.pos < total);
                }
                self.pos = self.pos + 1;
                Ok(None)
            },
            _ => Err(
                Error::TagParsingError(TagParsingError::unexpected(Expected::Sequence, t)),
            ),
        }
    }

    /// Opens a map: the sized form yields its entry count, the end-marked
    /// form yields none.
    pub fn deserialize_map(&mut self) -> (r: Result<Option<usize>, Error<NoWriterError>>)
        requires
            old(self).wf(),
        ensures
            final(self).wf(),
            final(self).data() == old(self).data(),
            ({
                let s = old(self).remaining();
                match r {
                    Ok(hint) => match hint {
                        Some(n) => {
                            &&& s.len() >= 9
                            &&& s[0] == spec_tag_byte(Tag::SizedMap)
                            &&& n as nat == be_val(s.subrange(1, 9))
                            &&& final(self).position() == old(self).position() + 9
                        },
                        None => {
                            &&& s.len() >= 1
                            &&& s[0] == spec_tag_byte(Tag::UnsizedMap)
                            &&& final(self).position() == old(self).position() + 1
                        },
                    },
                    Err(e) => {
                        &&& final(self).position() == old(self).position()
                        &&& (head_err(
                            s,
                            (|t: Tag| t == Tag::SizedMap || t == Tag::UnsizedMap),
                            Expected::MapEntries,
                            e,
                        ) || (s.len() > 0 && s[0] == spec_tag_byte(Tag::SizedMap) && (if s.len()
                            < 9 {
                            e == Error::<NoWriterError>::Eof
                        } else {
                            be_val(s.subrange(1, 9)) > usize::MAX && e == Error::<
                                NoWriterError,
                            >::InvalidSize
                        })))
                    },
                }
            }),
    {
        proof {
            if old(self).remaining().len() > 0 {
                crate::tag::lemma_tag_of_byte_inverse(old(self).remaining()[0]);
            }
        }
        let start = self.pos;
        let t = match self.peek_tag() {
            Ok(t) => t,
            Err(e) => {
                return Err(e);
            },
        };
        match t {
            Tag::SizedMap => {
                let total = self.input.len();
                proof {
                    assert(self.pos < total);
                }
                self.pos = self.pos + 1;
                let ghost mid = *self;
                proof {
                    assert(mid.remaining() =~= old(self).remaining().skip(1));
                    if old(self).remaining().len() >= 9 {
                        assert(mid.remaining().subrange(0, 8) =~= old(self).remaining().subrange(
                            1,
                            9,
                        ));
                    }
                }
                match self.pop_usize() {
                    Ok(n) => Ok(Some(n)),
                    Err(e) => {
                        self.pos = start;
                        Err(e)
                    },
                }
            },
            Tag::UnsizedMap => {
                let total = self.input.len();
                proof {
                    assert(self.pos < total);
                }
                self.pos = self.pos + 1;
                Ok(None)
            },
            _ => Err(
                Error::TagParsingError(TagParsingError::unexpected(Expected::MapEntries, t)),
            ),
        }
    }

    /// In an end-marked container, consumes the end tag if it is next:
    /// true means the container is done.
    pub fn check_seq_end(&mut self) -> (r: Result<bool, Error<NoWriterError>>)
        requires
            old(self).wf(),
        ensures
            final(self).wf(),
            final(self).data() == old(self).data(),
            ({
                let s = old(self).remaining();
                match r {
                    Ok(done) => if done {
                        &&& s.len() > 0
                        &&& s[0] == spec_tag_byte(Tag::UnsizedSeqEnd)
                        &&& final(self).position() == old(self).position() + 1
                    } else {
                        &&& s.len() > 0
                        &&& s[0] != spec_tag_byte(Tag::UnsizedSeqEnd)
                        &&& final(self).position() == old(self).position()
                    },
                    Err(e) => e == Error::<NoWriterError>::Eof && s.len() == 0,
                }
            }),
    {
        if self.pos >= self.input.len() {
            return Err(Error::Eof);
        }
        let b = self.input[self.pos];
        proof {
            assert(old(self).remaining()[0] == b);
        }
        if b == Tag::UnsizedSeqEnd.to_byte() {
            self.pos = self.pos + 1;
            Ok(true)
        } else {
            Ok(false)
        }
    }

    /// Reads a tuple's opening: its tag and one-byte count, which must
    /// equal the arity the caller expects.
    pub fn deserialize_tuple(&mut self, len: usize) -> (r: Result<(), Error<NoWriterError>>)
        requires
            old(self).wf(),
        ensures
            final(self).wf(),
            final(self).data() == old(self).data(),
            ({
                let s = old(self).remaining();
                match r {
                    Ok(_) => {
                        &&& s.len() >= 2
                        &&& s[0] == spec_tag_byte(Tag::Tuple)
                        &&& s[1] as nat == len as nat
                        &&& final(self).position() == old(self).position() + 2
                    },
                    Err(e) => {
                        &&& final(self).position() == old(self).position()
                        &&& (if s.len() >= 2 && s[0] == spec_tag_byte(Tag::Tuple) {
                            s[1] as nat != len as nat && e == Error::<
                                NoWriterError,
                            >::SeqSizeMismatch { expected: len, got: s[1] as usize }
                        } else {
                            expected_tag_err(s, Tag::Tuple, Expected::Tuple, 1, e)
                        })
                    },
                }
            }),
    {
        self.expect_counted(Tag::Tuple, Expected::Tuple, len)
    }

    /// Reads a tuple struct's opening: its tag and one-byte count, which
    /// must equal the arity the caller expects.
    pub fn deserialize_tuple_struct(&mut self, len: usize) -> (r: Result<(), Error<NoWriterError>>)
        requires
            old(self).wf(),
        ensures
            final(self).wf(),
            final(self).data() == old(self).data(),
            ({
                let s = old(self).remaining();
                match r {
                    Ok(_) => {
                        &&& s.len() >= 2
                        &&& s[0] == spec_tag_byte(Tag::TupleStruct)
                        &&& s[1] as nat == len as nat
                        &&& final(self).position() == old(self).position() + 2
                    },
                    Err(e) => {
                        &&& final(self).position() == old(self).position()
                        &&& (if s.len() >= 2 && s[0] == spec_tag_byte(Tag::TupleStruct) {
                            s[1] as nat != len as nat && e == Error::<
                                NoWriterError,
                            >::SeqSizeMismatch { expected: len, got: s[1] as usize }
                        } else {
                            expected_tag_err(s, Tag::TupleStruct, Expected::TupleStruct, 1, e)
                        })
                    },
                }
            }),
    {
        self.expect_counted(Tag::TupleStruct, Expected::TupleStruct, len)
    }

    /// Reads a struct's opening: its tag and one-byte field count, which
    /// must equal the arity the caller expects.
    pub fn deserialize_struct(&mut self, len: usize) -> (r: Result<(), Error<NoWriterError>>)
        requires
            old(self).wf(),
        ensures
            final(self).wf(),
            final(self).data() == old(self).data(),
            ({
                let s = old(self).remaining();
                match r {
                    Ok(_) => {
                        &&& s.len() >= 2
                        &&& s[0] == spec_tag_byte(Tag::Struct)
                        &&& s[1] as nat == len as nat
                        &&& final(self).position() == old(self).position() + 2
                    },
                    Err(e) => {
                        &&& final(self).position() == old(self).position()
                        &&& (if s.len() >= 2 && s[0] == spec_tag_byte(Tag::Struct) {
                            s[1] as nat != len as nat && e == Error::<
                                NoWriterError,
                            >::SeqSizeMismatch { expected: len, got: s[1] as usize }
                        } else {
                            expected_tag_err(s, Tag::Struct, Expected::Struct, 1, e)
                        })
                    },
                }
            }),
    {
        self.expect_counted(Tag::Struct, Expected::Struct, len)
    }

    /// Reads a fixed-arity opening: a tag and a one-byte count that must
    /// match the caller's arity, else the counts disagree.
    fn expect_counted(&mut self, tag: Tag, expected: Expected, len: usize) -> (r: Result<
        (),
        Error<NoWriterError>,
    >)
        requires
            old(self).wf(),
        ensures
            final(self).wf(),
            final(self).data() == old(self).data(),
            ({
                let s = old(self).remaining();
                match r {
                    Ok(_) => {
                        &&& s.len() >= 2
                        &&& s[0] == spec_tag_byte(tag)
                        &&& s[1] as nat == len as nat
                        &&& final(self).position() == old(self).position() + 2
                    },
                    Err(e) => {
                        &&& final(self).position() == old(self).position()
                        &&& (if s.len() >= 2 && s[0] == spec_tag_byte(tag) {
                            s[1] as nat != len as nat && e == Error::<
                                NoWriterError,
                            >::SeqSizeMismatch { expected: len, got: s[1] as usize }
                        } else {
                            expected_tag_err(s, tag, expected, 1, e)
                        })
                    },
                }
            }),
    {
        let start = self.pos;
        match self.expect_bare_tag(tag, expected) {
            Ok(_) => {},
            Err(e) => {
                return Err(e);
            },
        }
        if self.pos >= self.input.len() {
            self.pos = start;
            return Err(Error::Eof);
        }
        let got = self.input[self.pos];
        proof {
            assert(old(self).remaining()[1] == got);
        }
        if got as usize != len {
            self.pos = start;
            return Err(Error::SeqSizeMismatch { expected: len, got: got as usize });
        }
        self.pos = self.pos + 1;
        Ok(())
    }

    /// Checks that an enum value starts here: one of the four variant
    /// tags, left unconsumed for the identifier read.
    pub fn deserialize_enum(&mut self) -> (r: Result<(), Error<NoWriterError>>)
        requires
            old(self).wf(),
        ensures
            final(self).wf(),
            final(self).data() == old(self).data(),
            final(self).position() == old(self).position(),
            ({
                let s = old(self).remaining();
                match r {
                    Ok(_) => {
                        &&& s.len() > 0
                        &&& (s[0] == spec_tag_byte(Tag::UnitVariant) || s[0] == spec_tag_byte(
                            Tag::NewTypeVariant,
                        ) || s[0] == spec_tag_byte(Tag::TupleVariant) || s[0] == spec_tag_byte(
                            Tag::StructVariant,
                        ))
                    },
                    Err(e) => head_err(
                        s,
                        (|t: Tag|
                            t == Tag::UnitVariant || t == Tag::NewTypeVariant || t
                                == Tag::TupleVariant || t == Tag::StructVariant),
                        Expected::Enumeration,
                        e,
                    ),
                }
            }),
    {
        proof {
            if old(self).remaining().len() > 0 {
                crate::tag::lemma_tag_of_byte_inverse(old(self).remaining()[0]);
            }
        }
        match self.peek_tag() {
            Ok(Tag::UnitVariant) => Ok(()),
            Ok(Tag::NewTypeVariant) => Ok(()),
            Ok(Tag::TupleVariant) => Ok(()),
            Ok(Tag::StructVariant) => Ok(()),
            Ok(t) => Err(
                Error::TagParsingError(TagParsingError::unexpected(Expected::Enumeration, t)),
            ),
            Err(e) => Err(e),
        }
    }

    /// Reads a variant identifier: a variant tag and its 4-byte index.
    pub fn deserialize_identifier(&mut self) -> (r: Result<u32, Error<NoWriterError>>)
        requires
            old(self).wf(),
        ensures
            final(self).wf(),
            final(self).data() == old(self).data(),
            ({
                let s = old(self).remaining();
                match r {
                    Ok(idx) => {
                        &&& s.len() >= 5
                        &&& (s[0] == spec_tag_byte(Tag::UnitVariant) || s[0] == spec_tag_byte(
                            Tag::NewTypeVariant,
                        ) || s[0] == spec_tag_byte(Tag::TupleVariant) || s[0] == spec_tag_byte(
                            Tag::StructVariant,
                        ))
                        &&& idx as nat == be_val(s.subrange(1, 5))
                        &&& final(self).position() == old(self).position() + 5
                    },
                    Err(e) => {
                        &&& final(self).position() == old(self).position()
                        &&& (head_err(
                            s,
                            (|t: Tag|
                                t == Tag::UnitVariant || t == Tag::NewTypeVariant || t
                                    == Tag::TupleVariant || t == Tag::StructVariant),
                            Expected::Identifier,
                            e,
                        ) || (s.len() >= 1 && (s[0] == spec_tag_byte(Tag::UnitVariant) || s[0]
                            == spec_tag_byte(Tag::NewTypeVariant) || s[0] == spec_tag_byte(
                            Tag::TupleVariant,
                        ) || s[0] == spec_tag_byte(Tag::StructVariant)) && s.len() < 5 && e
                            == Error::<NoWriterError>::Eof))
                    },
                }
            }),
    {
        proof {
            if old(self).remaining().len() > 0 {
                crate::tag::lemma_tag_of_byte_inverse(old(self).remaining()[0]);
            }
        }
        let start = self.pos;
        let t = match self.peek_tag() {
            Ok(t) => t,
            Err(e) => {
                return Err(e);
            },
        };
        match t {
            Tag::UnitVariant | Tag::NewTypeVariant | Tag::TupleVariant | Tag::StructVariant => {},
            _ => {
                return Err(
                    Error::TagParsingError(TagParsingError::unexpected(Expected::Identifier, t)),
                );
            },
        }
        let total = self.input.len();
        proof {
            assert(self.pos < total);
        }
        self.pos = self.pos + 1;
        if self.input.len() - self.pos < 4 {
            self.pos = start;
            return Err(Error::Eof);
        }
        let wide = read_be(self.input, self.pos, 4);
        proof {
            assert(old(self).remaining().subrange(1, 5) =~= self.data().subrange(
                self.position(),
                self.position() + 4,
            ));
            lemma_be_val_bound(old(self).remaining().subrange(1, 5));
            assert(pow256(4) == 0x100000000) by {
                reveal_with_fuel(pow256, 5);
            }
        }
        self.pos = self.pos + 4;
        Ok(wide as u32)
    }
}

} // verus!
