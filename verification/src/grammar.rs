//! The byte-level grammar.
//!
//! [`enc_value`] is the wire format: for every value it gives exactly the
//! bytes a correct encoder emits.  [`dec_value`] is the matching
//! mathematical decoder for the self-describing reading of a byte stream.
//! The engines in [`crate::ser`] and [`crate::de`] are verified against
//! these two functions, and the lemmas at the bottom tie the two
//! together: decoding is sound (whatever it accepts re-encodes to the
//! consumed bytes) and complete (encoding a well-formed value and
//! decoding it back yields the value).

use vstd::prelude::*;
use vstd::utf8::{
    decode_first_scalar, decode_utf8_first_scalar, encode_scalar, encode_utf8,
    encode_utf8_first_scalar, length_of_first_scalar, pop_first_scalar, take_first_scalar,
    valid_first_scalar, valid_utf8,
};

use crate::bigendian::{
    be_bytes, be_val, lemma_be_bytes_len, lemma_be_bytes_of_be_val, lemma_be_val_bound,
    lemma_be_val_of_be_bytes, pow256,
};
use crate::error::{Error, NoWriterError};
use crate::tag::{
    lemma_tag_byte_round_trip, lemma_tag_of_byte_inverse, spec_tag_byte, spec_tag_of_byte,
    Expected, Tag, TagParsingError,
};
use crate::text::{find_marker, lemma_find_marker_after_utf8, lemma_find_marker_characterization};
use crate::value::{
    encodable, encodable_entries, encodable_list, self_describing, self_describing_entries,
    self_describing_list, texts_valid, texts_valid_entries, texts_valid_list, wf_value, Number,
    SpecValue,
};

verus! {

/// The two end-marker bytes closing an end-marked string.
pub open spec fn end_marker() -> Seq<u8> {
    seq![0xD8u8, 0x00u8]
}

/// The wire bytes of a numeric value: its tag, then the fixed-width
/// big-endian payload (two's complement for signed widths, IEEE-754 bit
/// patterns for the float widths).
pub open spec fn enc_number(n: Number) -> Seq<u8> {
    match n {
        Number::I8(x) => seq![spec_tag_byte(Tag::I8)] + be_bytes((x as u8) as nat, 1),
        Number::I16(x) => seq![spec_tag_byte(Tag::I16)] + be_bytes((x as u16) as nat, 2),
        Number::I32(x) => seq![spec_tag_byte(Tag::I32)] + be_bytes((x as u32) as nat, 4),
        Number::I64(x) => seq![spec_tag_byte(Tag::I64)] + be_bytes((x as u64) as nat, 8),
        Number::U8(x) => seq![spec_tag_byte(Tag::U8)] + be_bytes(x as nat, 1),
        Number::U16(x) => seq![spec_tag_byte(Tag::U16)] + be_bytes(x as nat, 2),
        Number::U32(x) => seq![spec_tag_byte(Tag::U32)] + be_bytes(x as nat, 4),
        Number::U64(x) => seq![spec_tag_byte(Tag::U64)] + be_bytes(x as nat, 8),
        Number::F32Bits(x) => seq![spec_tag_byte(Tag::F32)] + be_bytes(x as nat, 4),
        Number::F64Bits(x) => seq![spec_tag_byte(Tag::F64)] + be_bytes(x as nat, 8),
        Number::I128(x) => seq![spec_tag_byte(Tag::I128)] + be_bytes((x as u128) as nat, 16),
        Number::U128(x) => seq![spec_tag_byte(Tag::U128)] + be_bytes(x as nat, 16),
    }
}

/// The wire bytes of a value.
pub open spec fn enc_value(v: SpecValue) -> Seq<u8>
    decreases v,
{
    match v {
        SpecValue::Unit => seq![spec_tag_byte(Tag::Unit)],
        SpecValue::UnitStruct => seq![spec_tag_byte(Tag::UnitStruct)],
        SpecValue::Bool(b) => if b {
            seq![spec_tag_byte(Tag::BoolTrue)]
        } else {
            seq![spec_tag_byte(Tag::BoolFalse)]
        },
        SpecValue::Number(n) => enc_number(n),
        SpecValue::Char(c) => {
            let payload = encode_scalar(c as u32);
            seq![(13 + payload.len()) as u8] + payload
        },
        SpecValue::Str(b) => seq![spec_tag_byte(Tag::Str)] + be_bytes(b.len(), 8) + b,
        SpecValue::UnsizedStr(b) => seq![spec_tag_byte(Tag::NullTerminatedString)] + b
            + end_marker(),
        SpecValue::Bytes(b) => seq![spec_tag_byte(Tag::ByteArray)] + be_bytes(b.len(), 8) + b,
        SpecValue::OptionNone => seq![spec_tag_byte(Tag::OptionNone)],
        SpecValue::OptionSome(x) => seq![spec_tag_byte(Tag::OptionSome)] + enc_value(*x),
        SpecValue::NewtypeStruct(x) => seq![spec_tag_byte(Tag::NewTypeStruct)] + enc_value(*x),
        SpecValue::UnitVariant(i) => seq![spec_tag_byte(Tag::UnitVariant)] + be_bytes(i as nat, 4),
        SpecValue::NewtypeVariant(i, x) => seq![spec_tag_byte(Tag::NewTypeVariant)] + be_bytes(
            i as nat,
            4,
        ) + enc_value(*x),
        SpecValue::TupleVariant(i, fs) => seq![spec_tag_byte(Tag::TupleVariant)] + be_bytes(
            i as nat,
            4,
        ) + enc_list(fs),
        SpecValue::StructVariant(i, fs) => seq![spec_tag_byte(Tag::StructVariant)] + be_bytes(
            i as nat,
            4,
        ) + enc_list(fs),
        SpecValue::Tuple(fs) => seq![spec_tag_byte(Tag::Tuple)] + be_bytes(fs.len(), 1) + enc_list(
            fs,
        ),
        SpecValue::TupleStruct(fs) => seq![spec_tag_byte(Tag::TupleStruct)] + be_bytes(fs.len(), 1)
            + enc_list(fs),
        SpecValue::Struct(fs) => seq![spec_tag_byte(Tag::Struct)] + be_bytes(fs.len(), 1)
            + enc_list(fs),
        SpecValue::Array(es) => seq![spec_tag_byte(Tag::SizedSeq)] + be_bytes(es.len(), 8)
            + enc_list(es),
        SpecValue::UnsizedArray(es) => seq![spec_tag_byte(Tag::UnsizedSeq)] + enc_list(es) + seq![
            spec_tag_byte(Tag::UnsizedSeqEnd),
        ],
        SpecValue::Mapping(es) => seq![spec_tag_byte(Tag::SizedMap)] + be_bytes(es.len(), 8)
            + enc_entries(es),
        SpecValue::UnsizedMapping(es) => seq![spec_tag_byte(Tag::UnsizedMap)] + enc_entries(es)
            + seq![spec_tag_byte(Tag::UnsizedSeqEnd)],
    }
}

/// The wire bytes of a run of values, back to back.
pub open spec fn enc_list(s: Seq<SpecValue>) -> Seq<u8>
    decreases s,
{
    if s.len() == 0 {
        Seq::empty()
    } else {
        enc_value(s[0]) + enc_list(s.drop_first())
    }
}

/// The wire bytes of a run of map entries: key then value, per entry.
pub open spec fn enc_entries(s: Seq<(SpecValue, SpecValue)>) -> Seq<u8>
    decreases s,
{
    if s.len() == 0 {
        Seq::empty()
    } else {
        enc_value(s[0].0) + enc_value(s[0].1) + enc_entries(s.drop_first())
    }
}

/// Every encoded value starts with its tag: it is at least one byte long.
pub proof fn lemma_enc_value_nonempty(v: SpecValue)
    ensures
        enc_value(v).len() >= 1,
{
}

/// Encoding a run split anywhere is the two halves' encodings, joined.
pub proof fn lemma_enc_list_concat(s1: Seq<SpecValue>, s2: Seq<SpecValue>)
    ensures
        enc_list(s1 + s2) == enc_list(s1) + enc_list(s2),
    decreases s1.len(),
{
    if s1.len() == 0 {
        assert(s1 + s2 =~= s2);
        assert(enc_list(s1) + enc_list(s2) =~= enc_list(s2));
    } else {
        assert((s1 + s2).drop_first() =~= s1.drop_first() + s2);
        assert((s1 + s2)[0] == s1[0]);
        lemma_enc_list_concat(s1.drop_first(), s2);
        assert(enc_value(s1[0]) + (enc_list(s1.drop_first()) + enc_list(s2)) =~= (enc_value(s1[0])
            + enc_list(s1.drop_first())) + enc_list(s2));
    }
}

/// Extending a run by one value appends that value's encoding.
pub proof fn lemma_enc_list_push(s: Seq<SpecValue>, v: SpecValue)
    ensures
        enc_list(s.push(v)) == enc_list(s) + enc_value(v),
{
    assert(s.push(v) =~= s + seq![v]);
    lemma_enc_list_concat(s, seq![v]);
    assert(seq![v].drop_first() =~= Seq::<SpecValue>::empty());
    assert(seq![v].len() == 1 && seq![v][0] == v);
    assert(enc_list(seq![v]) == enc_value(v) + enc_list(seq![v].drop_first()));
    assert(enc_value(v) + enc_list(Seq::<SpecValue>::empty()) =~= enc_value(v));
}

/// Encoding entries split anywhere is the two halves' encodings, joined.
pub proof fn lemma_enc_entries_concat(
    s1: Seq<(SpecValue, SpecValue)>,
    s2: Seq<(SpecValue, SpecValue)>,
)
    ensures
        enc_entries(s1 + s2) == enc_entries(s1) + enc_entries(s2),
    decreases s1.len(),
{
    if s1.len() == 0 {
        assert(s1 + s2 =~= s2);
        assert(enc_entries(s1) + enc_entries(s2) =~= enc_entries(s2));
    } else {
        assert((s1 + s2).drop_first() =~= s1.drop_first() + s2);
        assert((s1 + s2)[0] == s1[0]);
        lemma_enc_entries_concat(s1.drop_first(), s2);
        assert(enc_value(s1[0].0) + enc_value(s1[0].1) + (enc_entries(s1.drop_first())
            + enc_entries(s2)) =~= (enc_value(s1[0].0) + enc_value(s1[0].1) + enc_entries(
            s1.drop_first(),
        )) + enc_entries(s2));
    }
}

/// Extending the entries by one appends that entry's encoding.
pub proof fn lemma_enc_entries_push(s: Seq<(SpecValue, SpecValue)>, k: SpecValue, v: SpecValue)
    ensures
        enc_entries(s.push((k, v))) == enc_entries(s) + enc_value(k) + enc_value(v),
{
    assert(s.push((k, v)) =~= s + seq![(k, v)]);
    lemma_enc_entries_concat(s, seq![(k, v)]);
    assert(seq![(k, v)].drop_first() =~= Seq::<(SpecValue, SpecValue)>::empty());
    assert(enc_entries(seq![(k, v)]) =~= enc_value(k) + enc_value(v) + enc_entries(
        Seq::<(SpecValue, SpecValue)>::empty(),
    ));
    assert(enc_entries(s) + (enc_value(k) + enc_value(v)) =~= enc_entries(s) + enc_value(k)
        + enc_value(v));
}

/// The byte width of a numeric tag's payload.
pub open spec fn num_width(t: Tag) -> int {
    match t {
        Tag::I8 => 1,
        Tag::I16 => 2,
        Tag::I32 => 4,
        Tag::I64 => 8,
        Tag::U8 => 1,
        Tag::U16 => 2,
        Tag::U32 => 4,
        Tag::U64 => 8,
        Tag::F32 => 4,
        Tag::F64 => 8,
        Tag::I128 => 16,
        Tag::U128 => 16,
        _ => 0,
    }
}

/// The number a numeric tag and its payload value stand for.
pub open spec fn num_of(t: Tag, val: nat) -> Number {
    match t {
        Tag::I8 => Number::I8((val as u8) as i8),
        Tag::I16 => Number::I16((val as u16) as i16),
        Tag::I32 => Number::I32((val as u32) as i32),
        Tag::I64 => Number::I64((val as u64) as i64),
        Tag::U8 => Number::U8(val as u8),
        Tag::U16 => Number::U16(val as u16),
        Tag::U32 => Number::U32(val as u32),
        Tag::U64 => Number::U64(val as u64),
        Tag::F32 => Number::F32Bits(val as u32),
        Tag::F64 => Number::F64Bits(val as u64),
        Tag::I128 => Number::I128((val as u128) as i128),
        _ => Number::U128(val as u128),
    }
}

/// The byte width a character tag announces for its UTF-8 payload.
pub open spec fn char_width(t: Tag) -> int {
    match t {
        Tag::Char1 => 1,
        Tag::Char2 => 2,
        Tag::Char3 => 3,
        _ => 4,
    }
}

/// The mathematical self-describing decoder: reads one value off the
/// front of the stream, returning it with the count of bytes consumed,
/// or the exact error a conforming decoder reports.  Tuple and struct
/// variants carry no arity on the wire, so this mode cannot read them.
pub open spec fn dec_value(s: Seq<u8>) -> Result<(SpecValue, int), Error<NoWriterError>>
    decreases s.len(), 0int, 0int,
{
    if s.len() == 0 {
        Err(Error::Eof)
    } else {
        match spec_tag_of_byte(s[0]) {
            None => Err(Error::TagParsingError(TagParsingError::InvalidTag(s[0]))),
            Some(tag) => match tag {
                Tag::OptionNone => Ok((SpecValue::OptionNone, 1)),
                Tag::OptionSome => match dec_value(s.skip(1)) {
                    Ok((v, n)) => Ok((SpecValue::OptionSome(Box::new(v)), 1 + n)),
                    Err(e) => Err(e),
                },
                Tag::BoolFalse => Ok((SpecValue::Bool(false), 1)),
                Tag::BoolTrue => Ok((SpecValue::Bool(true), 1)),
                Tag::I8 | Tag::I16 | Tag::I32 | Tag::I64 | Tag::U8 | Tag::U16 | Tag::U32
                    | Tag::U64 | Tag::F32 | Tag::F64 | Tag::I128 | Tag::U128 => {
                    let w = num_width(tag);
                    if s.len() < 1 + w {
                        Err(Error::Eof)
                    } else {
                        Ok((SpecValue::Number(num_of(tag, be_val(s.subrange(1, 1 + w)))), 1 + w))
                    }
                },
                Tag::Char1 | Tag::Char2 | Tag::Char3 | Tag::Char4 => {
                    let w = char_width(tag);
                    if s.len() < 1 + w {
                        Err(Error::Eof)
                    } else {
                        let payload = s.subrange(1, 1 + w);
                        if valid_first_scalar(payload) && length_of_first_scalar(payload) == w {
                            Ok((SpecValue::Char(decode_first_scalar(payload) as char), 1 + w))
                        } else {
                            Err(Error::InvalidStr)
                        }
                    }
                },
                Tag::Str => {
                    if s.len() < 9 {
                        Err(Error::Eof)
                    } else {
                        let len = be_val(s.subrange(1, 9));
                        if len > usize::MAX {
                            Err(Error::InvalidSize)
                        } else if s.len() < 9 + len {
                            Err(Error::Eof)
                        } else {
                            let payload = s.subrange(9, 9 + len as int);
                            if valid_utf8(payload) {
                                Ok((SpecValue::Str(payload), 9 + len as int))
                            } else {
                                Err(Error::InvalidStr)
                            }
                        }
                    }
                },
                Tag::NullTerminatedString => {
                    match find_marker(s.skip(1)) {
                        None => Err(Error::Eof),
                        Some(i) => {
                            let payload = s.subrange(1, 1 + i as int);
                            if valid_utf8(payload) {
                                Ok((SpecValue::UnsizedStr(payload), 3 + i as int))
                            } else {
                                Err(Error::InvalidStr)
                            }
                        },
                    }
                },
                Tag::ByteArray => {
                    if s.len() < 9 {
                        Err(Error::Eof)
                    } else {
                        let len = be_val(s.subrange(1, 9));
                        if len > usize::MAX {
                            Err(Error::InvalidSize)
                        } else if s.len() < 9 + len {
                            Err(Error::Eof)
                        } else {
                            Ok((SpecValue::Bytes(s.subrange(9, 9 + len as int)), 9 + len as int))
                        }
                    }
                },
                Tag::Unit => Ok((SpecValue::Unit, 1)),
                Tag::UnitStruct => Ok((SpecValue::UnitStruct, 1)),
                Tag::UnitVariant => {
                    if s.len() < 5 {
                        Err(Error::Eof)
                    } else {
                        Ok((SpecValue::UnitVariant(be_val(s.subrange(1, 5)) as u32), 5))
                    }
                },
                Tag::NewTypeStruct => match dec_value(s.skip(1)) {
                    Ok((v, n)) => Ok((SpecValue::NewtypeStruct(Box::new(v)), 1 + n)),
                    Err(e) => Err(e),
                },
                Tag::NewTypeVariant => {
                    if s.len() < 5 {
                        Err(Error::Eof)
                    } else {
                        let idx = be_val(s.subrange(1, 5)) as u32;
                        match dec_value(s.skip(5)) {
                            Ok((v, n)) => Ok((SpecValue::NewtypeVariant(idx, Box::new(v)), 5 + n)),
                            Err(e) => Err(e),
                        }
                    }
                },
                Tag::SizedSeq => {
                    if s.len() < 9 {
                        Err(Error::Eof)
                    } else {
                        let len = be_val(s.subrange(1, 9));
                        if len > usize::MAX {
                            Err(Error::InvalidSize)
                        } else {
                            match dec_list(s.skip(9), len) {
                                Ok((vs, n)) => Ok((SpecValue::Array(vs), 9 + n)),
                                Err(e) => Err(e),
                            }
                        }
                    }
                },
                Tag::UnsizedSeq => match dec_unsized_list(s.skip(1)) {
                    Ok((vs, n)) => Ok((SpecValue::UnsizedArray(vs), 1 + n)),
                    Err(e) => Err(e),
                },
                Tag::UnsizedSeqEnd => Err(
                    Error::TagParsingError(
                        TagParsingError::UnexpectedTag {
                            expected: Expected::AnyButSeqEnd,
                            got: Tag::UnsizedSeqEnd,
                        },
                    ),
                ),
                Tag::Tuple => {
                    if s.len() < 2 {
                        Err(Error::Eof)
                    } else {
                        match dec_list(s.skip(2), s[1] as nat) {
                            Ok((vs, n)) => Ok((SpecValue::Tuple(vs), 2 + n)),
                            Err(e) => Err(e),
                        }
                    }
                },
                Tag::TupleStruct => {
                    if s.len() < 2 {
                        Err(Error::Eof)
                    } else {
                        match dec_list(s.skip(2), s[1] as nat) {
                            Ok((vs, n)) => Ok((SpecValue::TupleStruct(vs), 2 + n)),
                            Err(e) => Err(e),
                        }
                    }
                },
                Tag::Struct => {
                    if s.len() < 2 {
                        Err(Error::Eof)
                    } else {
                        match dec_list(s.skip(2), s[1] as nat) {
                            Ok((vs, n)) => Ok((SpecValue::Struct(vs), 2 + n)),
                            Err(e) => Err(e),
                        }
                    }
                },
                Tag::TupleVariant => Err(Error::Unimplemented),
                Tag::StructVariant => Err(Error::Unimplemented),
                Tag::SizedMap => {
                    if s.len() < 9 {
                        Err(Error::Eof)
                    } else {
                        let len = be_val(s.subrange(1, 9));
                        if len > usize::MAX {
                            Err(Error::InvalidSize)
                        } else {
                            match dec_entries(s.skip(9), len) {
                                Ok((es, n)) => Ok((SpecValue::Mapping(es), 9 + n)),
                                Err(e) => Err(e),
                            }
                        }
                    }
                },
                Tag::UnsizedMap => match dec_unsized_entries(s.skip(1)) {
                    Ok((es, n)) => Ok((SpecValue::UnsizedMapping(es), 1 + n)),
                    Err(e) => Err(e),
                },
            },
        }
    }
}

/// Reads exactly `n` values back to back.
pub open spec fn dec_list(s: Seq<u8>, n: nat) -> Result<
    (Seq<SpecValue>, int),
    Error<NoWriterError>,
>
    decreases s.len(), 1int, n,
{
    if n == 0 {
        Ok((Seq::empty(), 0))
    } else {
        match dec_value(s) {
            Err(e) => Err(e),
            Ok((v, k)) => {
                if 1 <= k <= s.len() {
                    match dec_list(s.skip(k), (n - 1) as nat) {
                        Err(e) => Err(e),
                        Ok((vs, m)) => Ok((seq![v] + vs, k + m)),
                    }
                } else {
                    Err(Error::Eof)
                }
            },
        }
    }
}

/// Reads values until the end-of-sequence tag, which it consumes.
pub open spec fn dec_unsized_list(s: Seq<u8>) -> Result<
    (Seq<SpecValue>, int),
    Error<NoWriterError>,
>
    decreases s.len(), 1int, 0int,
{
    if s.len() == 0 {
        Err(Error::Eof)
    } else if s[0] == spec_tag_byte(Tag::UnsizedSeqEnd) {
        Ok((Seq::empty(), 1))
    } else {
        match dec_value(s) {
            Err(e) => Err(e),
            Ok((v, k)) => {
                if 1 <= k <= s.len() {
                    match dec_unsized_list(s.skip(k)) {
                        Err(e) => Err(e),
                        Ok((vs, m)) => Ok((seq![v] + vs, k + m)),
                    }
                } else {
                    Err(Error::Eof)
                }
            },
        }
    }
}

/// Reads exactly `n` key-value pairs back to back.
pub open spec fn dec_entries(s: Seq<u8>, n: nat) -> Result<
    (Seq<(SpecValue, SpecValue)>, int),
    Error<NoWriterError>,
>
    decreases s.len(), 1int, n,
{
    if n == 0 {
        Ok((Seq::empty(), 0))
    } else {
        match dec_value(s) {
            Err(e) => Err(e),
            Ok((k, ck)) => {
                if 1 <= ck <= s.len() {
                    match dec_value(s.skip(ck)) {
                        Err(e) => Err(e),
                        Ok((v, cv)) => {
                            if 1 <= cv <= s.len() - ck {
                                match dec_entries(s.skip(ck + cv), (n - 1) as nat) {
                                    Err(e) => Err(e),
                                    Ok((es, m)) => Ok((seq![(k, v)] + es, ck + cv + m)),
                                }
                            } else {
                                Err(Error::Eof)
                            }
                        },
                    }
                } else {
                    Err(Error::Eof)
                }
            },
        }
    }
}

/// Reads key-value pairs until the end-of-sequence tag, which it
/// consumes.
pub open spec fn dec_unsized_entries(s: Seq<u8>) -> Result<
    (Seq<(SpecValue, SpecValue)>, int),
    Error<NoWriterError>,
>
    decreases s.len(), 1int, 0int,
{
    if s.len() == 0 {
        Err(Error::Eof)
    } else if s[0] == spec_tag_byte(Tag::UnsizedSeqEnd) {
        Ok((Seq::empty(), 1))
    } else {
        match dec_value(s) {
            Err(e) => Err(e),
            Ok((k, ck)) => {
                if 1 <= ck <= s.len() {
                    match dec_value(s.skip(ck)) {
                        Err(e) => Err(e),
                        Ok((v, cv)) => {
                            if 1 <= cv <= s.len() - ck {
                                match dec_unsized_entries(s.skip(ck + cv)) {
                                    Err(e) => Err(e),
                                    Ok((es, m)) => Ok((seq![(k, v)] + es, ck + cv + m)),
                                }
                            } else {
                                Err(Error::Eof)
                            }
                        },
                    }
                } else {
                    Err(Error::Eof)
                }
            },
        }
    }
}

/// What a whole-input decode yields: the value, when the stream holds
/// exactly one well-formed encoding; the trailing-bytes error, when a
/// value ends before the input does; else the error met while reading.
pub open spec fn dec_whole(s: Seq<u8>) -> Result<SpecValue, Error<NoWriterError>> {
    match dec_value(s) {
        Err(e) => Err(e),
        Ok((v, n)) => {
            if n == s.len() {
                Ok(v)
            } else {
                Err(Error::TrailingBytes((s.len() - n) as usize))
            }
        },
    }
}

/// Whatever the self-describing decoder accepts is a well-formed,
/// variant-free value whose encoding is exactly the bytes consumed.
#[verifier::rlimit(100)]
pub proof fn lemma_dec_value_sound(s: Seq<u8>)
    ensures
        match dec_value(s) {
            Ok((v, n)) => {
                &&& 1 <= n <= s.len()
                &&& wf_value(v)
                &&& self_describing(v)
                &&& enc_value(v) == s.subrange(0, n)
            },
            Err(_) => true,
        },
    decreases s.len(), 0int, 0int,
{
    if s.len() == 0 {
    } else {
        lemma_tag_of_byte_inverse(s[0]);
        match spec_tag_of_byte(s[0]) {
            None => {},
            Some(tag) => match tag {
                Tag::OptionNone => {
                    assert(enc_value(SpecValue::OptionNone) =~= s.subrange(0, 1));
                },
                Tag::OptionSome => {
                    lemma_dec_value_sound(s.skip(1));
                    if let Ok((v, n)) = dec_value(s.skip(1)) {
                        assert(enc_value(SpecValue::OptionSome(Box::new(v))) =~= s.subrange(
                            0,
                            1 + n,
                        )) by {
                            assert(s.skip(1).subrange(0, n) =~= s.subrange(1, 1 + n));
                        }
                    }
                },
                Tag::BoolFalse => {
                    assert(enc_value(SpecValue::Bool(false)) =~= s.subrange(0, 1));
                },
                Tag::BoolTrue => {
                    assert(enc_value(SpecValue::Bool(true)) =~= s.subrange(0, 1));
                },
                Tag::I8 | Tag::I16 | Tag::I32 | Tag::I64 | Tag::U8 | Tag::U16 | Tag::U32
                    | Tag::U64 | Tag::F32 | Tag::F64 | Tag::I128 | Tag::U128 => {
                    let w = num_width(tag);
                    if s.len() >= 1 + w {
                        let payload = s.subrange(1, 1 + w);
                        let val = be_val(payload);
                        lemma_be_val_bound(payload);
                        lemma_be_bytes_of_be_val(payload);
                        assert(pow256(16) == 0x100000000000000000000000000000000
                            && pow256(8) == 0x10000000000000000 && pow256(4) == 0x100000000
                            && pow256(2) == 0x10000 && pow256(1) == 0x100) by {
                            reveal_with_fuel(pow256, 17);
                        }
                        lemma_num_bits_round_trip(tag, val);
                        assert(enc_number(num_of(tag, val)) =~= s.subrange(0, 1 + w));
                    }
                },
                Tag::Char1 | Tag::Char2 | Tag::Char3 | Tag::Char4 => {
                    let w = char_width(tag);
                    if s.len() >= 1 + w {
                        let payload = s.subrange(1, 1 + w);
                        if valid_first_scalar(payload) && length_of_first_scalar(payload) == w {
                            assert(pop_first_scalar(payload) =~= Seq::<u8>::empty());
                            assert(valid_utf8(Seq::<u8>::empty()));
                            assert(valid_utf8(payload));
                            decode_utf8_first_scalar(payload);
                            assert(take_first_scalar(payload) =~= payload);
                            let c = decode_first_scalar(payload) as char;
                            assert(encode_scalar(c as u32) == payload);
                            assert(enc_value(SpecValue::Char(c)) =~= s.subrange(0, 1 + w));
                        }
                    }
                },
                Tag::Str => {
                    if s.len() >= 9 {
                        let len = be_val(s.subrange(1, 9));
                        if len <= usize::MAX && s.len() >= 9 + len {
                            let payload = s.subrange(9, 9 + len as int);
                            if valid_utf8(payload) {
                                lemma_be_bytes_of_be_val(s.subrange(1, 9));
                                assert(enc_value(SpecValue::Str(payload)) =~= s.subrange(
                                    0,
                                    9 + len as int,
                                ));
                            }
                        }
                    }
                },
                Tag::NullTerminatedString => {
                    lemma_find_marker_characterization(s.skip(1));
                    if let Some(i) = find_marker(s.skip(1)) {
                        let payload = s.subrange(1, 1 + i as int);
                        if valid_utf8(payload) {
                            assert(s.skip(1)[i as int] == s[1 + i as int]);
                            assert(s.skip(1)[i as int + 1] == s[2 + i as int]);
                            assert(enc_value(SpecValue::UnsizedStr(payload)) =~= s.subrange(
                                0,
                                3 + i as int,
                            ));
                        }
                    }
                },
                Tag::ByteArray => {
                    if s.len() >= 9 {
                        let len = be_val(s.subrange(1, 9));
                        if len <= usize::MAX && s.len() >= 9 + len {
                            lemma_be_bytes_of_be_val(s.subrange(1, 9));
                            assert(enc_value(SpecValue::Bytes(s.subrange(9, 9 + len as int)))
                                =~= s.subrange(0, 9 + len as int));
                        }
                    }
                },
                Tag::Unit => {
                    assert(enc_value(SpecValue::Unit) =~= s.subrange(0, 1));
                },
                Tag::UnitStruct => {
                    assert(enc_value(SpecValue::UnitStruct) =~= s.subrange(0, 1));
                },
                Tag::UnitVariant => {
                    if s.len() >= 5 {
                        let payload = s.subrange(1, 5);
                        lemma_be_val_bound(payload);
                        lemma_be_bytes_of_be_val(payload);
                        assert(pow256(4) == 0x100000000) by {
                            reveal_with_fuel(pow256, 5);
                        }
                        assert((be_val(payload) as u32) as nat == be_val(payload));
                        assert(enc_value(SpecValue::UnitVariant(be_val(payload) as u32))
                            =~= s.subrange(0, 5));
                    }
                },
                Tag::NewTypeStruct => {
                    lemma_dec_value_sound(s.skip(1));
                    if let Ok((v, n)) = dec_value(s.skip(1)) {
                        assert(enc_value(SpecValue::NewtypeStruct(Box::new(v))) =~= s.subrange(
                            0,
                            1 + n,
                        )) by {
                            assert(s.skip(1).subrange(0, n) =~= s.subrange(1, 1 + n));
                        }
                    }
                },
                Tag::NewTypeVariant => {
                    if s.len() >= 5 {
                        let payload = s.subrange(1, 5);
                        lemma_be_val_bound(payload);
                        lemma_be_bytes_of_be_val(payload);
                        assert(pow256(4) == 0x100000000) by {
                            reveal_with_fuel(pow256, 5);
                        }
                        assert((be_val(payload) as u32) as nat == be_val(payload));
                        let idx = be_val(payload) as u32;
                        lemma_dec_value_sound(s.skip(5));
                        if let Ok((v, n)) = dec_value(s.skip(5)) {
                            assert(enc_value(SpecValue::NewtypeVariant(idx, Box::new(v)))
                                =~= s.subrange(0, 5 + n)) by {
                                assert(s.skip(5).subrange(0, n) =~= s.subrange(5, 5 + n));
                            }
                        }
                    }
                },
                Tag::SizedSeq => {
                    if s.len() >= 9 {
                        let len = be_val(s.subrange(1, 9));
                        if len <= usize::MAX {
                            lemma_dec_list_sound(s.skip(9), len);
                            if let Ok((vs, n)) = dec_list(s.skip(9), len) {
                                lemma_be_bytes_of_be_val(s.subrange(1, 9));
                                assert(enc_value(SpecValue::Array(vs)) =~= s.subrange(0, 9 + n))
                                    by {
                                    assert(s.skip(9).subrange(0, n) =~= s.subrange(9, 9 + n));
                                }
                            }
                        }
                    }
                },
                Tag::UnsizedSeq => {
                    lemma_dec_unsized_list_sound(s.skip(1));
                    if let Ok((vs, n)) = dec_unsized_list(s.skip(1)) {
                        assert(s.skip(1).subrange(0, n) =~= s.subrange(1, 1 + n));
                        assert(enc_value(SpecValue::UnsizedArray(vs)) =~= seq![
                            spec_tag_byte(Tag::UnsizedSeq),
                        ] + (enc_list(vs) + seq![spec_tag_byte(Tag::UnsizedSeqEnd)]));
                        assert(enc_value(SpecValue::UnsizedArray(vs)) =~= s.subrange(0, 1 + n));
                    }
                },
                Tag::UnsizedSeqEnd => {},
                Tag::Tuple => {
                    if s.len() >= 2 {
                        lemma_dec_list_sound(s.skip(2), s[1] as nat);
                        if let Ok((vs, n)) = dec_list(s.skip(2), s[1] as nat) {
                            assert(be_bytes(vs.len(), 1) =~= seq![s[1]]) by {
                                reveal_with_fuel(be_bytes, 2);
                            }
                            assert(enc_value(SpecValue::Tuple(vs)) =~= s.subrange(0, 2 + n)) by {
                                assert(s.skip(2).subrange(0, n) =~= s.subrange(2, 2 + n));
                            }
                        }
                    }
                },
                Tag::TupleStruct => {
                    if s.len() >= 2 {
                        lemma_dec_list_sound(s.skip(2), s[1] as nat);
                        if let Ok((vs, n)) = dec_list(s.skip(2), s[1] as nat) {
                            assert(be_bytes(vs.len(), 1) =~= seq![s[1]]) by {
                                reveal_with_fuel(be_bytes, 2);
                            }
                            assert(enc_value(SpecValue::TupleStruct(vs)) =~= s.subrange(0, 2 + n))
                                by {
                                assert(s.skip(2).subrange(0, n) =~= s.subrange(2, 2 + n));
                            }
                        }
                    }
                },
                Tag::Struct => {
                    if s.len() >= 2 {
                        lemma_dec_list_sound(s.skip(2), s[1] as nat);
                        if let Ok((vs, n)) = dec_list(s.skip(2), s[1] as nat) {
                            assert(be_bytes(vs.len(), 1) =~= seq![s[1]]) by {
                                reveal_with_fuel(be_bytes, 2);
                            }
                            assert(enc_value(SpecValue::Struct(vs)) =~= s.subrange(0, 2 + n)) by {
                                assert(s.skip(2).subrange(0, n) =~= s.subrange(2, 2 + n));
                            }
                        }
                    }
                },
                Tag::TupleVariant => {},
                Tag::StructVariant => {},
                Tag::SizedMap => {
                    if s.len() >= 9 {
                        let len = be_val(s.subrange(1, 9));
                        if len <= usize::MAX {
                            lemma_dec_entries_sound(s.skip(9), len);
                            if let Ok((es, n)) = dec_entries(s.skip(9), len) {
                                lemma_be_bytes_of_be_val(s.subrange(1, 9));
                                assert(enc_value(SpecValue::Mapping(es)) =~= s.subrange(0, 9 + n))
                                    by {
                                    assert(s.skip(9).subrange(0, n) =~= s.subrange(9, 9 + n));
                                }
                            }
                        }
                    }
                },
                Tag::UnsizedMap => {
                    lemma_dec_unsized_entries_sound(s.skip(1));
                    if let Ok((es, n)) = dec_unsized_entries(s.skip(1)) {
                        assert(s.skip(1).subrange(0, n) =~= s.subrange(1, 1 + n));
                        assert(enc_value(SpecValue::UnsizedMapping(es)) =~= seq![
                            spec_tag_byte(Tag::UnsizedMap),
                        ] + (enc_entries(es) + seq![spec_tag_byte(Tag::UnsizedSeqEnd)]));
                        assert(enc_value(SpecValue::UnsizedMapping(es)) =~= s.subrange(0, 1 + n));
                    }
                },
            },
        }
    }
}

/// Casting the payload value a numeric tag reads down to its width and
/// re-encoding gives the payload back.
proof fn lemma_num_bits_round_trip(tag: Tag, val: nat)
    requires
        num_width(tag) >= 1,
        val < pow256(num_width(tag) as nat),
    ensures
        enc_number(num_of(tag, val)) == seq![spec_tag_byte(tag)] + be_bytes(val, num_width(
            tag,
        ) as nat),
{
    assert(pow256(16) == 0x100000000000000000000000000000000 && pow256(8) == 0x10000000000000000
        && pow256(4) == 0x100000000 && pow256(2) == 0x10000 && pow256(1) == 0x100) by {
        reveal_with_fuel(pow256, 17);
    }
    match tag {
        Tag::I8 => {
            let b = val as u8;
            let x = b as i8;
            assert((b as i8) as u8 == b) by (bit_vector);
            assert((x as u8) as nat == val);
        },
        Tag::I16 => {
            let b = val as u16;
            let x = b as i16;
            assert((b as i16) as u16 == b) by (bit_vector);
            assert((x as u16) as nat == val);
        },
        Tag::I32 => {
            let b = val as u32;
            let x = b as i32;
            assert((b as i32) as u32 == b) by (bit_vector);
            assert((x as u32) as nat == val);
        },
        Tag::I64 => {
            let b = val as u64;
            let x = b as i64;
            assert((b as i64) as u64 == b) by (bit_vector);
            assert((x as u64) as nat == val);
        },
        Tag::I128 => {
            let b = val as u128;
            let x = b as i128;
            assert((b as i128) as u128 == b) by (bit_vector);
            assert((x as u128) as nat == val);
        },
        _ => {},
    }
}

/// Whatever a counted run's decode accepts is that many well-formed,
/// variant-free values whose joined encodings are the consumed bytes.
pub proof fn lemma_dec_list_sound(s: Seq<u8>, n: nat)
    ensures
        match dec_list(s, n) {
            Ok((vs, m)) => {
                &&& 0 <= m <= s.len()
                &&& vs.len() == n
                &&& encodable_list(vs)
                &&& texts_valid_list(vs)
                &&& self_describing_list(vs)
                &&& enc_list(vs) == s.subrange(0, m)
            },
            Err(_) => true,
        },
    decreases s.len(), 1int, n,
{
    if n == 0 {
        assert(enc_list(Seq::<SpecValue>::empty()) =~= s.subrange(0, 0));
    } else {
        lemma_dec_value_sound(s);
        if let Ok((v, k)) = dec_value(s) {
            if 1 <= k <= s.len() {
                lemma_dec_list_sound(s.skip(k), (n - 1) as nat);
                if let Ok((vs, m)) = dec_list(s.skip(k), (n - 1) as nat) {
                    let all = seq![v] + vs;
                    assert(all.drop_first() =~= vs);
                    assert(all[0] == v);
                    assert(enc_list(all) == enc_value(v) + enc_list(vs));
                    assert(s.skip(k).subrange(0, m) =~= s.subrange(k, k + m));
                    assert(enc_list(all) =~= s.subrange(0, k + m));
                }
            }
        }
    }
}

/// Whatever an end-marked run's decode accepts is a run of well-formed,
/// variant-free values whose joined encodings, closed by the end tag, are
/// the consumed bytes.
pub proof fn lemma_dec_unsized_list_sound(s: Seq<u8>)
    ensures
        match dec_unsized_list(s) {
            Ok((vs, m)) => {
                &&& 1 <= m <= s.len()
                &&& encodable_list(vs)
                &&& texts_valid_list(vs)
                &&& self_describing_list(vs)
                &&& enc_list(vs) + seq![spec_tag_byte(Tag::UnsizedSeqEnd)] == s.subrange(0, m)
            },
            Err(_) => true,
        },
    decreases s.len(), 1int, 0int,
{
    if s.len() == 0 {
    } else if s[0] == spec_tag_byte(Tag::UnsizedSeqEnd) {
        assert(enc_list(Seq::<SpecValue>::empty()) + seq![spec_tag_byte(Tag::UnsizedSeqEnd)]
            =~= s.subrange(0, 1));
    } else {
        lemma_dec_value_sound(s);
        if let Ok((v, k)) = dec_value(s) {
            if 1 <= k <= s.len() {
                lemma_dec_unsized_list_sound(s.skip(k));
                if let Ok((vs, m)) = dec_unsized_list(s.skip(k)) {
                    let all = seq![v] + vs;
                    assert(all.drop_first() =~= vs);
                    assert(all[0] == v);
                    assert(enc_list(all) == enc_value(v) + enc_list(vs));
                    assert(s.skip(k).subrange(0, m) =~= s.subrange(k, k + m));
                    assert(enc_list(all) + seq![spec_tag_byte(Tag::UnsizedSeqEnd)] =~= enc_value(
                        v,
                    ) + (enc_list(vs) + seq![spec_tag_byte(Tag::UnsizedSeqEnd)]));
                    assert(enc_list(all) + seq![spec_tag_byte(Tag::UnsizedSeqEnd)] =~= s.subrange(
                        0,
                        k + m,
                    ));
                }
            }
        }
    }
}

/// Whatever a counted map decode accepts is that many well-formed,
/// variant-free entries whose joined encodings are the consumed bytes.
pub proof fn lemma_dec_entries_sound(s: Seq<u8>, n: nat)
    ensures
        match dec_entries(s, n) {
            Ok((es, m)) => {
                &&& 0 <= m <= s.len()
                &&& es.len() == n
                &&& encodable_entries(es)
                &&& texts_valid_entries(es)
                &&& self_describing_entries(es)
                &&& enc_entries(es) == s.subrange(0, m)
            },
            Err(_) => true,
        },
    decreases s.len(), 1int, n,
{
    if n == 0 {
        assert(enc_entries(Seq::<(SpecValue, SpecValue)>::empty()) =~= s.subrange(0, 0));
    } else {
        lemma_dec_value_sound(s);
        if let Ok((k, ck)) = dec_value(s) {
            if 1 <= ck <= s.len() {
                lemma_dec_value_sound(s.skip(ck));
                if let Ok((v, cv)) = dec_value(s.skip(ck)) {
                    if 1 <= cv <= s.len() - ck {
                        lemma_dec_entries_sound(s.skip(ck + cv), (n - 1) as nat);
                        if let Ok((es, m)) = dec_entries(s.skip(ck + cv), (n - 1) as nat) {
                            let all = seq![(k, v)] + es;
                            assert(all.drop_first() =~= es);
                            assert(all[0] == (k, v));
                            assert(enc_entries(all) == enc_value(k) + enc_value(v) + enc_entries(
                                es,
                            ));
                            assert(s.skip(ck).subrange(0, cv) =~= s.subrange(ck, ck + cv));
                            assert(s.skip(ck + cv).subrange(0, m) =~= s.subrange(
                                ck + cv,
                                ck + cv + m,
                            ));
                            assert(enc_entries(all) =~= s.subrange(0, ck + cv + m));
                        }
                    }
                }
            }
        }
    }
}

/// Whatever an end-marked map decode accepts is a run of well-formed,
/// variant-free entries whose joined encodings, closed by the end tag,
/// are the consumed bytes.
#[verifier::rlimit(100)]
pub proof fn lemma_dec_unsized_entries_sound(s: Seq<u8>)
    ensures
        match dec_unsized_entries(s) {
            Ok((es, m)) => {
                &&& 1 <= m <= s.len()
                &&& encodable_entries(es)
                &&& texts_valid_entries(es)
                &&& self_describing_entries(es)
                &&& enc_entries(es) + seq![spec_tag_byte(Tag::UnsizedSeqEnd)] == s.subrange(0, m)
            },
            Err(_) => true,
        },
    decreases s.len(), 1int, 0int,
{
    if s.len() == 0 {
    } else if s[0] == spec_tag_byte(Tag::UnsizedSeqEnd) {
        assert(enc_entries(Seq::<(SpecValue, SpecValue)>::empty()) + seq![
            spec_tag_byte(Tag::UnsizedSeqEnd),
        ] =~= s.subrange(0, 1));
    } else {
        lemma_dec_value_sound(s);
        if let Ok((k, ck)) = dec_value(s) {
            if 1 <= ck <= s.len() {
                lemma_dec_value_sound(s.skip(ck));
                if let Ok((v, cv)) = dec_value(s.skip(ck)) {
                    if 1 <= cv <= s.len() - ck {
                        lemma_dec_unsized_entries_sound(s.skip(ck + cv));
                        if let Ok((es, m)) = dec_unsized_entries(s.skip(ck + cv)) {
                            let all = seq![(k, v)] + es;
                            assert(all.drop_first() =~= es);
                            assert(all[0] == (k, v));
                            assert(enc_entries(all) == enc_value(k) + enc_value(v) + enc_entries(
                                es,
                            ));
                            assert(s.skip(ck).subrange(0, cv) =~= s.subrange(ck, ck + cv));
                            assert(s.skip(ck + cv).subrange(0, m) =~= s.subrange(
                                ck + cv,
                                ck + cv + m,
                            ));
                            assert(enc_entries(all) + seq![spec_tag_byte(Tag::UnsizedSeqEnd)]
                                =~= enc_value(k) + (enc_value(v) + (enc_entries(es) + seq![
                                spec_tag_byte(Tag::UnsizedSeqEnd),
                            ])));
                            assert(enc_entries(all) + seq![spec_tag_byte(Tag::UnsizedSeqEnd)]
                                =~= s.subrange(0, ck + cv + m));
                        }
                    }
                }
            }
        }
    }
}

/// The numeric tag a number is written under.
pub open spec fn num_tag(n: Number) -> Tag {
    match n {
        Number::I8(_) => Tag::I8,
        Number::I16(_) => Tag::I16,
        Number::I32(_) => Tag::I32,
        Number::I64(_) => Tag::I64,
        Number::U8(_) => Tag::U8,
        Number::U16(_) => Tag::U16,
        Number::U32(_) => Tag::U32,
        Number::U64(_) => Tag::U64,
        Number::F32Bits(_) => Tag::F32,
        Number::F64Bits(_) => Tag::F64,
        Number::I128(_) => Tag::I128,
        Number::U128(_) => Tag::U128,
    }
}

/// The payload value a number is written as: its unsigned bit pattern.
pub open spec fn num_bits(n: Number) -> nat {
    match n {
        Number::I8(x) => (x as u8) as nat,
        Number::I16(x) => (x as u16) as nat,
        Number::I32(x) => (x as u32) as nat,
        Number::I64(x) => (x as u64) as nat,
        Number::U8(x) => x as nat,
        Number::U16(x) => x as nat,
        Number::U32(x) => x as nat,
        Number::U64(x) => x as nat,
        Number::F32Bits(x) => x as nat,
        Number::F64Bits(x) => x as nat,
        Number::I128(x) => (x as u128) as nat,
        Number::U128(x) => x as nat,
    }
}

/// A number's wire form is its tag and its bit pattern at its width, the
/// pattern fits the width, and reading the pattern back under the tag
/// restores the number.
pub proof fn lemma_number_complete(n: Number)
    ensures
        enc_number(n) == seq![spec_tag_byte(num_tag(n))] + be_bytes(num_bits(n), num_width(
            num_tag(n),
        ) as nat),
        num_bits(n) < pow256(num_width(num_tag(n)) as nat),
        num_of(num_tag(n), num_bits(n)) == n,
        1 <= num_width(num_tag(n)) <= 16,
{
    assert(pow256(16) == 0x100000000000000000000000000000000 && pow256(8) == 0x10000000000000000
        && pow256(4) == 0x100000000 && pow256(2) == 0x10000 && pow256(1) == 0x100) by {
        reveal_with_fuel(pow256, 17);
    }
    match n {
        Number::I8(x) => {
            assert(((x as u8) as nat) as u8 == x as u8);
            assert((x as u8) as i8 == x) by (bit_vector);
        },
        Number::I16(x) => {
            assert(((x as u16) as nat) as u16 == x as u16);
            assert((x as u16) as i16 == x) by (bit_vector);
        },
        Number::I32(x) => {
            assert(((x as u32) as nat) as u32 == x as u32);
            assert((x as u32) as i32 == x) by (bit_vector);
        },
        Number::I64(x) => {
            assert(((x as u64) as nat) as u64 == x as u64);
            assert((x as u64) as i64 == x) by (bit_vector);
        },
        Number::I128(x) => {
            assert(((x as u128) as nat) as u128 == x as u128);
            assert((x as u128) as i128 == x) by (bit_vector);
        },
        _ => {},
    }
}

/// No value's encoding opens with the end-of-sequence tag, so inside an
/// end-marked container the end tag is unambiguous.
pub proof fn lemma_enc_value_head(v: SpecValue)
    ensures
        enc_value(v).len() >= 1,
        enc_value(v)[0] != spec_tag_byte(Tag::UnsizedSeqEnd),
{
    match v {
        SpecValue::Number(n) => {
            lemma_number_complete(n);
        },
        SpecValue::Char(c) => {
            assert(1 <= encode_scalar(c as u32).len() <= 4);
        },
        _ => {},
    }
}

/// Decoding the encoding of a well-formed, variant-free value consumes
/// exactly the encoding and yields the value back, whatever follows it.
#[verifier::rlimit(100)]
pub proof fn lemma_dec_value_complete(v: SpecValue, rest: Seq<u8>)
    requires
        wf_value(v),
        self_describing(v),
    ensures
        dec_value(enc_value(v) + rest) == Ok::<(SpecValue, int), Error<NoWriterError>>(
            (v, enc_value(v).len() as int),
        ),
    decreases v, 0int,
{
    let e = enc_value(v);
    let s = e + rest;
    match v {
        SpecValue::Unit => {
            lemma_tag_byte_round_trip(Tag::Unit);
            assert(s[0] == spec_tag_byte(Tag::Unit));
        },
        SpecValue::UnitStruct => {
            lemma_tag_byte_round_trip(Tag::UnitStruct);
            assert(s[0] == spec_tag_byte(Tag::UnitStruct));
        },
        SpecValue::Bool(b) => {
            if b {
                lemma_tag_byte_round_trip(Tag::BoolTrue);
            } else {
                lemma_tag_byte_round_trip(Tag::BoolFalse);
            }
            assert(s[0] == e[0]);
        },
        SpecValue::Number(n) => {
            lemma_number_complete(n);
            let t = num_tag(n);
            let w = num_width(t);
            lemma_tag_byte_round_trip(t);
            lemma_be_bytes_len(num_bits(n), w as nat);
            assert(s[0] == spec_tag_byte(t));
            assert(s.len() >= 1 + w);
            assert(s.subrange(1, 1 + w) =~= be_bytes(num_bits(n), w as nat));
            lemma_be_val_of_be_bytes(num_bits(n), w as nat);
        },
        SpecValue::Char(c) => {
            lemma_char_complete(c, rest);
        },
        SpecValue::Str(b) => {
            lemma_str_complete(b, rest);
        },
        SpecValue::UnsizedStr(b) => {
            lemma_unsized_str_complete(b, rest);
        },
        SpecValue::Bytes(b) => {
            lemma_bytes_complete(b, rest);
        },
        SpecValue::OptionNone => {
            lemma_tag_byte_round_trip(Tag::OptionNone);
            assert(s[0] == spec_tag_byte(Tag::OptionNone));
        },
        SpecValue::OptionSome(x) => {
            lemma_tag_byte_round_trip(Tag::OptionSome);
            assert(s[0] == spec_tag_byte(Tag::OptionSome));
            lemma_dec_value_complete(*x, rest);
            assert(s.skip(1) =~= enc_value(*x) + rest);
        },
        SpecValue::NewtypeStruct(x) => {
            lemma_tag_byte_round_trip(Tag::NewTypeStruct);
            assert(s[0] == spec_tag_byte(Tag::NewTypeStruct));
            lemma_dec_value_complete(*x, rest);
            assert(s.skip(1) =~= enc_value(*x) + rest);
        },
        SpecValue::UnitVariant(i) => {
            lemma_tag_byte_round_trip(Tag::UnitVariant);
            lemma_be_bytes_len(i as nat, 4);
            assert(s[0] == spec_tag_byte(Tag::UnitVariant));
            assert(s.subrange(1, 5) =~= be_bytes(i as nat, 4));
            assert(pow256(4) == 0x100000000) by {
                reveal_with_fuel(pow256, 5);
            }
            lemma_be_val_of_be_bytes(i as nat, 4);
        },
        SpecValue::NewtypeVariant(i, x) => {
            lemma_tag_byte_round_trip(Tag::NewTypeVariant);
            lemma_be_bytes_len(i as nat, 4);
            assert(s[0] == spec_tag_byte(Tag::NewTypeVariant));
            assert(s.subrange(1, 5) =~= be_bytes(i as nat, 4));
            assert(pow256(4) == 0x100000000) by {
                reveal_with_fuel(pow256, 5);
            }
            lemma_be_val_of_be_bytes(i as nat, 4);
            lemma_dec_value_complete(*x, rest);
            assert(s.skip(5) =~= enc_value(*x) + rest);
        },
        SpecValue::TupleVariant(_, _) => {
            assert(false);
        },
        SpecValue::StructVariant(_, _) => {
            assert(false);
        },
        SpecValue::Tuple(fs) => {
            lemma_fixed_arity_complete(Tag::Tuple, fs, rest, v);
        },
        SpecValue::TupleStruct(fs) => {
            lemma_fixed_arity_complete(Tag::TupleStruct, fs, rest, v);
        },
        SpecValue::Struct(fs) => {
            lemma_fixed_arity_complete(Tag::Struct, fs, rest, v);
        },
        SpecValue::Array(es) => {
            lemma_tag_byte_round_trip(Tag::SizedSeq);
            lemma_be_bytes_len(es.len(), 8);
            assert(s[0] == spec_tag_byte(Tag::SizedSeq));
            assert(s.subrange(1, 9) =~= be_bytes(es.len(), 8));
            assert(pow256(8) == 0x10000000000000000) by {
                reveal_with_fuel(pow256, 9);
            }
            lemma_be_val_of_be_bytes(es.len(), 8);
            lemma_dec_list_complete(es, rest);
            assert(s.skip(9) =~= enc_list(es) + rest);
        },
        SpecValue::UnsizedArray(es) => {
            lemma_tag_byte_round_trip(Tag::UnsizedSeq);
            assert(s[0] == spec_tag_byte(Tag::UnsizedSeq));
            lemma_dec_unsized_list_complete(es, rest);
            assert(s.skip(1) =~= enc_list(es) + seq![spec_tag_byte(Tag::UnsizedSeqEnd)] + rest);
        },
        SpecValue::Mapping(es) => {
            lemma_tag_byte_round_trip(Tag::SizedMap);
            lemma_be_bytes_len(es.len(), 8);
            assert(s[0] == spec_tag_byte(Tag::SizedMap));
            assert(s.subrange(1, 9) =~= be_bytes(es.len(), 8));
            assert(pow256(8) == 0x10000000000000000) by {
                reveal_with_fuel(pow256, 9);
            }
            lemma_be_val_of_be_bytes(es.len(), 8);
            lemma_dec_entries_complete(es, rest);
            assert(s.skip(9) =~= enc_entries(es) + rest);
        },
        SpecValue::UnsizedMapping(es) => {
            lemma_tag_byte_round_trip(Tag::UnsizedMap);
            assert(s[0] == spec_tag_byte(Tag::UnsizedMap));
            lemma_dec_unsized_entries_complete(es, rest);
            assert(s.skip(1) =~= enc_entries(es) + seq![spec_tag_byte(Tag::UnsizedSeqEnd)]
                + rest);
        },
    }
}

/// The character arm of completeness: a character's payload reads back
/// as the same scalar at the same width.
proof fn lemma_char_complete(c: char, rest: Seq<u8>)
    ensures
        dec_value(enc_value(SpecValue::Char(c)) + rest) == Ok::<(SpecValue, int), Error<
            NoWriterError,
        >>((SpecValue::Char(c), enc_value(SpecValue::Char(c)).len() as int)),
{
    broadcast use vstd::utf8::char_is_scalar;

    let e = enc_value(SpecValue::Char(c));
    let s = e + rest;
    let payload = encode_scalar(c as u32);
    let w = payload.len() as int;
    assert(encode_utf8(seq![c]) =~= payload) by {
        assert(seq![c].drop_first() =~= Seq::<char>::empty());
        assert(seq![c][0] == c);
        assert(encode_utf8(Seq::<char>::empty()) =~= Seq::<u8>::empty());
    }
    encode_utf8_first_scalar(seq![c]);
    assert(1 <= w <= 4);
    assert(e[0] == (13 + payload.len()) as u8);
    assert(s[0] == e[0]);
    assert(s.subrange(1, 1 + w) =~= payload);
    assert(valid_first_scalar(s.subrange(1, 1 + w)));
    assert(length_of_first_scalar(s.subrange(1, 1 + w)) == w);
    vstd::utf8::char_u32_cast(c, decode_first_scalar(payload));
}

/// The length-prefixed string arm of completeness.
proof fn lemma_str_complete(b: Seq<u8>, rest: Seq<u8>)
    requires
        b.len() <= usize::MAX,
        valid_utf8(b),
    ensures
        dec_value(enc_value(SpecValue::Str(b)) + rest) == Ok::<(SpecValue, int), Error<
            NoWriterError,
        >>((SpecValue::Str(b), enc_value(SpecValue::Str(b)).len() as int)),
{
    let e = enc_value(SpecValue::Str(b));
    let s = e + rest;
    lemma_tag_byte_round_trip(Tag::Str);
    lemma_be_bytes_len(b.len(), 8);
    assert(s[0] == spec_tag_byte(Tag::Str));
    assert(s.subrange(1, 9) =~= be_bytes(b.len(), 8));
    assert(pow256(8) == 0x10000000000000000) by {
        reveal_with_fuel(pow256, 9);
    }
    lemma_be_val_of_be_bytes(b.len(), 8);
    assert(s.subrange(9, 9 + b.len() as int) =~= b);
}

/// The byte-array arm of completeness.
proof fn lemma_bytes_complete(b: Seq<u8>, rest: Seq<u8>)
    requires
        b.len() <= usize::MAX,
    ensures
        dec_value(enc_value(SpecValue::Bytes(b)) + rest) == Ok::<(SpecValue, int), Error<
            NoWriterError,
        >>((SpecValue::Bytes(b), enc_value(SpecValue::Bytes(b)).len() as int)),
{
    let e = enc_value(SpecValue::Bytes(b));
    let s = e + rest;
    lemma_tag_byte_round_trip(Tag::ByteArray);
    lemma_be_bytes_len(b.len(), 8);
    assert(s[0] == spec_tag_byte(Tag::ByteArray));
    assert(s.subrange(1, 9) =~= be_bytes(b.len(), 8));
    assert(pow256(8) == 0x10000000000000000) by {
        reveal_with_fuel(pow256, 9);
    }
    lemma_be_val_of_be_bytes(b.len(), 8);
    assert(s.subrange(9, 9 + b.len() as int) =~= b);
}

/// The end-marked string arm of completeness: the scan stops at the true
/// terminator because the marker can never occur inside the payload.
proof fn lemma_unsized_str_complete(b: Seq<u8>, rest: Seq<u8>)
    requires
        valid_utf8(b),
    ensures
        dec_value(enc_value(SpecValue::UnsizedStr(b)) + rest) == Ok::<(SpecValue, int), Error<
            NoWriterError,
        >>((SpecValue::UnsizedStr(b), enc_value(SpecValue::UnsizedStr(b)).len() as int)),
{
    let e = enc_value(SpecValue::UnsizedStr(b));
    let s = e + rest;
    lemma_tag_byte_round_trip(Tag::NullTerminatedString);
    assert(s[0] == spec_tag_byte(Tag::NullTerminatedString));
    assert(s.skip(1) =~= b + seq![crate::END_MARKER_FIRST, crate::END_MARKER_SECOND] + rest);
    lemma_find_marker_after_utf8(b, rest);
    assert(s.subrange(1, 1 + b.len() as int) =~= b);
}

/// The shared completeness argument of the three fixed-arity shapes.
proof fn lemma_fixed_arity_complete(tag: Tag, fs: Seq<SpecValue>, rest: Seq<u8>, v: SpecValue)
    requires
        wf_value(v),
        self_describing(v),
        tag == Tag::Tuple || tag == Tag::TupleStruct || tag == Tag::Struct,
        v == (match tag {
            Tag::Tuple => SpecValue::Tuple(fs),
            Tag::TupleStruct => SpecValue::TupleStruct(fs),
            _ => SpecValue::Struct(fs),
        }),
        fs.len() <= 255,
        encodable_list(fs),
        texts_valid_list(fs),
        self_describing_list(fs),
        enc_value(v) == (seq![spec_tag_byte(tag)] + be_bytes(fs.len(), 1)) + enc_list(fs),
    ensures
        dec_value(enc_value(v) + rest) == Ok::<(SpecValue, int), Error<NoWriterError>>(
            (v, enc_value(v).len() as int),
        ),
    decreases fs, 2int,
{
    let e = enc_value(v);
    let s = e + rest;
    lemma_tag_byte_round_trip(tag);
    assert(be_bytes(fs.len(), 1) =~= seq![fs.len() as u8]) by {
        reveal_with_fuel(be_bytes, 2);
    }
    assert(s[0] == spec_tag_byte(tag));
    assert(s[1] == fs.len() as u8);
    assert((fs.len() as u8) as nat == fs.len());
    lemma_dec_list_complete(fs, rest);
    assert(s.skip(2) =~= enc_list(fs) + rest);
}

/// Decoding the encodings of a run of well-formed, variant-free values,
/// counted, consumes exactly those encodings and yields the run back.
pub proof fn lemma_dec_list_complete(vs: Seq<SpecValue>, rest: Seq<u8>)
    requires
        encodable_list(vs),
        texts_valid_list(vs),
        self_describing_list(vs),
    ensures
        dec_list(enc_list(vs) + rest, vs.len()) == Ok::<(Seq<SpecValue>, int), Error<
            NoWriterError,
        >>((vs, enc_list(vs).len() as int)),
    decreases vs, 1int,
{
    let s = enc_list(vs) + rest;
    if vs.len() == 0 {
        assert(enc_list(vs) =~= Seq::<u8>::empty());
        assert(vs =~= Seq::<SpecValue>::empty());
    } else {
        let head = vs[0];
        let tail = vs.drop_first();
        assert(enc_list(vs) == enc_value(head) + enc_list(tail));
        assert(s =~= enc_value(head) + (enc_list(tail) + rest));
        lemma_dec_value_complete(head, enc_list(tail) + rest);
        lemma_enc_value_nonempty(head);
        let k = enc_value(head).len() as int;
        assert(s.skip(k) =~= enc_list(tail) + rest);
        lemma_dec_list_complete(tail, rest);
        assert(seq![head] + tail =~= vs);
    }
}

/// Decoding the encodings of a run of well-formed, variant-free values,
/// closed by the end tag, consumes exactly through the end tag and yields
/// the run back.
pub proof fn lemma_dec_unsized_list_complete(vs: Seq<SpecValue>, rest: Seq<u8>)
    requires
        encodable_list(vs),
        texts_valid_list(vs),
        self_describing_list(vs),
    ensures
        dec_unsized_list(enc_list(vs) + seq![spec_tag_byte(Tag::UnsizedSeqEnd)] + rest) == Ok::<
            (Seq<SpecValue>, int),
            Error<NoWriterError>,
        >((vs, enc_list(vs).len() as int + 1)),
    decreases vs, 1int,
{
    let s = enc_list(vs) + seq![spec_tag_byte(Tag::UnsizedSeqEnd)] + rest;
    if vs.len() == 0 {
        assert(enc_list(vs) =~= Seq::<u8>::empty());
        assert(s[0] == spec_tag_byte(Tag::UnsizedSeqEnd));
        assert(vs =~= Seq::<SpecValue>::empty());
    } else {
        let head = vs[0];
        let tail = vs.drop_first();
        assert(enc_list(vs) == enc_value(head) + enc_list(tail));
        assert(s =~= enc_value(head) + (enc_list(tail) + seq![spec_tag_byte(Tag::UnsizedSeqEnd)]
            + rest));
        lemma_enc_value_head(head);
        assert(s[0] == enc_value(head)[0]);
        lemma_dec_value_complete(
            head,
            enc_list(tail) + seq![spec_tag_byte(Tag::UnsizedSeqEnd)] + rest,
        );
        let k = enc_value(head).len() as int;
        assert(s.skip(k) =~= enc_list(tail) + seq![spec_tag_byte(Tag::UnsizedSeqEnd)] + rest);
        lemma_dec_unsized_list_complete(tail, rest);
        assert(seq![head] + tail =~= vs);
    }
}

/// Decoding the encodings of well-formed, variant-free entries, counted,
/// consumes exactly those encodings and yields the entries back.
pub proof fn lemma_dec_entries_complete(es: Seq<(SpecValue, SpecValue)>, rest: Seq<u8>)
    requires
        encodable_entries(es),
        texts_valid_entries(es),
        self_describing_entries(es),
    ensures
        dec_entries(enc_entries(es) + rest, es.len()) == Ok::<(Seq<(SpecValue, SpecValue)>, int),
            Error<NoWriterError>>((es, enc_entries(es).len() as int)),
    decreases es, 1int,
{
    let s = enc_entries(es) + rest;
    if es.len() == 0 {
        assert(enc_entries(es) =~= Seq::<u8>::empty());
        assert(es =~= Seq::<(SpecValue, SpecValue)>::empty());
    } else {
        let k = es[0].0;
        let v = es[0].1;
        let tail = es.drop_first();
        assert(enc_entries(es) == enc_value(k) + enc_value(v) + enc_entries(tail));
        assert(s =~= enc_value(k) + (enc_value(v) + (enc_entries(tail) + rest)));
        lemma_dec_value_complete(k, enc_value(v) + (enc_entries(tail) + rest));
        lemma_enc_value_nonempty(k);
        let ck = enc_value(k).len() as int;
        assert(s.skip(ck) =~= enc_value(v) + (enc_entries(tail) + rest));
        lemma_dec_value_complete(v, enc_entries(tail) + rest);
        lemma_enc_value_nonempty(v);
        let cv = enc_value(v).len() as int;
        assert(s.skip(ck).skip(cv) =~= enc_entries(tail) + rest);
        assert(s.skip(ck + cv) =~= s.skip(ck).skip(cv));
        lemma_dec_entries_complete(tail, rest);
        assert(seq![(k, v)] + tail =~= es);
    }
}

/// Decoding the encodings of well-formed, variant-free entries, closed by
/// the end tag, consumes exactly through the end tag and yields the
/// entries back.
#[verifier::rlimit(100)]
pub proof fn lemma_dec_unsized_entries_complete(es: Seq<(SpecValue, SpecValue)>, rest: Seq<u8>)
    requires
        encodable_entries(es),
        texts_valid_entries(es),
        self_describing_entries(es),
    ensures
        dec_unsized_entries(enc_entries(es) + seq![spec_tag_byte(Tag::UnsizedSeqEnd)] + rest)
            == Ok::<(Seq<(SpecValue, SpecValue)>, int), Error<NoWriterError>>(
            (es, enc_entries(es).len() as int + 1),
        ),
    decreases es, 1int,
{
    let s = enc_entries(es) + seq![spec_tag_byte(Tag::UnsizedSeqEnd)] + rest;
    if es.len() == 0 {
        assert(enc_entries(es) =~= Seq::<u8>::empty());
        assert(s[0] == spec_tag_byte(Tag::UnsizedSeqEnd));
        assert(es =~= Seq::<(SpecValue, SpecValue)>::empty());
    } else {
        let k = es[0].0;
        let v = es[0].1;
        let tail = es.drop_first();
        assert(enc_entries(es) == enc_value(k) + enc_value(v) + enc_entries(tail));
        assert(s =~= enc_value(k) + (enc_value(v) + (enc_entries(tail) + seq![
            spec_tag_byte(Tag::UnsizedSeqEnd),
        ] + rest)));
        lemma_enc_value_head(k);
        assert(s[0] == enc_value(k)[0]);
        lemma_dec_value_complete(
            k,
            enc_value(v) + (enc_entries(tail) + seq![spec_tag_byte(Tag::UnsizedSeqEnd)] + rest),
        );
        let ck = enc_value(k).len() as int;
        assert(s.skip(ck) =~= enc_value(v) + (enc_entries(tail) + seq![
            spec_tag_byte(Tag::UnsizedSeqEnd),
        ] + rest));
        lemma_dec_value_complete(
            v,
            enc_entries(tail) + seq![spec_tag_byte(Tag::UnsizedSeqEnd)] + rest,
        );
        let cv = enc_value(v).len() as int;
        assert(s.skip(ck).skip(cv) =~= enc_entries(tail) + seq![
            spec_tag_byte(Tag::UnsizedSeqEnd),
        ] + rest);
        assert(s.skip(ck + cv) =~= s.skip(ck).skip(cv));
        lemma_dec_unsized_entries_complete(tail, rest);
        assert(seq![(k, v)] + tail =~= es);
    }
}

/// Round trip: the self-describing decode of a well-formed, variant-free
/// value's encoding yields the value back, whatever follows the encoding.
pub proof fn lemma_round_trip(v: SpecValue, rest: Seq<u8>)
    requires
        wf_value(v),
        self_describing(v),
    ensures
        dec_value(enc_value(v) + rest) == Ok::<(SpecValue, int), Error<NoWriterError>>(
            (v, enc_value(v).len() as int),
        ),
{
    lemma_dec_value_complete(v, rest);
}

/// A run of elements round-trips the same whether its length went on
/// the wire up front or an end tag closed it: both forms decode to
/// containers holding exactly the same elements in the same order.
pub proof fn lemma_sized_unsized_same_contents(es: Seq<SpecValue>)
    requires
        encodable_list(es),
        texts_valid_list(es),
        self_describing_list(es),
        es.len() <= usize::MAX,
    ensures
        dec_whole(enc_value(SpecValue::Array(es))) == Ok::<SpecValue, Error<NoWriterError>>(
            SpecValue::Array(es),
        ),
        dec_whole(enc_value(SpecValue::UnsizedArray(es))) == Ok::<SpecValue, Error<
            NoWriterError,
        >>(SpecValue::UnsizedArray(es)),
{
    lemma_dec_value_complete(SpecValue::Array(es), Seq::empty());
    assert(enc_value(SpecValue::Array(es)) + Seq::<u8>::empty() =~= enc_value(
        SpecValue::Array(es),
    ));
    lemma_dec_value_complete(SpecValue::UnsizedArray(es), Seq::empty());
    assert(enc_value(SpecValue::UnsizedArray(es)) + Seq::<u8>::empty() =~= enc_value(
        SpecValue::UnsizedArray(es),
    ));
}

/// The dynamic tree is a pure function of the byte stream, and it is
/// faithful: whatever a whole-input decode accepts is well-formed,
/// variant-free, and re-encodes to exactly the input bytes.
pub proof fn lemma_dynamic_tree_faithful(s: Seq<u8>)
    ensures
        match dec_whole(s) {
            Ok(v) => {
                &&& wf_value(v)
                &&& self_describing(v)
                &&& enc_value(v) == s
            },
            Err(_) => true,
        },
{
    lemma_dec_value_sound(s);
    if let Ok((v, n)) = dec_value(s) {
        if n == s.len() {
            assert(s.subrange(0, n) =~= s);
        }
    }
}

/// Round trip at the whole-input level: decoding exactly a well-formed,
/// variant-free value's encoding yields the value, and any byte after it
/// is reported as that many trailing bytes.
pub proof fn lemma_whole_round_trip(v: SpecValue, extra: Seq<u8>)
    requires
        wf_value(v),
        self_describing(v),
        extra.len() <= usize::MAX,
    ensures
        dec_whole(enc_value(v)) == Ok::<SpecValue, Error<NoWriterError>>(v),
        extra.len() > 0 ==> dec_whole(enc_value(v) + extra) == Err::<SpecValue, Error<
            NoWriterError,
        >>(Error::TrailingBytes(extra.len() as usize)),
{
    lemma_dec_value_complete(v, Seq::empty());
    assert(enc_value(v) + Seq::<u8>::empty() =~= enc_value(v));
    lemma_dec_value_complete(v, extra);
}

} // verus!
