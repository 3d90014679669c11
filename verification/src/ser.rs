//! The encode engine.
//!
//! A [`Serializer`] wraps a sink and exposes one emit method per wire
//! shape; [`Serializer::serialize_value`] walks a whole value tree
//! depth-first.  Every method's contract says exactly which bytes reach
//! the sink, in terms of the grammar in [`crate::grammar`]: within the
//! sink's remaining budget encoding cannot fail, and beyond it a sink
//! failure is certain, so success is pinned down in both directions.

use vstd::prelude::*;

use crate::bigendian::{be_bytes, push_be};
use crate::error::{Error, NoWriterError};
use crate::grammar::{
    enc_entries, enc_list, enc_number, enc_value, lemma_enc_entries_concat, lemma_enc_list_concat,
};
use crate::tag::{spec_tag_byte, Tag};
use crate::text::encode_char_utf8;
use crate::value::{
    encodable, encodable_entries, encodable_list, lemma_encodable_entries_pointwise,
    lemma_encodable_list_pointwise, lemma_view_entries, lemma_view_list, view_entries, view_list,
    view_value, Number, SpecValue, Value, ValueEntry,
};
use crate::write::{BuffWriter, DummyWriter, EndOfBuff, Write};

verus! {

/// The encode engine: one instance wraps one sink for the duration of a
/// single top-level value's encoding.
pub struct Serializer<W> {
    writer: W,
}

impl<W: Write> Serializer<W> {
    /// The wrapped sink's own well-formedness.
    pub closed spec fn inv(&self) -> bool {
        self.writer.inv()
    }

    /// Every byte the sink has accepted so far.
    pub closed spec fn sunk(&self) -> Seq<u8> {
        self.writer.sunk()
    }

    /// How many more bytes the sink is certain to accept.
    pub closed spec fn room(&self) -> int {
        self.writer.room()
    }

    /// The sink never holds more bytes than a machine count can address.
    pub proof fn lemma_sunk_len(&self)
        requires
            self.inv(),
        ensures
            self.sunk().len() <= usize::MAX,
    {
        self.writer.lemma_sunk_len();
    }

    /// A well-formed sink's budget is never negative.
    pub proof fn lemma_room_nonneg(&self)
        requires
            self.inv(),
        ensures
            self.room() >= 0,
    {
        self.writer.lemma_room_nonneg();
    }

    /// Wraps a sink.
    pub fn new(writer: W) -> (r: Self)
        requires
            writer.inv(),
        ensures
            r.inv(),
            r.sunk() == writer.sunk(),
            r.room() == writer.room(),
    {
        Serializer { writer }
    }

    /// Gives the sink back when the encoding is done.
    pub fn into_writer(self) -> (r: W)
        ensures
            r.inv() == self.inv(),
            r.sunk() == self.sunk(),
            r.room() == self.room(),
    {
        self.writer
    }

    /// Hands one prepared chunk to the sink, whole or not at all.
    fn emit(&mut self, bytes: &Vec<u8>) -> (r: Result<usize, Error<W::Failure>>)
        requires
            old(self).inv(),
        ensures
            final(self).inv(),
            match r {
                Ok(n) => {
                    &&& final(self).sunk() == old(self).sunk() + bytes@
                    &&& n == bytes@.len()
                    &&& bytes@.len() <= old(self).room()
                    &&& final(self).room() == old(self).room() - bytes@.len()
                },
                Err(e) => {
                    &&& e is WriterError
                    &&& final(self).sunk() == old(self).sunk()
                    &&& final(self).room() == old(self).room()
                    &&& old(self).room() < bytes@.len()
                },
            },
    {
        match self.writer.write_bytes(bytes.as_slice()) {
            Ok(n) => Ok(n),
            Err(e) => Err(Error::WriterError(e)),
        }
    }

    /// Writes one tag byte followed by a fixed-width big-endian payload.
    fn emit_tagged_be(&mut self, tag: Tag, v: u128, width: usize) -> (r: Result<
        usize,
        Error<W::Failure>,
    >)
        requires
            old(self).inv(),
            width <= 16,
        ensures
            final(self).inv(),
            ({
                let chunk = seq![spec_tag_byte(tag)] + be_bytes(v as nat, width as nat);
                match r {
                    Ok(n) => {
                        &&& final(self).sunk() == old(self).sunk() + chunk
                        &&& n == chunk.len()
                        &&& chunk.len() <= old(self).room()
                        &&& final(self).room() == old(self).room() - chunk.len()
                    },
                    Err(e) => {
                        &&& e is WriterError
                        &&& final(self).sunk() == old(self).sunk()
                        &&& final(self).room() == old(self).room()
                        &&& old(self).room() < chunk.len()
                    },
                }
            }),
    {
        let mut chunk: Vec<u8> = Vec::new();
        chunk.push(tag.to_byte());
        push_be(&mut chunk, v, width);
        proof {
            assert(chunk@ =~= seq![spec_tag_byte(tag)] + be_bytes(v as nat, width as nat));
        }
        self.emit(&chunk)
    }

    /// Writes a lone tag byte.
    fn emit_tag(&mut self, tag: Tag) -> (r: Result<usize, Error<W::Failure>>)
        requires
            old(self).inv(),
        ensures
            final(self).inv(),
            match r {
                Ok(n) => {
                    &&& final(self).sunk() == old(self).sunk() + seq![spec_tag_byte(tag)]
                    &&& n == seq![spec_tag_byte(tag)].len()
                    &&& seq![spec_tag_byte(tag)].len() <= old(self).room()
                    &&& final(self).room() == old(self).room() - seq![spec_tag_byte(tag)].len()
                },
                Err(e) => {
                    &&& e is WriterError
                    &&& final(self).sunk() == old(self).sunk()
                    &&& final(self).room() == old(self).room()
                    &&& old(self).room() < seq![spec_tag_byte(tag)].len()
                },
            },
    {
        let mut chunk: Vec<u8> = Vec::new();
        chunk.push(tag.to_byte());
        proof {
            assert(chunk@ =~= seq![spec_tag_byte(tag)]);
        }
        self.emit(&chunk)
    }

    /// Emits a boolean: one of the two boolean tags, nothing more.
    pub fn serialize_bool(&mut self, v: bool) -> (r: Result<usize, Error<W::Failure>>)
        requires
            old(self).inv(),
        ensures
            final(self).inv(),
            match r {
                Ok(n) => {
                    &&& final(self).sunk() == old(self).sunk() + enc_value(SpecValue::Bool(v))
                    &&& n == enc_value(SpecValue::Bool(v)).len()
                    &&& enc_value(SpecValue::Bool(v)).len() <= old(self).room()
                    &&& final(self).room() == old(self).room() - enc_value(SpecValue::Bool(v)).len()
                },
                Err(e) => {
                    &&& e is WriterError
                    &&& final(self).sunk() == old(self).sunk()
                    &&& final(self).room() == old(self).room()
                    &&& old(self).room() < enc_value(SpecValue::Bool(v)).len()
                },
            },
    {
        self.emit_tag(if v { Tag::BoolTrue } else { Tag::BoolFalse })
    }

    /// Emits one number: its width's tag and its big-endian bytes.
    pub fn serialize_number(&mut self, v: Number) -> (r: Result<usize, Error<W::Failure>>)
        requires
            old(self).inv(),
        ensures
            final(self).inv(),
            match r {
                Ok(n) => {
                    &&& final(self).sunk() == old(self).sunk() + enc_number(v)
                    &&& n == enc_number(v).len()
                    &&& enc_number(v).len() <= old(self).room()
                    &&& final(self).room() == old(self).room() - enc_number(v).len()
                },
                Err(e) => {
                    &&& e is WriterError
                    &&& final(self).sunk() == old(self).sunk()
                    &&& final(self).room() == old(self).room()
                    &&& old(self).room() < enc_number(v).len()
                },
            },
    {
        match v {
            Number::I8(x) => self.emit_tagged_be(Tag::I8, (x as u8) as u128, 1),
            Number::I16(x) => self.emit_tagged_be(Tag::I16, (x as u16) as u128, 2),
            Number::I32(x) => self.emit_tagged_be(Tag::I32, (x as u32) as u128, 4),
            Number::I64(x) => self.emit_tagged_be(Tag::I64, (x as u64) as u128, 8),
            Number::U8(x) => self.emit_tagged_be(Tag::U8, x as u128, 1),
            Number::U16(x) => self.emit_tagged_be(Tag::U16, x as u128, 2),
            Number::U32(x) => self.emit_tagged_be(Tag::U32, x as u128, 4),
            Number::U64(x) => self.emit_tagged_be(Tag::U64, x as u128, 8),
            Number::F32Bits(x) => self.emit_tagged_be(Tag::F32, x as u128, 4),
            Number::F64Bits(x) => self.emit_tagged_be(Tag::F64, x as u128, 8),
            Number::I128(x) => self.emit_tagged_be(Tag::I128, x as u128, 16),
            Number::U128(x) => self.emit_tagged_be(Tag::U128, x, 16),
        }
    }

    /// Emits one i8 value: its tag, then its big-endian bytes.
    pub fn serialize_i8(&mut self, v: i8) -> (r: Result<usize, Error<W::Failure>>)
        requires
            old(self).inv(),
        ensures
            final(self).inv(),
            match r {
                Ok(n) => {
                    &&& final(self).sunk() == old(self).sunk() + enc_number(Number::I8(v))
                    &&& n == enc_number(Number::I8(v)).len()
                    &&& enc_number(Number::I8(v)).len() <= old(self).room()
                    &&& final(self).room() == old(self).room() - enc_number(Number::I8(v)).len()
                },
                Err(e) => {
                    &&& e is WriterError
                    &&& final(self).sunk() == old(self).sunk()
                    &&& final(self).room() == old(self).room()
                    &&& old(self).room() < enc_number(Number::I8(v)).len()
                },
            },
    {
        self.serialize_number(Number::I8(v))
    }

    /// Emits one i16 value: its tag, then its big-endian bytes.
    pub fn serialize_i16(&mut self, v: i16) -> (r: Result<usize, Error<W::Failure>>)
        requires
            old(self).inv(),
        ensures
            final(self).inv(),
            match r {
                Ok(n) => {
                    &&& final(self).sunk() == old(self).sunk() + enc_number(Number::I16(v))
                    &&& n == enc_number(Number::I16(v)).len()
                    &&& enc_number(Number::I16(v)).len() <= old(self).room()
                    &&& final(self).room() == old(self).room() - enc_number(Number::I16(v)).len()
                },
                Err(e) => {
                    &&& e is WriterError
                    &&& final(self).sunk() == old(self).sunk()
                    &&& final(self).room() == old(self).room()
                    &&& old(self).room() < enc_number(Number::I16(v)).len()
                },
            },
    {
        self.serialize_number(Number::I16(v))
    }

    /// Emits one i32 value: its tag, then its big-endian bytes.
    pub fn serialize_i32(&mut self, v: i32) -> (r: Result<usize, Error<W::Failure>>)
        requires
            old(self).inv(),
        ensures
            final(self).inv(),
            match r {
                Ok(n) => {
                    &&& final(self).sunk() == old(self).sunk() + enc_number(Number::I32(v))
                    &&& n == enc_number(Number::I32(v)).len()
                    &&& enc_number(Number::I32(v)).len() <= old(self).room()
                    &&& final(self).room() == old(self).room() - enc_number(Number::I32(v)).len()
                },
                Err(e) => {
                    &&& e is WriterError
                    &&& final(self).sunk() == old(self).sunk()
                    &&& final(self).room() == old(self).room()
                    &&& old(self).room() < enc_number(Number::I32(v)).len()
                },
            },
    {
        self.serialize_number(Number::I32(v))
    }

    /// Emits one i64 value: its tag, then its big-endian bytes.
    pub fn serialize_i64(&mut self, v: i64) -> (r: Result<usize, Error<W::Failure>>)
        requires
            old(self).inv(),
        ensures
            final(self).inv(),
            match r {
                Ok(n) => {
                    &&& final(self).sunk() == old(self).sunk() + enc_number(Number::I64(v))
                    &&& n == enc_number(Number::I64(v)).len()
                    &&& enc_number(Number::I64(v)).len() <= old(self).room()
                    &&& final(self).room() == old(self).room() - enc_number(Number::I64(v)).len()
                },
                Err(e) => {
                    &&& e is WriterError
                    &&& final(self).sunk() == old(self).sunk()
                    &&& final(self).room() == old(self).room()
                    &&& old(self).room() < enc_number(Number::I64(v)).len()
                },
            },
    {
        self.serialize_number(Number::I64(v))
    }

    /// Emits one u8 value: its tag, then its big-endian bytes.
    pub fn serialize_u8(&mut self, v: u8) -> (r: Result<usize, Error<W::Failure>>)
        requires
            old(self).inv(),
        ensures
            final(self).inv(),
            match r {
                Ok(n) => {
                    &&& final(self).sunk() == old(self).sunk() + enc_number(Number::U8(v))
                    &&& n == enc_number(Number::U8(v)).len()
                    &&& enc_number(Number::U8(v)).len() <= old(self).room()
                    &&& final(self).room() == old(self).room() - enc_number(Number::U8(v)).len()
                },
                Err(e) => {
                    &&& e is WriterError
                    &&& final(self).sunk() == old(self).sunk()
                    &&& final(self).room() == old(self).room()
                    &&& old(self).room() < enc_number(Number::U8(v)).len()
                },
            },
    {
        self.serialize_number(Number::U8(v))
    }

    /// Emits one u16 value: its tag, then its big-endian bytes.
    pub fn serialize_u16(&mut self, v: u16) -> (r: Result<usize, Error<W::Failure>>)
        requires
            old(self).inv(),
        ensures
            final(self).inv(),
            match r {
                Ok(n) => {
                    &&& final(self).sunk() == old(self).sunk() + enc_number(Number::U16(v))
                    &&& n == enc_number(Number::U16(v)).len()
                    &&& enc_number(Number::U16(v)).len() <= old(self).room()
                    &&& final(self).room() == old(self).room() - enc_number(Number::U16(v)).len()
                },
                Err(e) => {
                    &&& e is WriterError
                    &&& final(self).sunk() == old(self).sunk()
                    &&& final(self).room() == old(self).room()
                    &&& old(self).room() < enc_number(Number::U16(v)).len()
                },
            },
    {
        self.serialize_number(Number::U16(v))
    }

    /// Emits one u32 value: its tag, then its big-endian bytes.
    pub fn serialize_u32(&mut self, v: u32) -> (r: Result<usize, Error<W::Failure>>)
        requires
            old(self).inv(),
        ensures
            final(self).inv(),
            match r {
                Ok(n) => {
                    &&& final(self).sunk() == old(self).sunk() + enc_number(Number::U32(v))
                    &&& n == enc_number(Number::U32(v)).len()
                    &&& enc_number(Number::U32(v)).len() <= old(self).room()
                    &&& final(self).room() == old(self).room() - enc_number(Number::U32(v)).len()
                },
                Err(e) => {
                    &&& e is WriterError
                    &&& final(self).sunk() == old(self).sunk()
                    &&& final(self).room() == old(self).room()
                    &&& old(self).room() < enc_number(Number::U32(v)).len()
                },
            },
    {
        self.serialize_number(Number::U32(v))
    }

    /// Emits one u64 value: its tag, then its big-endian bytes.
    pub fn serialize_u64(&mut self, v: u64) -> (r: Result<usize, Error<W::Failure>>)
        requires
            old(self).inv(),
        ensures
            final(self).inv(),
            match r {
                Ok(n) => {
                    &&& final(self).sunk() == old(self).sunk() + enc_number(Number::U64(v))
                    &&& n == enc_number(Number::U64(v)).len()
                    &&& enc_number(Number::U64(v)).len() <= old(self).room()
                    &&& final(self).room() == old(self).room() - enc_number(Number::U64(v)).len()
                },
                Err(e) => {
                    &&& e is WriterError
                    &&& final(self).sunk() == old(self).sunk()
                    &&& final(self).room() == old(self).room()
                    &&& old(self).room() < enc_number(Number::U64(v)).len()
                },
            },
    {
        self.serialize_number(Number::U64(v))
    }

    /// Emits one i128 value: its tag, then its big-endian bytes.
    pub fn serialize_i128(&mut self, v: i128) -> (r: Result<usize, Error<W::Failure>>)
        requires
            old(self).inv(),
        ensures
            final(self).inv(),
            match r {
                Ok(n) => {
                    &&& final(self).sunk() == old(self).sunk() + enc_number(Number::I128(v))
                    &&& n == enc_number(Number::I128(v)).len()
                    &&& enc_number(Number::I128(v)).len() <= old(self).room()
                    &&& final(self).room() == old(self).room() - enc_number(Number::I128(v)).len()
                },
                Err(e) => {
                    &&& e is WriterError
                    &&& final(self).sunk() == old(self).sunk()
                    &&& final(self).room() == old(self).room()
                    &&& old(self).room() < enc_number(Number::I128(v)).len()
                },
            },
    {
        self.serialize_number(Number::I128(v))
    }

    /// Emits one u128 value: its tag, then its big-endian bytes.
    pub fn serialize_u128(&mut self, v: u128) -> (r: Result<usize, Error<W::Failure>>)
        requires
            old(self).inv(),
        ensures
            final(self).inv(),
            match r {
                Ok(n) => {
                    &&& final(self).sunk() == old(self).sunk() + enc_number(Number::U128(v))
                    &&& n == enc_number(Number::U128(v)).len()
                    &&& enc_number(Number::U128(v)).len() <= old(self).room()
                    &&& final(self).room() == old(self).room() - enc_number(Number::U128(v)).len()
                },
                Err(e) => {
                    &&& e is WriterError
                    &&& final(self).sunk() == old(self).sunk()
                    &&& final(self).room() == old(self).room()
                    &&& old(self).room() < enc_number(Number::U128(v)).len()
                },
            },
    {
        self.serialize_number(Number::U128(v))
    }

    /// Emits a 32-bit float given as its IEEE-754 bit pattern.
    pub fn serialize_f32_bits(&mut self, v: u32) -> (r: Result<usize, Error<W::Failure>>)
        requires
            old(self).inv(),
        ensures
            final(self).inv(),
            match r {
                Ok(n) => {
                    &&& final(self).sunk() == old(self).sunk() + enc_number(Number::F32Bits(v))
                    &&& n == enc_number(Number::F32Bits(v)).len()
                    &&& enc_number(Number::F32Bits(v)).len() <= old(self).room()
                    &&& final(self).room() == old(self).room() - enc_number(Number::F32Bits(v)).len()
                },
                Err(e) => {
                    &&& e is WriterError
                    &&& final(self).sunk() == old(self).sunk()
                    &&& final(self).room() == old(self).room()
                    &&& old(self).room() < enc_number(Number::F32Bits(v)).len()
                },
            },
    {
        self.serialize_number(Number::F32Bits(v))
    }

    /// Emits a 64-bit float given as its IEEE-754 bit pattern.
    pub fn serialize_f64_bits(&mut self, v: u64) -> (r: Result<usize, Error<W::Failure>>)
        requires
            old(self).inv(),
        ensures
            final(self).inv(),
            match r {
                Ok(n) => {
                    &&& final(self).sunk() == old(self).sunk() + enc_number(Number::F64Bits(v))
                    &&& n == enc_number(Number::F64Bits(v)).len()
                    &&& enc_number(Number::F64Bits(v)).len() <= old(self).room()
                    &&& final(self).room() == old(self).room() - enc_number(Number::F64Bits(v)).len()
                },
                Err(e) => {
                    &&& e is WriterError
                    &&& final(self).sunk() == old(self).sunk()
                    &&& final(self).room() == old(self).room()
                    &&& old(self).room() < enc_number(Number::F64Bits(v)).len()
                },
            },
    {
        self.serialize_number(Number::F64Bits(v))
    }

    /// Emits one character: a tag naming its UTF-8 width, then those
    /// bytes.
    pub fn serialize_char(&mut self, v: char) -> (r: Result<usize, Error<W::Failure>>)
        requires
            old(self).inv(),
        ensures
            final(self).inv(),
            match r {
                Ok(n) => {
                    &&& final(self).sunk() == old(self).sunk() + enc_value(SpecValue::Char(v))
                    &&& n == enc_value(SpecValue::Char(v)).len()
                    &&& enc_value(SpecValue::Char(v)).len() <= old(self).room()
                    &&& final(self).room() == old(self).room() - enc_value(SpecValue::Char(v)).len()
                },
                Err(e) => {
                    &&& e is WriterError
                    &&& final(self).sunk() == old(self).sunk()
                    &&& final(self).room() == old(self).room()
                    &&& old(self).room() < enc_value(SpecValue::Char(v)).len()
                },
            },
    {
        let payload = encode_char_utf8(v);
        let mut chunk: Vec<u8> = Vec::new();
        chunk.push(13 + (payload.len() as u8));
        let mut i: usize = 0;
        while i < payload.len()
            invariant
                i <= payload@.len(),
                payload@.len() <= 4,
                chunk@ =~= seq![(13 + payload@.len()) as u8] + payload@.subrange(0, i as int),
            decreases payload@.len() - i,
        {
            chunk.push(payload[i]);
            proof {
                assert(payload@.subrange(0, i as int + 1) =~= payload@.subrange(0, i as int).push(
                    payload@[i as int],
                ));
            }
            i = i + 1;
        }
        proof {
            assert(payload@.subrange(0, payload@.len() as int) =~= payload@);
            assert(chunk@ =~= enc_value(SpecValue::Char(v)));
        }
        self.emit(&chunk)
    }

    /// Emits a length-prefixed string from its UTF-8 bytes.
    pub fn serialize_str(&mut self, v: &[u8]) -> (r: Result<usize, Error<W::Failure>>)
        requires
            old(self).inv(),
        ensures
            final(self).inv(),
            match r {
                Ok(n) => {
                    &&& final(self).sunk() == old(self).sunk() + enc_value(SpecValue::Str(v@))
                    &&& n == enc_value(SpecValue::Str(v@)).len()
                    &&& enc_value(SpecValue::Str(v@)).len() <= old(self).room()
                    &&& final(self).room() == old(self).room() - enc_value(SpecValue::Str(v@)).len()
                },
                Err(e) => {
                    &&& e is WriterError
                    &&& final(self).sunk() == old(self).sunk()
                    &&& final(self).room() == old(self).room()
                    &&& old(self).room() < enc_value(SpecValue::Str(v@)).len()
                },
            },
    {
        self.emit_prefixed(Tag::Str, v)
    }

    /// Emits a length-prefixed raw byte array.
    pub fn serialize_bytes(&mut self, v: &[u8]) -> (r: Result<usize, Error<W::Failure>>)
        requires
            old(self).inv(),
        ensures
            final(self).inv(),
            match r {
                Ok(n) => {
                    &&& final(self).sunk() == old(self).sunk() + enc_value(SpecValue::Bytes(v@))
                    &&& n == enc_value(SpecValue::Bytes(v@)).len()
                    &&& enc_value(SpecValue::Bytes(v@)).len() <= old(self).room()
                    &&& final(self).room() == old(self).room() - enc_value(SpecValue::Bytes(v@)).len()
                },
                Err(e) => {
                    &&& e is WriterError
                    &&& final(self).sunk() == old(self).sunk()
                    &&& final(self).room() == old(self).room()
                    &&& old(self).room() < enc_value(SpecValue::Bytes(v@)).len()
                },
            },
    {
        self.emit_prefixed(Tag::ByteArray, v)
    }

    /// Writes tag, 8-byte length, then the payload, as one chunk.
    fn emit_prefixed(&mut self, tag: Tag, v: &[u8]) -> (r: Result<usize, Error<W::Failure>>)
        requires
            old(self).inv(),
        ensures
            final(self).inv(),
            ({
                let chunk = seq![spec_tag_byte(tag)] + be_bytes(v@.len(), 8) + v@;
                match r {
                    Ok(n) => {
                        &&& final(self).sunk() == old(self).sunk() + chunk
                        &&& n == chunk.len()
                        &&& chunk.len() <= old(self).room()
                        &&& final(self).room() == old(self).room() - chunk.len()
                    },
                    Err(e) => {
                        &&& e is WriterError
                        &&& final(self).sunk() == old(self).sunk()
                        &&& final(self).room() == old(self).room()
                        &&& old(self).room() < chunk.len()
                    },
                }
            }),
    {
        let len = v.len();
        let mut chunk: Vec<u8> = Vec::new();
        chunk.push(tag.to_byte());
        push_be(&mut chunk, len as u128, 8);
        chunk.extend_from_slice(v);
        proof {
            assert(chunk@ =~= seq![spec_tag_byte(tag)] + be_bytes(v@.len(), 8) + v@);
        }
        self.emit(&chunk)
    }

    /// Emits an end-marked string from its UTF-8 bytes: the tag, the
    /// bytes as they are, then the two marker bytes.
    pub fn collect_str(&mut self, v: &[u8]) -> (r: Result<usize, Error<W::Failure>>)
        requires
            old(self).inv(),
        ensures
            final(self).inv(),
            match r {
                Ok(n) => {
                    &&& final(self).sunk() == old(self).sunk() + enc_value(SpecValue::UnsizedStr(v@))
                    &&& n == enc_value(SpecValue::UnsizedStr(v@)).len()
                    &&& enc_value(SpecValue::UnsizedStr(v@)).len() <= old(self).room()
                    &&& final(self).room() == old(self).room() - enc_value(SpecValue::UnsizedStr(v@)).len()
                },
                Err(e) => {
                    &&& e is WriterError
                    &&& final(self).sunk() == old(self).sunk()
                    &&& final(self).room() == old(self).room()
                    &&& old(self).room() < enc_value(SpecValue::UnsizedStr(v@)).len()
                },
            },
    {
        let mut chunk: Vec<u8> = Vec::new();
        chunk.push(Tag::NullTerminatedString.to_byte());
        chunk.extend_from_slice(v);
        chunk.push(crate::END_MARKER_FIRST);
        chunk.push(crate::END_MARKER_SECOND);
        proof {
            assert(chunk@ =~= enc_value(SpecValue::UnsizedStr(v@)));
        }
        self.emit(&chunk)
    }

    /// Emits the unit value: its tag alone.
    pub fn serialize_unit(&mut self) -> (r: Result<usize, Error<W::Failure>>)
        requires
            old(self).inv(),
        ensures
            final(self).inv(),
            match r {
                Ok(n) => {
                    &&& final(self).sunk() == old(self).sunk() + enc_value(SpecValue::Unit)
                    &&& n == enc_value(SpecValue::Unit).len()
                    &&& enc_value(SpecValue::Unit).len() <= old(self).room()
                    &&& final(self).room() == old(self).room() - enc_value(SpecValue::Unit).len()
                },
                Err(e) => {
                    &&& e is WriterError
                    &&& final(self).sunk() == old(self).sunk()
                    &&& final(self).room() == old(self).room()
                    &&& old(self).room() < enc_value(SpecValue::Unit).len()
                },
            },
    {
        let r = self.emit_tag(Tag::Unit);
        proof {
            assert(enc_value(SpecValue::Unit) =~= seq![spec_tag_byte(Tag::Unit)]);
        }
        r
    }

    /// Emits a unit struct: its tag alone.
    pub fn serialize_unit_struct(&mut self) -> (r: Result<usize, Error<W::Failure>>)
        requires
            old(self).inv(),
        ensures
            final(self).inv(),
            match r {
                Ok(n) => {
                    &&& final(self).sunk() == old(self).sunk() + enc_value(SpecValue::UnitStruct)
                    &&& n == enc_value(SpecValue::UnitStruct).len()
                    &&& enc_value(SpecValue::UnitStruct).len() <= old(self).room()
                    &&& final(self).room() == old(self).room() - enc_value(SpecValue::UnitStruct).len()
                },
                Err(e) => {
                    &&& e is WriterError
                    &&& final(self).sunk() == old(self).sunk()
                    &&& final(self).room() == old(self).room()
                    &&& old(self).room() < enc_value(SpecValue::UnitStruct).len()
                },
            },
    {
        let r = self.emit_tag(Tag::UnitStruct);
        proof {
            assert(enc_value(SpecValue::UnitStruct) =~= seq![spec_tag_byte(Tag::UnitStruct)]);
        }
        r
    }

    /// Emits an absent optional: the none tag alone.
    pub fn serialize_none(&mut self) -> (r: Result<usize, Error<W::Failure>>)
        requires
            old(self).inv(),
        ensures
            final(self).inv(),
            match r {
                Ok(n) => {
                    &&& final(self).sunk() == old(self).sunk() + enc_value(SpecValue::OptionNone)
                    &&& n == enc_value(SpecValue::OptionNone).len()
                    &&& enc_value(SpecValue::OptionNone).len() <= old(self).room()
                    &&& final(self).room() == old(self).room() - enc_value(SpecValue::OptionNone).len()
                },
                Err(e) => {
                    &&& e is WriterError
                    &&& final(self).sunk() == old(self).sunk()
                    &&& final(self).room() == old(self).room()
                    &&& old(self).room() < enc_value(SpecValue::OptionNone).len()
                },
            },
    {
        let r = self.emit_tag(Tag::OptionNone);
        proof {
            assert(enc_value(SpecValue::OptionNone) =~= seq![spec_tag_byte(Tag::OptionNone)]);
        }
        r
    }

    /// Opens a present optional: the some tag; the inner value's emission
    /// follows.
    pub fn serialize_some(&mut self) -> (r: Result<usize, Error<W::Failure>>)
        requires
            old(self).inv(),
        ensures
            final(self).inv(),
            match r {
                Ok(n) => {
                    &&& final(self).sunk() == old(self).sunk() + seq![spec_tag_byte(Tag::OptionSome)]
                    &&& n == seq![spec_tag_byte(Tag::OptionSome)].len()
                    &&& seq![spec_tag_byte(Tag::OptionSome)].len() <= old(self).room()
                    &&& final(self).room() == old(self).room() - seq![spec_tag_byte(Tag::OptionSome)].len()
                },
                Err(e) => {
                    &&& e is WriterError
                    &&& final(self).sunk() == old(self).sunk()
                    &&& final(self).room() == old(self).room()
                    &&& old(self).room() < seq![spec_tag_byte(Tag::OptionSome)].len()
                },
            },
    {
        self.emit_tag(Tag::OptionSome)
    }

    /// Opens a newtype struct: its tag; the inner value's emission
    /// follows.
    pub fn serialize_newtype_struct(&mut self) -> (r: Result<usize, Error<W::Failure>>)
        requires
            old(self).inv(),
        ensures
            final(self).inv(),
            match r {
                Ok(n) => {
                    &&& final(self).sunk() == old(self).sunk() + seq![spec_tag_byte(Tag::NewTypeStruct)]
                    &&& n == seq![spec_tag_byte(Tag::NewTypeStruct)].len()
                    &&& seq![spec_tag_byte(Tag::NewTypeStruct)].len() <= old(self).room()
                    &&& final(self).room() == old(self).room() - seq![spec_tag_byte(Tag::NewTypeStruct)].len()
                },
                Err(e) => {
                    &&& e is WriterError
                    &&& final(self).sunk() == old(self).sunk()
                    &&& final(self).room() == old(self).room()
                    &&& old(self).room() < seq![spec_tag_byte(Tag::NewTypeStruct)].len()
                },
            },
    {
        self.emit_tag(Tag::NewTypeStruct)
    }

    /// Emits a unit variant: its tag and the 4-byte variant index.
    pub fn serialize_unit_variant(&mut self, variant_index: u32) -> (r: Result<
        usize,
        Error<W::Failure>,
    >)
        requires
            old(self).inv(),
        ensures
            final(self).inv(),
            match r {
                Ok(n) => {
                    &&& final(self).sunk() == old(self).sunk() + enc_value(SpecValue::UnitVariant(variant_index))
                    &&& n == enc_value(SpecValue::UnitVariant(variant_index)).len()
                    &&& enc_value(SpecValue::UnitVariant(variant_index)).len() <= old(self).room()
                    &&& final(self).room() == old(self).room() - enc_value(SpecValue::UnitVariant(variant_index)).len()
                },
                Err(e) => {
                    &&& e is WriterError
                    &&& final(self).sunk() == old(self).sunk()
                    &&& final(self).room() == old(self).room()
                    &&& old(self).room() < enc_value(SpecValue::UnitVariant(variant_index)).len()
                },
            },
    {
        self.emit_tagged_be(Tag::UnitVariant, variant_index as u128, 4)
    }

    /// Opens a newtype variant: its tag and the 4-byte variant index; the
    /// payload's emission follows.
    pub fn serialize_newtype_variant(&mut self, variant_index: u32) -> (r: Result<
        usize,
        Error<W::Failure>,
    >)
        requires
            old(self).inv(),
        ensures
            final(self).inv(),
            match r {
                Ok(n) => {
                    &&& final(self).sunk() == old(self).sunk() + (seq![spec_tag_byte(Tag::NewTypeVariant)] + be_bytes(variant_index as nat, 4))
                    &&& n == (seq![spec_tag_byte(Tag::NewTypeVariant)] + be_bytes(variant_index as nat, 4)).len()
                    &&& (seq![spec_tag_byte(Tag::NewTypeVariant)] + be_bytes(variant_index as nat, 4)).len() <= old(self).room()
                    &&& final(self).room() == old(self).room() - (seq![spec_tag_byte(Tag::NewTypeVariant)] + be_bytes(variant_index as nat, 4)).len()
                },
                Err(e) => {
                    &&& e is WriterError
                    &&& final(self).sunk() == old(self).sunk()
                    &&& final(self).room() == old(self).room()
                    &&& old(self).room() < (seq![spec_tag_byte(Tag::NewTypeVariant)] + be_bytes(variant_index as nat, 4)).len()
                },
            },
    {
        self.emit_tagged_be(Tag::NewTypeVariant, variant_index as u128, 4)
    }

    /// Opens a tuple variant: its tag and the 4-byte variant index; the
    /// fields' emissions follow, with no count on the wire.
    pub fn serialize_tuple_variant(&mut self, variant_index: u32) -> (r: Result<
        usize,
        Error<W::Failure>,
    >)
        requires
            old(self).inv(),
        ensures
            final(self).inv(),
            match r {
                Ok(n) => {
                    &&& final(self).sunk() == old(self).sunk() + (seq![spec_tag_byte(Tag::TupleVariant)] + be_bytes(variant_index as nat, 4))
                    &&& n == (seq![spec_tag_byte(Tag::TupleVariant)] + be_bytes(variant_index as nat, 4)).len()
                    &&& (seq![spec_tag_byte(Tag::TupleVariant)] + be_bytes(variant_index as nat, 4)).len() <= old(self).room()
                    &&& final(self).room() == old(self).room() - (seq![spec_tag_byte(Tag::TupleVariant)] + be_bytes(variant_index as nat, 4)).len()
                },
                Err(e) => {
                    &&& e is WriterError
                    &&& final(self).sunk() == old(self).sunk()
                    &&& final(self).room() == old(self).room()
                    &&& old(self).room() < (seq![spec_tag_byte(Tag::TupleVariant)] + be_bytes(variant_index as nat, 4)).len()
                },
            },
    {
        self.emit_tagged_be(Tag::TupleVariant, variant_index as u128, 4)
    }

    /// Opens a struct variant: its tag and the 4-byte variant index; the
    /// fields' emissions follow, with no count on the wire.
    pub fn serialize_struct_variant(&mut self, variant_index: u32) -> (r: Result<
        usize,
        Error<W::Failure>,
    >)
        requires
            old(self).inv(),
        ensures
            final(self).inv(),
            match r {
                Ok(n) => {
                    &&& final(self).sunk() == old(self).sunk() + (seq![spec_tag_byte(Tag::StructVariant)] + be_bytes(variant_index as nat, 4))
                    &&& n == (seq![spec_tag_byte(Tag::StructVariant)] + be_bytes(variant_index as nat, 4)).len()
                    &&& (seq![spec_tag_byte(Tag::StructVariant)] + be_bytes(variant_index as nat, 4)).len() <= old(self).room()
                    &&& final(self).room() == old(self).room() - (seq![spec_tag_byte(Tag::StructVariant)] + be_bytes(variant_index as nat, 4)).len()
                },
                Err(e) => {
                    &&& e is WriterError
                    &&& final(self).sunk() == old(self).sunk()
                    &&& final(self).room() == old(self).room()
                    &&& old(self).room() < (seq![spec_tag_byte(Tag::StructVariant)] + be_bytes(variant_index as nat, 4)).len()
                },
            },
    {
        self.emit_tagged_be(Tag::StructVariant, variant_index as u128, 4)
    }

    /// Encodes a whole value tree, depth first.  On success exactly the
    /// value's wire bytes reach the sink; a sink failure means the budget
    /// was short of the encoded size, and a fixed-arity container of more
    /// than 255 fields is refused with an invalid-size error.
    #[verifier::rlimit(100)]
    pub fn serialize_value(&mut self, v: &Value) -> (r: Result<usize, Error<W::Failure>>)
        requires
            old(self).inv(),
        ensures
            final(self).inv(),
            match r {
                Ok(n) => {
                    &&& encodable(v@)
                    &&& final(self).sunk() == old(self).sunk() + enc_value(v@)
                    &&& n == enc_value(v@).len()
                    &&& enc_value(v@).len() <= old(self).room()
                    &&& final(self).room() == old(self).room() - enc_value(v@).len()
                },
                Err(e) => {
                    &&& (e is WriterError || e == Error::<W::Failure>::InvalidSize)
                    &&& (e is WriterError ==> old(self).room() < enc_value(v@).len())
                    &&& (e == Error::<W::Failure>::InvalidSize ==> !(encodable(v@)))
                },
            },
        decreases *v, 3int,
    {
        match v {
            Value::Unit => self.serialize_unit(),
            Value::UnitStruct => self.serialize_unit_struct(),
            Value::Bool(b) => self.serialize_bool(*b),
            Value::Number(n) => self.serialize_number(*n),
            Value::Char(c) => self.serialize_char(*c),
            Value::Str(b) => self.serialize_str(b.as_slice()),
            Value::UnsizedStr(b) => self.collect_str(b.as_slice()),
            Value::Bytes(b) => self.serialize_bytes(b.as_slice()),
            Value::OptionNone => self.serialize_none(),
            _ => self.serialize_value_deep(v),
        }
    }

    /// The composite arms of [`Serializer::serialize_value`]: every shape
    /// that carries nested values.
    #[verifier::rlimit(100)]
    fn serialize_value_deep(&mut self, v: &Value) -> (r: Result<usize, Error<W::Failure>>)
        requires
            old(self).inv(),
            !(v is Unit) && !(v is UnitStruct) && !(v is Bool) && !(v is Number) && !(v is Char)
                && !(v is Str) && !(v is UnsizedStr) && !(v is Bytes) && !(v is OptionNone),
        ensures
            final(self).inv(),
            match r {
                Ok(n) => {
                    &&& encodable(v@)
                    &&& final(self).sunk() == old(self).sunk() + enc_value(v@)
                    &&& n == enc_value(v@).len()
                    &&& enc_value(v@).len() <= old(self).room()
                    &&& final(self).room() == old(self).room() - enc_value(v@).len()
                },
                Err(e) => {
                    &&& (e is WriterError || e == Error::<W::Failure>::InvalidSize)
                    &&& (e is WriterError ==> old(self).room() < enc_value(v@).len())
                    &&& (e == Error::<W::Failure>::InvalidSize ==> !(encodable(v@)))
                },
            },
        decreases *v, 2int,
    {
        match v {
            Value::OptionSome(x) => {
                proof {
                    assert(enc_value(v@) == seq![spec_tag_byte(Tag::OptionSome)] + enc_value(
                        view_value(**x),
                    ));
                }
                self.wrap_one(Tag::OptionSome, &**x, Ghost(v@))
            },
            Value::NewtypeStruct(x) => {
                proof {
                    assert(enc_value(v@) == seq![spec_tag_byte(Tag::NewTypeStruct)] + enc_value(
                        view_value(**x),
                    ));
                }
                self.wrap_one(Tag::NewTypeStruct, &**x, Ghost(v@))
            },
            Value::UnitVariant(i) => {
                let r = self.serialize_unit_variant(*i);
                proof {
                    assert(enc_value(v@) == enc_value(SpecValue::UnitVariant(*i)));
                }
                r
            },
            Value::NewtypeVariant(i, x) => {
                proof {
                    assert(enc_value(v@) == (seq![spec_tag_byte(Tag::NewTypeVariant)] + be_bytes(
                        *i as nat,
                        4,
                    )) + enc_value(view_value(**x)));
                }
                self.wrap_one_indexed(Tag::NewTypeVariant, *i, &**x, Ghost(v@))
            },
            Value::TupleVariant(i, fs) => {
                proof {
                    lemma_view_list(fs@);
                    assert(enc_value(v@) == (seq![spec_tag_byte(Tag::TupleVariant)] + be_bytes(
                        *i as nat,
                        4,
                    )) + enc_list(view_list(fs@)));
                }
                self.emit_header_then_list(Tag::TupleVariant, *i as u128, 4, fs, Ghost(v@))
            },
            Value::StructVariant(i, fs) => {
                proof {
                    lemma_view_list(fs@);
                    assert(enc_value(v@) == (seq![spec_tag_byte(Tag::StructVariant)] + be_bytes(
                        *i as nat,
                        4,
                    )) + enc_list(view_list(fs@)));
                }
                self.emit_header_then_list(Tag::StructVariant, *i as u128, 4, fs, Ghost(v@))
            },
            Value::Tuple(fs) => {
                proof {
                    lemma_view_list(fs@);
                    assert(enc_value(v@) == (seq![spec_tag_byte(Tag::Tuple)] + be_bytes(
                        fs@.len(),
                        1,
                    )) + enc_list(view_list(fs@)));
                }
                self.fixed_arity(Tag::Tuple, fs, Ghost(v@))
            },
            Value::TupleStruct(fs) => {
                proof {
                    lemma_view_list(fs@);
                    assert(enc_value(v@) == (seq![spec_tag_byte(Tag::TupleStruct)] + be_bytes(
                        fs@.len(),
                        1,
                    )) + enc_list(view_list(fs@)));
                }
                self.fixed_arity(Tag::TupleStruct, fs, Ghost(v@))
            },
            Value::Struct(fs) => {
                proof {
                    lemma_view_list(fs@);
                    assert(enc_value(v@) == (seq![spec_tag_byte(Tag::Struct)] + be_bytes(
                        fs@.len(),
                        1,
                    )) + enc_list(view_list(fs@)));
                }
                self.fixed_arity(Tag::Struct, fs, Ghost(v@))
            },
            Value::Array(es) => {
                proof {
                    lemma_view_list(es@);
                    assert(enc_value(v@) == (seq![spec_tag_byte(Tag::SizedSeq)] + be_bytes(
                        es@.len(),
                        8,
                    )) + enc_list(view_list(es@)));
                }
                self.emit_header_then_list(Tag::SizedSeq, es.len() as u128, 8, es, Ghost(v@))
            },
            Value::UnsizedArray(es) => {
                proof {
                    lemma_view_list(es@);
                    assert(enc_value(v@) == seq![spec_tag_byte(Tag::UnsizedSeq)] + enc_list(
                        view_list(es@),
                    ) + seq![spec_tag_byte(Tag::UnsizedSeqEnd)]);
                }
                self.unsized_list(Tag::UnsizedSeq, es, Ghost(v@))
            },
            Value::Mapping(es) => {
                proof {
                    lemma_view_entries(es@);
                    assert(enc_value(v@) == (seq![spec_tag_byte(Tag::SizedMap)] + be_bytes(
                        es@.len(),
                        8,
                    )) + enc_entries(view_entries(es@)));
                }
                self.emit_header_then_entries(Tag::SizedMap, es.len() as u128, 8, es, Ghost(v@))
            },
            Value::UnsizedMapping(es) => {
                proof {
                    lemma_view_entries(es@);
                    assert(enc_value(v@) == seq![spec_tag_byte(Tag::UnsizedMap)] + enc_entries(
                        view_entries(es@),
                    ) + seq![spec_tag_byte(Tag::UnsizedSeqEnd)]);
                }
                self.unsized_entries(Tag::UnsizedMap, es, Ghost(v@))
            },
            _ => Err(Error::InvalidSize),  // unreachable: the primitive shapes are excluded
        }
    }

    /// Emits the values of a run back to back, in order.
    pub fn serialize_list(&mut self, items: &Vec<Value>) -> (r: Result<usize, Error<W::Failure>>)
        requires
            old(self).inv(),
        ensures
            final(self).inv(),
            match r {
                Ok(n) => {
                    &&& encodable_list(view_list(items@))
                    &&& final(self).sunk() == old(self).sunk() + enc_list(view_list(items@))
                    &&& n == enc_list(view_list(items@)).len()
                    &&& enc_list(view_list(items@)).len() <= old(self).room()
                    &&& final(self).room() == old(self).room() - enc_list(view_list(items@)).len()
                },
                Err(e) => {
                    &&& (e is WriterError || e == Error::<W::Failure>::InvalidSize)
                    &&& (e is WriterError ==> old(self).room() < enc_list(view_list(items@)).len())
                    &&& (e == Error::<W::Failure>::InvalidSize ==> !(encodable_list(view_list(items@))))
                },
            },
        decreases items@, 2int,
    {
        let ghost vl = view_list(items@);
        proof {
            lemma_view_list(items@);
            self.lemma_room_nonneg();
            assert(vl.take(0) =~= Seq::<SpecValue>::empty());
            assert(self.sunk() =~= old(self).sunk() + enc_list(vl.take(0)));
        }
        let mut wb: usize = 0;
        let mut i: usize = 0;
        let len = items.len();
        while i < len
            invariant
                self.inv(),
                i <= len,
                len == items@.len(),
                vl == view_list(items@),
                vl.len() == items@.len(),
                forall|k: int| 0 <= k < items@.len() ==> vl[k] == view_value(#[trigger] items@[k]),
                self.sunk() == old(self).sunk() + enc_list(vl.take(i as int)),
                self.room() == old(self).room() - enc_list(vl.take(i as int)).len(),
                enc_list(vl.take(i as int)).len() <= old(self).room(),
                wb == enc_list(vl.take(i as int)).len(),
                encodable_list(vl.take(i as int)),
            decreases len - i,
        {
            proof {
                lemma_encodable_list_pointwise(vl);
                assert(vl =~= vl.take(i as int) + vl.skip(i as int));
                lemma_enc_list_concat(vl.take(i as int), vl.skip(i as int));
                assert(vl.skip(i as int)[0] == vl[i as int]);
                assert(vl.skip(i as int).drop_first() =~= vl.skip(i as int + 1));
                assert(enc_list(vl.skip(i as int)) == enc_value(vl[i as int]) + enc_list(
                    vl.skip(i as int + 1),
                ));
                lemma_encodable_list_pointwise(vl.take(i as int));
                assert(view_value(items@[i as int]) == vl[i as int]);
            }
            let n = match self.serialize_value(&items[i]) {
                Ok(n) => n,
                Err(e) => {
                    proof {
                        if e == Error::<W::Failure>::InvalidSize {
                            lemma_encodable_list_pointwise(vl);
                            assert(!encodable(vl[i as int]));
                            assert(!encodable_list(vl));
                        }
                    }
                    return Err(e);
                },
            };
            proof {
                assert(vl.take(i as int + 1) =~= vl.take(i as int).push(vl[i as int]));
                crate::grammar::lemma_enc_list_push(vl.take(i as int), vl[i as int]);
                assert(self.sunk() =~= old(self).sunk() + enc_list(vl.take(i as int + 1)));
                lemma_encodable_list_pointwise(vl.take(i as int + 1));
                assert(forall|k: int|
                    0 <= k < i + 1 ==> #[trigger] vl.take(i as int + 1)[k] == vl.take(
                        i as int,
                    ).push(vl[i as int])[k]);
                self.lemma_sunk_len();
                self.lemma_room_nonneg();
            }
            wb = wb + n;
            i = i + 1;
        }
        proof {
            assert(vl.take(len as int) =~= vl);
        }
        Ok(wb)
    }

    /// Emits the entries of a map back to back: key then value, per
    /// entry, in order.
    pub fn serialize_entries(&mut self, items: &Vec<ValueEntry>) -> (r: Result<
        usize,
        Error<W::Failure>,
    >)
        requires
            old(self).inv(),
        ensures
            final(self).inv(),
            match r {
                Ok(n) => {
                    &&& encodable_entries(view_entries(items@))
                    &&& final(self).sunk() == old(self).sunk() + enc_entries(view_entries(items@))
                    &&& n == enc_entries(view_entries(items@)).len()
                    &&& enc_entries(view_entries(items@)).len() <= old(self).room()
                    &&& final(self).room() == old(self).room() - enc_entries(view_entries(items@)).len()
                },
                Err(e) => {
                    &&& (e is WriterError || e == Error::<W::Failure>::InvalidSize)
                    &&& (e is WriterError ==> old(self).room() < enc_entries(view_entries(items@)).len())
                    &&& (e == Error::<W::Failure>::InvalidSize ==> !(encodable_entries(view_entries(items@))))
                },
            },
        decreases items@, 2int,
    {
        let ghost vl = view_entries(items@);
        proof {
            lemma_view_entries(items@);
            self.lemma_room_nonneg();
            assert(vl.take(0) =~= Seq::<(SpecValue, SpecValue)>::empty());
            assert(self.sunk() =~= old(self).sunk() + enc_entries(vl.take(0)));
        }
        let mut wb: usize = 0;
        let mut i: usize = 0;
        let len = items.len();
        while i < len
            invariant
                self.inv(),
                i <= len,
                len == items@.len(),
                vl == view_entries(items@),
                vl.len() == items@.len(),
                forall|k: int|
                    0 <= k < items@.len() ==> vl[k] == (
                    view_value(#[trigger] items@[k].key),
                    view_value(items@[k].value),
                    ),
                self.sunk() == old(self).sunk() + enc_entries(vl.take(i as int)),
                self.room() == old(self).room() - enc_entries(vl.take(i as int)).len(),
                enc_entries(vl.take(i as int)).len() <= old(self).room(),
                wb == enc_entries(vl.take(i as int)).len(),
                encodable_entries(vl.take(i as int)),
            decreases len - i,
        {
            proof {
                lemma_encodable_entries_pointwise(vl);
                assert(vl =~= vl.take(i as int) + vl.skip(i as int));
                lemma_enc_entries_concat(vl.take(i as int), vl.skip(i as int));
                assert(vl.skip(i as int)[0] == vl[i as int]);
                assert(vl.skip(i as int).drop_first() =~= vl.skip(i as int + 1));
                assert(enc_entries(vl.skip(i as int)) == enc_value(vl[i as int].0) + enc_value(
                    vl[i as int].1,
                ) + enc_entries(vl.skip(i as int + 1)));
                lemma_encodable_entries_pointwise(vl.take(i as int));
                assert((view_value(items@[i as int].key), view_value(items@[i as int].value))
                    == vl[i as int]);
                assert(view_value(items@[i as int].key) == vl[i as int].0);
                assert(view_value(items@[i as int].value) == vl[i as int].1);
            }
            let nk = match self.serialize_value(&items[i].key) {
                Ok(n) => n,
                Err(e) => {
                    proof {
                        if e == Error::<W::Failure>::InvalidSize {
                            lemma_encodable_entries_pointwise(vl);
                            assert(!encodable(vl[i as int].0));
                            assert(!encodable_entries(vl));
                        }
                    }
                    return Err(e);
                },
            };
            let nv = match self.serialize_value(&items[i].value) {
                Ok(n) => n,
                Err(e) => {
                    proof {
                        if e == Error::<W::Failure>::InvalidSize {
                            lemma_encodable_entries_pointwise(vl);
                            assert(!encodable(vl[i as int].1));
                            assert(!encodable_entries(vl));
                        }
                    }
                    return Err(e);
                },
            };
            proof {
                assert(vl.take(i as int + 1) =~= vl.take(i as int).push(vl[i as int]));
                crate::grammar::lemma_enc_entries_push(
                    vl.take(i as int),
                    vl[i as int].0,
                    vl[i as int].1,
                );
                assert((vl[i as int].0, vl[i as int].1) == vl[i as int]);
                assert(self.sunk() =~= old(self).sunk() + enc_entries(vl.take(i as int + 1)));
                lemma_encodable_entries_pointwise(vl.take(i as int));
                lemma_encodable_entries_pointwise(vl.take(i as int + 1));
                assert forall|k: int|
                    0 <= k < i + 1 implies encodable(#[trigger] vl.take(i as int + 1)[k].0)
                    && encodable(vl.take(i as int + 1)[k].1) by {
                    if k < i {
                        assert(vl.take(i as int + 1)[k] == vl.take(i as int)[k]);
                        assert(vl.take(i as int + 1)[k].0 == vl.take(i as int)[k].0);
                        assert(vl.take(i as int + 1)[k].1 == vl.take(i as int)[k].1);
                    } else {
                        assert(vl.take(i as int + 1)[k] == vl[i as int]);
                    }
                }
                self.lemma_sunk_len();
                self.lemma_room_nonneg();
            }
            wb = wb + nk;
            wb = wb + nv;
            i = i + 1;
        }
        proof {
            assert(vl.take(len as int) =~= vl);
        }
        Ok(wb)
    }

    /// Writes an opening tag, then one inner value: the shared body of
    /// the two single-payload shapes.
    fn wrap_one(&mut self, tag: Tag, inner: &Value, whole: Ghost<SpecValue>) -> (r: Result<
        usize,
        Error<W::Failure>,
    >)
        requires
            old(self).inv(),
            enc_value(whole@) == seq![spec_tag_byte(tag)] + enc_value(view_value(*inner)),
            encodable(whole@) <==> encodable(view_value(*inner)),
        ensures
            final(self).inv(),
            match r {
                Ok(n) => {
                    &&& encodable(whole@)
                    &&& final(self).sunk() == old(self).sunk() + enc_value(whole@)
                    &&& n == enc_value(whole@).len()
                    &&& enc_value(whole@).len() <= old(self).room()
                    &&& final(self).room() == old(self).room() - enc_value(whole@).len()
                },
                Err(e) => {
                    &&& (e is WriterError || e == Error::<W::Failure>::InvalidSize)
                    &&& (e is WriterError ==> old(self).room() < enc_value(whole@).len())
                    &&& (e == Error::<W::Failure>::InvalidSize ==> !(encodable(whole@)))
                },
            },
        decreases *inner, 4int,
    {
        let n1 = match self.emit_tag(tag) {
            Ok(n) => n,
            Err(e) => {
                return Err(e);
            },
        };
        let n2 = match self.serialize_value(inner) {
            Ok(n) => n,
            Err(e) => {
                return Err(e);
            },
        };
        proof {
            assert(self.sunk() =~= old(self).sunk() + enc_value(whole@));
            self.lemma_sunk_len();
            self.lemma_room_nonneg();
        }
        Ok(n1 + n2)
    }

    /// Writes an opening tag and a 4-byte variant index, then one inner
    /// value: the body of the newtype-variant shape.
    fn wrap_one_indexed(
        &mut self,
        tag: Tag,
        variant_index: u32,
        inner: &Value,
        whole: Ghost<SpecValue>,
    ) -> (r: Result<usize, Error<W::Failure>>)
        requires
            old(self).inv(),
            enc_value(whole@) == (seq![spec_tag_byte(tag)] + be_bytes(variant_index as nat, 4))
                + enc_value(view_value(*inner)),
            encodable(whole@) <==> encodable(view_value(*inner)),
        ensures
            final(self).inv(),
            match r {
                Ok(n) => {
                    &&& encodable(whole@)
                    &&& final(self).sunk() == old(self).sunk() + enc_value(whole@)
                    &&& n == enc_value(whole@).len()
                    &&& enc_value(whole@).len() <= old(self).room()
                    &&& final(self).room() == old(self).room() - enc_value(whole@).len()
                },
                Err(e) => {
                    &&& (e is WriterError || e == Error::<W::Failure>::InvalidSize)
                    &&& (e is WriterError ==> old(self).room() < enc_value(whole@).len())
                    &&& (e == Error::<W::Failure>::InvalidSize ==> !(encodable(whole@)))
                },
            },
        decreases *inner, 4int,
    {
        proof {
            crate::bigendian::lemma_be_bytes_len(variant_index as nat, 4);
        }
        let n1 = match self.emit_tagged_be(tag, variant_index as u128, 4) {
            Ok(n) => n,
            Err(e) => {
                return Err(e);
            },
        };
        let n2 = match self.serialize_value(inner) {
            Ok(n) => n,
            Err(e) => {
                return Err(e);
            },
        };
        proof {
            assert(self.sunk() =~= old(self).sunk() + enc_value(whole@));
            self.lemma_sunk_len();
            self.lemma_room_nonneg();
        }
        Ok(n1 + n2)
    }

    /// Writes an opening tag and a fixed-width big-endian header value,
    /// then the run of values: variants with fields and the sized
    /// sequence share this body.
    fn emit_header_then_list(
        &mut self,
        tag: Tag,
        header_val: u128,
        width: usize,
        items: &Vec<Value>,
        whole: Ghost<SpecValue>,
    ) -> (r: Result<usize, Error<W::Failure>>)
        requires
            old(self).inv(),
            width <= 16,
            enc_value(whole@) == (seq![spec_tag_byte(tag)] + be_bytes(header_val as nat,
            width as nat)) + enc_list(view_list(items@)),
            encodable(whole@) <==> encodable_list(view_list(items@)),
        ensures
            final(self).inv(),
            match r {
                Ok(n) => {
                    &&& encodable(whole@)
                    &&& final(self).sunk() == old(self).sunk() + enc_value(whole@)
                    &&& n == enc_value(whole@).len()
                    &&& enc_value(whole@).len() <= old(self).room()
                    &&& final(self).room() == old(self).room() - enc_value(whole@).len()
                },
                Err(e) => {
                    &&& (e is WriterError || e == Error::<W::Failure>::InvalidSize)
                    &&& (e is WriterError ==> old(self).room() < enc_value(whole@).len())
                    &&& (e == Error::<W::Failure>::InvalidSize ==> !(encodable(whole@)))
                },
            },
        decreases items@, 4int,
    {
        proof {
            crate::bigendian::lemma_be_bytes_len(header_val as nat, width as nat);
        }
        let n1 = match self.emit_tagged_be(tag, header_val, width) {
            Ok(n) => n,
            Err(e) => {
                return Err(e);
            },
        };
        let n2 = match self.serialize_list(items) {
            Ok(n) => n,
            Err(e) => {
                return Err(e);
            },
        };
        proof {
            assert(self.sunk() =~= old(self).sunk() + enc_value(whole@));
            self.lemma_sunk_len();
            self.lemma_room_nonneg();
        }
        Ok(n1 + n2)
    }

    /// Writes an opening tag and a fixed-width big-endian header value,
    /// then the run of map entries: the sized map's body.
    fn emit_header_then_entries(
        &mut self,
        tag: Tag,
        header_val: u128,
        width: usize,
        items: &Vec<ValueEntry>,
        whole: Ghost<SpecValue>,
    ) -> (r: Result<usize, Error<W::Failure>>)
        requires
            old(self).inv(),
            width <= 16,
            enc_value(whole@) == (seq![spec_tag_byte(tag)] + be_bytes(header_val as nat,
            width as nat)) + enc_entries(view_entries(items@)),
            encodable(whole@) <==> encodable_entries(view_entries(items@)),
        ensures
            final(self).inv(),
            match r {
                Ok(n) => {
                    &&& encodable(whole@)
                    &&& final(self).sunk() == old(self).sunk() + enc_value(whole@)
                    &&& n == enc_value(whole@).len()
                    &&& enc_value(whole@).len() <= old(self).room()
                    &&& final(self).room() == old(self).room() - enc_value(whole@).len()
                },
                Err(e) => {
                    &&& (e is WriterError || e == Error::<W::Failure>::InvalidSize)
                    &&& (e is WriterError ==> old(self).room() < enc_value(whole@).len())
                    &&& (e == Error::<W::Failure>::InvalidSize ==> !(encodable(whole@)))
                },
            },
        decreases items@, 4int,
    {
        proof {
            crate::bigendian::lemma_be_bytes_len(header_val as nat, width as nat);
        }
        let n1 = match self.emit_tagged_be(tag, header_val, width) {
            Ok(n) => n,
            Err(e) => {
                return Err(e);
            },
        };
        let n2 = match self.serialize_entries(items) {
            Ok(n) => n,
            Err(e) => {
                return Err(e);
            },
        };
        proof {
            assert(self.sunk() =~= old(self).sunk() + enc_value(whole@));
            self.lemma_sunk_len();
            self.lemma_room_nonneg();
        }
        Ok(n1 + n2)
    }

    /// Refuses a fixed-arity container of more than 255 fields, else
    /// writes its tag, its one-byte count, and its fields.
    fn fixed_arity(&mut self, tag: Tag, items: &Vec<Value>, whole: Ghost<SpecValue>) -> (r: Result<
        usize,
        Error<W::Failure>,
    >)
        requires
            old(self).inv(),
            enc_value(whole@) == (seq![spec_tag_byte(tag)] + be_bytes(items@.len(), 1)) + enc_list(
                view_list(items@),
            ),
            encodable(whole@) <==> (items@.len() <= 255 && encodable_list(view_list(items@))),
        ensures
            final(self).inv(),
            match r {
                Ok(n) => {
                    &&& encodable(whole@)
                    &&& final(self).sunk() == old(self).sunk() + enc_value(whole@)
                    &&& n == enc_value(whole@).len()
                    &&& enc_value(whole@).len() <= old(self).room()
                    &&& final(self).room() == old(self).room() - enc_value(whole@).len()
                },
                Err(e) => {
                    &&& (e is WriterError || e == Error::<W::Failure>::InvalidSize)
                    &&& (e is WriterError ==> old(self).room() < enc_value(whole@).len())
                    &&& (e == Error::<W::Failure>::InvalidSize ==> !(encodable(whole@)))
                },
            },
        decreases items@, 5int,
    {
        if items.len() > 255 {
            return Err(Error::InvalidSize);
        }
        self.emit_header_then_list(tag, items.len() as u128, 1, items, whole)
    }

    /// Writes the opening tag of an end-marked sequence, its values, and
    /// the closing end tag.
    fn unsized_list(&mut self, tag: Tag, items: &Vec<Value>, whole: Ghost<SpecValue>) -> (r: Result<
        usize,
        Error<W::Failure>,
    >)
        requires
            old(self).inv(),
            enc_value(whole@) == seq![spec_tag_byte(tag)] + enc_list(view_list(items@)) + seq![
                spec_tag_byte(Tag::UnsizedSeqEnd),
            ],
            encodable(whole@) <==> encodable_list(view_list(items@)),
        ensures
            final(self).inv(),
            match r {
                Ok(n) => {
                    &&& encodable(whole@)
                    &&& final(self).sunk() == old(self).sunk() + enc_value(whole@)
                    &&& n == enc_value(whole@).len()
                    &&& enc_value(whole@).len() <= old(self).room()
                    &&& final(self).room() == old(self).room() - enc_value(whole@).len()
                },
                Err(e) => {
                    &&& (e is WriterError || e == Error::<W::Failure>::InvalidSize)
                    &&& (e is WriterError ==> old(self).room() < enc_value(whole@).len())
                    &&& (e == Error::<W::Failure>::InvalidSize ==> !(encodable(whole@)))
                },
            },
        decreases items@, 4int,
    {
        let n1 = match self.emit_tag(tag) {
            Ok(n) => n,
            Err(e) => {
                return Err(e);
            },
        };
        let n2 = match self.serialize_list(items) {
            Ok(n) => n,
            Err(e) => {
                return Err(e);
            },
        };
        let n3 = match self.emit_tag(Tag::UnsizedSeqEnd) {
            Ok(n) => n,
            Err(e) => {
                return Err(e);
            },
        };
        proof {
            assert(self.sunk() =~= old(self).sunk() + enc_value(whole@));
            self.lemma_sunk_len();
            self.lemma_room_nonneg();
        }
        Ok(n1 + n2 + n3)
    }

    /// Writes the opening tag of an end-marked map, its entries, and the
    /// closing end tag.
    fn unsized_entries(&mut self, tag: Tag, items: &Vec<ValueEntry>, whole: Ghost<SpecValue>) -> (r:
        Result<usize, Error<W::Failure>>)
        requires
            old(self).inv(),
            enc_value(whole@) == seq![spec_tag_byte(tag)] + enc_entries(view_entries(items@))
                + seq![spec_tag_byte(Tag::UnsizedSeqEnd)],
            encodable(whole@) <==> encodable_entries(view_entries(items@)),
        ensures
            final(self).inv(),
            match r {
                Ok(n) => {
                    &&& encodable(whole@)
                    &&& final(self).sunk() == old(self).sunk() + enc_value(whole@)
                    &&& n == enc_value(whole@).len()
                    &&& enc_value(whole@).len() <= old(self).room()
                    &&& final(self).room() == old(self).room() - enc_value(whole@).len()
                },
                Err(e) => {
                    &&& (e is WriterError || e == Error::<W::Failure>::InvalidSize)
                    &&& (e is WriterError ==> old(self).room() < enc_value(whole@).len())
                    &&& (e == Error::<W::Failure>::InvalidSize ==> !(encodable(whole@)))
                },
            },
        decreases items@, 4int,
    {
        let n1 = match self.emit_tag(tag) {
            Ok(n) => n,
            Err(e) => {
                return Err(e);
            },
        };
        let n2 = match self.serialize_entries(items) {
            Ok(n) => n,
            Err(e) => {
                return Err(e);
            },
        };
        let n3 = match self.emit_tag(Tag::UnsizedSeqEnd) {
            Ok(n) => n,
            Err(e) => {
                return Err(e);
            },
        };
        proof {
            assert(self.sunk() =~= old(self).sunk() + enc_value(whole@));
            self.lemma_sunk_len();
            self.lemma_room_nonneg();
        }
        Ok(n1 + n2 + n3)
    }

    /// Opens a sequence: the sized tag and 8-byte length when the length
    /// is known up front, else the unsized tag; elements follow, and
    /// [`SeqSerializer::finish`] closes the container.
    pub fn serialize_seq(&mut self, len: Option<usize>) -> (r: Result<
        SeqSerializer,
        Error<W::Failure>,
    >)
        requires
            old(self).inv(),
        ensures
            final(self).inv(),
            ({
                let header = match len {
                    Some(l) => seq![spec_tag_byte(Tag::SizedSeq)] + be_bytes(l as nat, 8),
                    None => seq![spec_tag_byte(Tag::UnsizedSeq)],
                };
                match r {
                    Ok(ss) => {
                        &&& final(self).sunk() == old(self).sunk() + header
                        &&& final(self).room() == old(self).room() - header.len()
                        &&& ss.sized == (len is Some)
                        &&& ss.written == header.len()
                    },
                    Err(e) => {
                        &&& e is WriterError
                        &&& final(self).sunk() == old(self).sunk()
                        &&& old(self).room() < header.len()
                    },
                }
            }),
    {
        match len {
            Some(l) => {
                proof {
                    crate::bigendian::lemma_be_bytes_len(l as nat, 8);
                }
                match self.emit_tagged_be(Tag::SizedSeq, l as u128, 8) {
                    Ok(n) => Ok(SeqSerializer::new_known(n)),
                    Err(e) => Err(e),
                }
            },
            None => match self.emit_tag(Tag::UnsizedSeq) {
                Ok(n) => Ok(SeqSerializer::new_unknown(n)),
                Err(e) => Err(e),
            },
        }
    }

    /// Opens a map: the sized tag and 8-byte entry count when the count
    /// is known up front, else the unsized tag; keys and values follow,
    /// and [`SeqSerializer::finish`] closes the container.
    pub fn serialize_map(&mut self, len: Option<usize>) -> (r: Result<
        SeqSerializer,
        Error<W::Failure>,
    >)
        requires
            old(self).inv(),
        ensures
            final(self).inv(),
            ({
                let header = match len {
                    Some(l) => seq![spec_tag_byte(Tag::SizedMap)] + be_bytes(l as nat, 8),
                    None => seq![spec_tag_byte(Tag::UnsizedMap)],
                };
                match r {
                    Ok(ss) => {
                        &&& final(self).sunk() == old(self).sunk() + header
                        &&& final(self).room() == old(self).room() - header.len()
                        &&& ss.sized == (len is Some)
                        &&& ss.written == header.len()
                    },
                    Err(e) => {
                        &&& e is WriterError
                        &&& final(self).sunk() == old(self).sunk()
                        &&& old(self).room() < header.len()
                    },
                }
            }),
    {
        match len {
            Some(l) => {
                proof {
                    crate::bigendian::lemma_be_bytes_len(l as nat, 8);
                }
                match self.emit_tagged_be(Tag::SizedMap, l as u128, 8) {
                    Ok(n) => Ok(SeqSerializer::new_known(n)),
                    Err(e) => Err(e),
                }
            },
            None => match self.emit_tag(Tag::UnsizedMap) {
                Ok(n) => Ok(SeqSerializer::new_unknown(n)),
                Err(e) => Err(e),
            },
        }
    }

    /// Opens a fixed-arity container of the given kind: its tag and its
    /// one-byte count.  More than 255 fields is an encode-time error.
    fn open_fixed_arity(&mut self, tag: Tag, len: usize) -> (r: Result<
        SeqSerializer,
        Error<W::Failure>,
    >)
        requires
            old(self).inv(),
        ensures
            final(self).inv(),
            match r {
                Ok(ss) => {
                    &&& len <= 255
                    &&& final(self).sunk() == old(self).sunk() + (seq![spec_tag_byte(tag)]
                        + be_bytes(len as nat, 1))
                    &&& final(self).room() == old(self).room() - 2
                    &&& ss.sized == true
                },
                Err(e) => {
                    &&& (e is WriterError || e == Error::<W::Failure>::InvalidSize)
                    &&& (e is WriterError ==> old(self).room() < 2 && final(self).sunk() == old(
                        self,
                    ).sunk())
                    &&& (e == Error::<W::Failure>::InvalidSize ==> len > 255)
                },
            },
    {
        if len > 255 {
            return Err(Error::InvalidSize);
        }
        proof {
            crate::bigendian::lemma_be_bytes_len(len as nat, 1);
        }
        match self.emit_tagged_be(tag, len as u128, 1) {
            Ok(n) => Ok(SeqSerializer::new_known(n)),
            Err(e) => Err(e),
        }
    }

    /// Opens a tuple: its tag and one-byte element count; the elements
    /// follow positionally.
    pub fn serialize_tuple(&mut self, len: usize) -> (r: Result<SeqSerializer, Error<W::Failure>>)
        requires
            old(self).inv(),
        ensures
            final(self).inv(),
            match r {
                Ok(ss) => {
                    &&& len <= 255
                    &&& final(self).sunk() == old(self).sunk() + (seq![spec_tag_byte(Tag::Tuple)]
                        + be_bytes(len as nat, 1))
                    &&& final(self).room() == old(self).room() - 2
                    &&& ss.sized == true
                },
                Err(e) => {
                    &&& (e is WriterError || e == Error::<W::Failure>::InvalidSize)
                    &&& (e is WriterError ==> old(self).room() < 2 && final(self).sunk() == old(
                        self,
                    ).sunk())
                    &&& (e == Error::<W::Failure>::InvalidSize ==> len > 255)
                },
            },
    {
        self.open_fixed_arity(Tag::Tuple, len)
    }

    /// Opens a tuple struct: its tag and one-byte element count; the
    /// elements follow positionally.
    pub fn serialize_tuple_struct(&mut self, len: usize) -> (r: Result<
        SeqSerializer,
        Error<W::Failure>,
    >)
        requires
            old(self).inv(),
        ensures
            final(self).inv(),
            match r {
                Ok(ss) => {
                    &&& len <= 255
                    &&& final(self).sunk() == old(self).sunk() + (seq![
                        spec_tag_byte(Tag::TupleStruct),
                    ] + be_bytes(len as nat, 1))
                    &&& final(self).room() == old(self).room() - 2
                    &&& ss.sized == true
                },
                Err(e) => {
                    &&& (e is WriterError || e == Error::<W::Failure>::InvalidSize)
                    &&& (e is WriterError ==> old(self).room() < 2 && final(self).sunk() == old(
                        self,
                    ).sunk())
                    &&& (e == Error::<W::Failure>::InvalidSize ==> len > 255)
                },
            },
    {
        self.open_fixed_arity(Tag::TupleStruct, len)
    }

    /// Opens a struct: its tag and one-byte field count; the field values
    /// follow positionally, names never written.
    pub fn serialize_struct(&mut self, len: usize) -> (r: Result<SeqSerializer, Error<W::Failure>>)
        requires
            old(self).inv(),
        ensures
            final(self).inv(),
            match r {
                Ok(ss) => {
                    &&& len <= 255
                    &&& final(self).sunk() == old(self).sunk() + (seq![spec_tag_byte(Tag::Struct)]
                        + be_bytes(len as nat, 1))
                    &&& final(self).room() == old(self).room() - 2
                    &&& ss.sized == true
                },
                Err(e) => {
                    &&& (e is WriterError || e == Error::<W::Failure>::InvalidSize)
                    &&& (e is WriterError ==> old(self).room() < 2 && final(self).sunk() == old(
                        self,
                    ).sunk())
                    &&& (e == Error::<W::Failure>::InvalidSize ==> len > 255)
                },
            },
    {
        self.open_fixed_arity(Tag::Struct, len)
    }
}

/// The in-flight state of one open sequence, map, tuple or struct:
/// whether its length went on the wire up front, and an advisory count of
/// bytes written on its behalf.
pub struct SeqSerializer {
    /// True when the container's length was written up front; a sized
    /// container needs no end tag.
    pub sized: bool,
    /// Bytes written for this container so far, saturating at the
    /// machine's count limit.
    pub written: usize,
}

impl SeqSerializer {
    /// State for a container whose length went on the wire up front.
    pub fn new_known(written: usize) -> (r: Self)
        ensures
            r.sized == true,
            r.written == written,
    {
        SeqSerializer { sized: true, written }
    }

    /// State for a container that will be closed by an end tag.
    pub fn new_unknown(written: usize) -> (r: Self)
        ensures
            r.sized == false,
            r.written == written,
    {
        SeqSerializer { sized: false, written }
    }

    /// Encodes one element (or key, or field value) of the open
    /// container.
    pub fn ser_value<W: Write>(
        &mut self,
        serializer: &mut Serializer<W>,
        value: &Value,
    ) -> (r: Result<(), Error<W::Failure>>)
        requires
            old(serializer).inv(),
        ensures
            final(serializer).inv(),
            final(self).sized == old(self).sized,
            match r {
                Ok(_) => {
                    &&& encodable(value@)
                    &&& final(serializer).sunk() == old(serializer).sunk() + enc_value(value@)
                    &&& final(serializer).room() == old(serializer).room() - enc_value(
                        value@,
                    ).len()
                    &&& final(self).written == (if old(self).written + enc_value(value@).len()
                        <= usize::MAX {
                        (old(self).written + enc_value(value@).len()) as usize
                    } else {
                        usize::MAX
                    })
                },
                Err(e) => {
                    &&& (e is WriterError || e == Error::<W::Failure>::InvalidSize)
                    &&& (e is WriterError ==> old(serializer).room() < enc_value(value@).len())
                    &&& (e == Error::<W::Failure>::InvalidSize ==> !encodable(value@))
                    &&& final(self).written == old(self).written
                },
            },
    {
        match serializer.serialize_value(value) {
            Ok(n) => {
                if n > usize::MAX - self.written {
                    self.written = usize::MAX;
                } else {
                    self.written = self.written + n;
                }
                Ok(())
            },
            Err(e) => Err(e),
        }
    }

    /// Closes the container: a sized one is already complete, an unsized
    /// one gets its end tag.  Returns the bytes written for the
    /// container, as counted.
    pub fn finish<W: Write>(self, serializer: &mut Serializer<W>) -> (r: Result<
        usize,
        Error<W::Failure>,
    >)
        requires
            old(serializer).inv(),
        ensures
            final(serializer).inv(),
            self.sized ==> final(serializer).sunk() == old(serializer).sunk() && r == Ok::<
                usize,
                Error<W::Failure>,
            >(self.written),
            !self.sized ==> match r {
                Ok(n) => {
                    &&& final(serializer).sunk() == old(serializer).sunk().push(
                        spec_tag_byte(Tag::UnsizedSeqEnd),
                    )
                    &&& final(serializer).room() == old(serializer).room() - 1
                    &&& n == (if self.written == usize::MAX {
                        usize::MAX as int
                    } else {
                        self.written + 1
                    })
                },
                Err(e) => e is WriterError && final(serializer).sunk() == old(serializer).sunk()
                    && old(serializer).room() < 1,
            },
    {
        if self.sized {
            Ok(self.written)
        } else {
            match serializer.emit_tag(Tag::UnsizedSeqEnd) {
                Ok(_) => {
                    if self.written == usize::MAX {
                        Ok(self.written)
                    } else {
                        Ok(self.written + 1)
                    }
                },
                Err(e) => Err(e),
            }
        }
    }
}

/// Encodes one value into the given sink; the sink is handed back beside
/// the outcome.  Within the sink's budget encoding succeeds outright.
pub fn to_writer<W: Write>(value: &Value, writer: W) -> (r: (W, Result<usize, Error<W::Failure>>))
    requires
        writer.inv(),
    ensures
        r.0.inv(),
        match r.1 {
            Ok(n) => {
                &&& encodable(value@)
                &&& r.0.sunk() == writer.sunk() + enc_value(value@)
                &&& n == enc_value(value@).len()
                &&& enc_value(value@).len() <= writer.room()
            },
            Err(e) => {
                &&& (e is WriterError || e == Error::<W::Failure>::InvalidSize)
                &&& (e is WriterError ==> writer.room() < enc_value(value@).len())
                &&& (e == Error::<W::Failure>::InvalidSize ==> !encodable(value@))
            },
        },
{
    let mut serializer = Serializer::new(writer);
    let res = serializer.serialize_value(value);
    (serializer.into_writer(), res)
}

/// Encodes one value into a fresh heap buffer.  Succeeds exactly when the
/// value is encodable; the buffer then holds exactly the value's wire
/// bytes.
pub fn to_bytes(value: &Value) -> (r: Result<Vec<u8>, Error<NoWriterError>>)
    requires
        enc_value(value@).len() <= usize::MAX,
    ensures
        match r {
            Ok(out) => encodable(value@) && out@ == enc_value(value@),
            Err(e) => e == Error::<NoWriterError>::InvalidSize && !encodable(value@),
        },
        r is Ok <==> encodable(value@),
{
    let out: Vec<u8> = Vec::new();
    let mut serializer = Serializer::new(out);
    let ghost empty_sunk = serializer.sunk();
    proof {
        assert(empty_sunk =~= Seq::<u8>::empty());
    }
    match serializer.serialize_value(value) {
        Ok(_) => {
            let out = serializer.into_writer();
            proof {
                assert(out@ =~= enc_value(value@));
            }
            Ok(out)
        },
        Err(e) => {
            proof {
                if e is WriterError {
                    serializer.lemma_sunk_len();
                }
            }
            match e {
                Error::WriterError(_) => Err(Error::InvalidSize),
                _ => Err(e.unwrap_writer_error()),
            }
        },
    }
}

/// Encodes one value into a caller-provided fixed buffer.  Succeeds
/// exactly when the value is encodable and the buffer is long enough; a
/// buffer even one byte short of the encoded size fails with the
/// end-of-buffer error.
pub fn to_buff(value: &Value, buff: Vec<u8>) -> (r: Result<BuffWriter, Error<EndOfBuff>>)
    ensures
        match r {
            Ok(bw) => {
                &&& encodable(value@)
                &&& bw.inv()
                &&& bw.sunk() == enc_value(value@)
                &&& enc_value(value@).len() <= buff@.len()
            },
            Err(e) => {
                &&& (e is WriterError || e == Error::<EndOfBuff>::InvalidSize)
                &&& (e is WriterError ==> e == Error::<EndOfBuff>::WriterError(EndOfBuff)
                    && buff@.len() < enc_value(value@).len())
                &&& (e == Error::<EndOfBuff>::InvalidSize ==> !encodable(value@))
            },
        },
        encodable(value@) && buff@.len() >= enc_value(value@).len() ==> r is Ok,
        encodable(value@) && buff@.len() < enc_value(value@).len() ==> r == Err::<
            BuffWriter,
            Error<EndOfBuff>,
        >(Error::WriterError(EndOfBuff)),
{
    let bw = BuffWriter::new(buff);
    let mut serializer = Serializer::new(bw);
    let ghost start = serializer.sunk();
    proof {
        assert(start =~= Seq::<u8>::empty());
    }
    let ghost room0 = serializer.room();
    proof {
        assert(room0 == buff@.len());
    }
    match serializer.serialize_value(value) {
        Ok(_) => {
            proof {
                assert(enc_value(value@).len() <= room0);
            }
            let bw = serializer.into_writer();
            proof {
                assert(bw.sunk() =~= enc_value(value@));
                assert(enc_value(value@).len() <= buff@.len());
            }
            Ok(bw)
        },
        Err(e) => {
            proof {
                if e is WriterError {
                    assert(buff@.len() < enc_value(value@).len());
                }
            }
            match e {
                Error::WriterError(we) => Err(Error::WriterError(we)),
                other => Err(other),
            }
        },
    }
}

/// Measures the encoded size of a value without keeping any bytes, by
/// driving the encoder against the counting sink.  The measured size is
/// exactly the length of the buffer [`to_bytes`] would produce.
pub fn get_serialized_size(value: &Value) -> (r: Result<usize, Error<EndOfBuff>>)
    requires
        enc_value(value@).len() <= usize::MAX,
    ensures
        match r {
            Ok(n) => encodable(value@) && n == enc_value(value@).len(),
            Err(e) => e == Error::<EndOfBuff>::InvalidSize && !encodable(value@),
        },
        r is Ok <==> encodable(value@),
{
    let dw = DummyWriter::new();
    let mut serializer = Serializer::new(dw);
    match serializer.serialize_value(value) {
        Ok(n) => Ok(n),
        Err(e) => match e {
            Error::WriterError(_) => Err(Error::InvalidSize),
            _ => Err(e.unwrap_writer_error()),
        },
    }
}

} // verus!
