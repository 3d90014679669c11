//! The wire-format tag grammar.
//!
//! Every encoded value begins with a single tag byte that names the shape
//! of what follows.  The byte space is partitioned: each byte from 0 to 37
//! maps to exactly one [`Tag`], and every other byte is rejected.

use vstd::prelude::*;

verus! {

/// One-byte discriminant identifying the wire shape of the value that follows.
#[derive(Debug, PartialEq, Eq, Hash, Clone, Copy, Structural)]
pub enum Tag {
    OptionNone,
    OptionSome,
    BoolFalse,
    BoolTrue,
    I8,
    I16,
    I32,
    I64,
    U8,
    U16,
    U32,
    U64,
    F32,
    F64,
    Char1,
    Char2,
    Char3,
    Char4,
    Str,
    NullTerminatedString,
    ByteArray,
    Unit,
    UnitStruct,
    UnitVariant,
    NewTypeStruct,
    NewTypeVariant,
    SizedSeq,
    UnsizedSeq,
    UnsizedSeqEnd,
    Tuple,
    TupleStruct,
    TupleVariant,
    SizedMap,
    UnsizedMap,
    Struct,
    StructVariant,
    I128,
    U128,
}

/// The byte that encodes each tag on the wire.
pub open spec fn spec_tag_byte(t: Tag) -> u8 {
    match t {
        Tag::OptionNone => 0,
        Tag::OptionSome => 1,
        Tag::BoolFalse => 2,
        Tag::BoolTrue => 3,
        Tag::I8 => 4,
        Tag::I16 => 5,
        Tag::I32 => 6,
        Tag::I64 => 7,
        Tag::U8 => 8,
        Tag::U16 => 9,
        Tag::U32 => 10,
        Tag::U64 => 11,
        Tag::F32 => 12,
        Tag::F64 => 13,
        Tag::Char1 => 14,
        Tag::Char2 => 15,
        Tag::Char3 => 16,
        Tag::Char4 => 17,
        Tag::Str => 18,
        Tag::NullTerminatedString => 19,
        Tag::ByteArray => 20,
        Tag::Unit => 21,
        Tag::UnitStruct => 22,
        Tag::UnitVariant => 23,
        Tag::NewTypeStruct => 24,
        Tag::NewTypeVariant => 25,
        Tag::SizedSeq => 26,
        Tag::UnsizedSeq => 27,
        Tag::UnsizedSeqEnd => 28,
        Tag::Tuple => 29,
        Tag::TupleStruct => 30,
        Tag::TupleVariant => 31,
        Tag::SizedMap => 32,
        Tag::UnsizedMap => 33,
        Tag::Struct => 34,
        Tag::StructVariant => 35,
        Tag::I128 => 36,
        Tag::U128 => 37,
    }
}

/// The tag encoded by a byte, if the byte lies in the assigned range.
pub open spec fn spec_tag_of_byte(b: u8) -> Option<Tag> {
    if b == 0 {
        Some(Tag::OptionNone)
    } else if b == 1 {
        Some(Tag::OptionSome)
    } else if b == 2 {
        Some(Tag::BoolFalse)
    } else if b == 3 {
        Some(Tag::BoolTrue)
    } else if b == 4 {
        Some(Tag::I8)
    } else if b == 5 {
        Some(Tag::I16)
    } else if b == 6 {
        Some(Tag::I32)
    } else if b == 7 {
        Some(Tag::I64)
    } else if b == 8 {
        Some(Tag::U8)
    } else if b == 9 {
        Some(Tag::U16)
    } else if b == 10 {
        Some(Tag::U32)
    } else if b == 11 {
        Some(Tag::U64)
    } else if b == 12 {
        Some(Tag::F32)
    } else if b == 13 {
        Some(Tag::F64)
    } else if b == 14 {
        Some(Tag::Char1)
    } else if b == 15 {
        Some(Tag::Char2)
    } else if b == 16 {
        Some(Tag::Char3)
    } else if b == 17 {
        Some(Tag::Char4)
    } else if b == 18 {
        Some(Tag::Str)
    } else if b == 19 {
        Some(Tag::NullTerminatedString)
    } else if b == 20 {
        Some(Tag::ByteArray)
    } else if b == 21 {
        Some(Tag::Unit)
    } else if b == 22 {
        Some(Tag::UnitStruct)
    } else if b == 23 {
        Some(Tag::UnitVariant)
    } else if b == 24 {
        Some(Tag::NewTypeStruct)
    } else if b == 25 {
        Some(Tag::NewTypeVariant)
    } else if b == 26 {
        Some(Tag::SizedSeq)
    } else if b == 27 {
        Some(Tag::UnsizedSeq)
    } else if b == 28 {
        Some(Tag::UnsizedSeqEnd)
    } else if b == 29 {
        Some(Tag::Tuple)
    } else if b == 30 {
        Some(Tag::TupleStruct)
    } else if b == 31 {
        Some(Tag::TupleVariant)
    } else if b == 32 {
        Some(Tag::SizedMap)
    } else if b == 33 {
        Some(Tag::UnsizedMap)
    } else if b == 34 {
        Some(Tag::Struct)
    } else if b == 35 {
        Some(Tag::StructVariant)
    } else if b == 36 {
        Some(Tag::I128)
    } else if b == 37 {
        Some(Tag::U128)
    } else {
        None
    }
}

/// The context a decoder was in when it met a tag that is valid but wrong
/// for that position.  It stands in for the prose label of a diagnostic.
#[derive(Debug, PartialEq, Eq, Hash, Clone, Copy, Structural)]
pub enum Expected {
    Boolean,
    IntI8,
    IntI16,
    IntI32,
    IntI64,
    IntU8,
    IntU16,
    IntU32,
    IntU64,
    IntI128,
    IntU128,
    FloatF32,
    FloatF64,
    Character,
    Text,
    ByteArray,
    Optional,
    Unit,
    UnitStruct,
    NewTypeStruct,
    Sequence,
    Tuple,
    TupleStruct,
    MapEntries,
    Struct,
    Enumeration,
    Identifier,
    AnyButSeqEnd,
}

/// Why a tag byte could not be accepted where it was read.
#[derive(Debug, PartialEq, Eq, Hash, Clone, Copy, Structural)]
pub enum TagParsingError {
    /// The byte lies outside the assigned tag range.
    InvalidTag(u8),
    /// The byte names a valid tag, but not one acceptable in this context.
    UnexpectedTag { expected: Expected, got: Tag },
}

impl TagParsingError {
    /// Builds the error for a valid tag met in the wrong context.
    pub fn unexpected(expected: Expected, got: Tag) -> (r: Self)
        ensures
            r == (TagParsingError::UnexpectedTag { expected, got }),
    {
        TagParsingError::UnexpectedTag { expected, got }
    }
}

impl Tag {
    /// Encodes one character as its UTF-8 bytes, paired with the width
    /// tag that announces how many of them follow.
    pub fn encode_char(c: char) -> (r: (Tag, Vec<u8>))
        ensures
            r.1@ == vstd::utf8::encode_scalar(c as u32),
            1 <= r.1@.len() <= 4,
            r.0 == (if r.1@.len() == 1 {
                Tag::Char1
            } else if r.1@.len() == 2 {
                Tag::Char2
            } else if r.1@.len() == 3 {
                Tag::Char3
            } else {
                Tag::Char4
            }),
    {
        let bytes = crate::text::encode_char_utf8(c);
        let tag = if bytes.len() == 1 {
            Tag::Char1
        } else if bytes.len() == 2 {
            Tag::Char2
        } else if bytes.len() == 3 {
            Tag::Char3
        } else {
            Tag::Char4
        };
        (tag, bytes)
    }

    /// The byte written on the wire for this tag.
    pub fn to_byte(self) -> (b: u8)
        ensures
            b == spec_tag_byte(self),
    {
        match self {
            Tag::OptionNone => 0,
            Tag::OptionSome => 1,
            Tag::BoolFalse => 2,
            Tag::BoolTrue => 3,
            Tag::I8 => 4,
            Tag::I16 => 5,
            Tag::I32 => 6,
            Tag::I64 => 7,
            Tag::U8 => 8,
            Tag::U16 => 9,
            Tag::U32 => 10,
            Tag::U64 => 11,
            Tag::F32 => 12,
            Tag::F64 => 13,
            Tag::Char1 => 14,
            Tag::Char2 => 15,
            Tag::Char3 => 16,
            Tag::Char4 => 17,
            Tag::Str => 18,
            Tag::NullTerminatedString => 19,
            Tag::ByteArray => 20,
            Tag::Unit => 21,
            Tag::UnitStruct => 22,
            Tag::UnitVariant => 23,
            Tag::NewTypeStruct => 24,
            Tag::NewTypeVariant => 25,
            Tag::SizedSeq => 26,
            Tag::UnsizedSeq => 27,
            Tag::UnsizedSeqEnd => 28,
            Tag::Tuple => 29,
            Tag::TupleStruct => 30,
            Tag::TupleVariant => 31,
            Tag::SizedMap => 32,
            Tag::UnsizedMap => 33,
            Tag::Struct => 34,
            Tag::StructVariant => 35,
            Tag::I128 => 36,
            Tag::U128 => 37,
        }
    }

    /// Reads a tag back from a byte; bytes outside the assigned range fail
    /// closed with the offending byte attached.
    pub fn from_byte(b: u8) -> (r: Result<Tag, TagParsingError>)
        ensures
            match spec_tag_of_byte(b) {
                Some(t) => r == Ok::<Tag, TagParsingError>(t),
                None => r == Err::<Tag, TagParsingError>(TagParsingError::InvalidTag(b)),
            },
    {
        match b {
            0 => Ok(Tag::OptionNone),
            1 => Ok(Tag::OptionSome),
            2 => Ok(Tag::BoolFalse),
            3 => Ok(Tag::BoolTrue),
            4 => Ok(Tag::I8),
            5 => Ok(Tag::I16),
            6 => Ok(Tag::I32),
            7 => Ok(Tag::I64),
            8 => Ok(Tag::U8),
            9 => Ok(Tag::U16),
            10 => Ok(Tag::U32),
            11 => Ok(Tag::U64),
            12 => Ok(Tag::F32),
            13 => Ok(Tag::F64),
            14 => Ok(Tag::Char1),
            15 => Ok(Tag::Char2),
            16 => Ok(Tag::Char3),
            17 => Ok(Tag::Char4),
            18 => Ok(Tag::Str),
            19 => Ok(Tag::NullTerminatedString),
            20 => Ok(Tag::ByteArray),
            21 => Ok(Tag::Unit),
            22 => Ok(Tag::UnitStruct),
            23 => Ok(Tag::UnitVariant),
            24 => Ok(Tag::NewTypeStruct),
            25 => Ok(Tag::NewTypeVariant),
            26 => Ok(Tag::SizedSeq),
            27 => Ok(Tag::UnsizedSeq),
            28 => Ok(Tag::UnsizedSeqEnd),
            29 => Ok(Tag::Tuple),
            30 => Ok(Tag::TupleStruct),
            31 => Ok(Tag::TupleVariant),
            32 => Ok(Tag::SizedMap),
            33 => Ok(Tag::UnsizedMap),
            34 => Ok(Tag::Struct),
            35 => Ok(Tag::StructVariant),
            36 => Ok(Tag::I128),
            37 => Ok(Tag::U128),
            _ => Err(TagParsingError::InvalidTag(b)),
        }
    }
}

/// Every tag's byte reads back as that same tag: the byte space is
/// partitioned with no overlap between shapes.
pub proof fn lemma_tag_byte_round_trip(t: Tag)
    ensures
        spec_tag_of_byte(spec_tag_byte(t)) == Some(t),
        spec_tag_byte(t) <= 37,
{
}

/// A byte in the assigned range decodes to the tag that wrote it, so two
/// distinct tags never share a byte.
pub proof fn lemma_tag_byte_injective(t1: Tag, t2: Tag)
    ensures
        spec_tag_byte(t1) == spec_tag_byte(t2) ==> t1 == t2,
{
}

/// Bytes beyond the assigned range decode to nothing.
pub proof fn lemma_tag_of_byte_none(b: u8)
    ensures
        spec_tag_of_byte(b) is None <==> b > 37,
{
}

/// A byte that decodes to a tag is that tag's byte.
pub proof fn lemma_tag_of_byte_inverse(b: u8)
    ensures
        match spec_tag_of_byte(b) {
            Some(t) => spec_tag_byte(t) == b,
            None => true,
        },
{
}

} // verus!
