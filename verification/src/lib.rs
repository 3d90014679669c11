//! A compact, tagged binary encoding for structured data.
//!
//! Every encoded value starts with a one-byte tag naming its wire shape;
//! fixed-width payloads, length prefixes, or end markers follow.  The
//! encoder walks a [`value::Value`] tree and emits bytes into any
//! [`write::Write`] sink; the decoder reads a byte slice back into the
//! same tree, validating tags, lengths and UTF-8 along the way.
//!
//! The byte-level grammar is specified mathematically in [`grammar`], and
//! the engines are verified against it: encoding a well-formed value and
//! decoding the result yields the original value back.

use vstd::prelude::*;

pub mod bigendian;
pub mod de;
pub mod error;
pub mod grammar;
pub mod ser;
pub mod tag;
pub mod text;
pub mod value;
pub mod write;

pub use de::{from_bytes, Deserializer};
pub use error::{Error, ErrorKind, NoWriterError, WriterError};
pub use ser::{get_serialized_size, to_buff, to_bytes, to_writer, SeqSerializer, Serializer};
pub use tag::{Expected, Tag, TagParsingError};
pub use value::{Number, SpecValue, Value, ValueEntry};
pub use write::{BuffWriter, DummyWriter, EndOfBuff, Write};

verus! {

/// First byte of the two-byte marker that terminates an end-marked string.
/// The pair is deliberately invalid UTF-8, so it can never occur inside a
/// correctly encoded string payload.
pub const END_MARKER_FIRST: u8 = 0xD8;

/// Second byte of the two-byte marker that terminates an end-marked string.
pub const END_MARKER_SECOND: u8 = 0x00;

} // verus!
