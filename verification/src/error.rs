//! Error taxonomy for both engines.
//!
//! Encoding can only fail on the sink (or on an arity that does not fit the
//! one-byte count of a tuple or struct); decoding additionally fails on any
//! grammar violation.  Every failure is terminal for the call that met it.

use vstd::prelude::*;

use crate::tag::TagParsingError;

verus! {

/// Failure payload of a sink that can never fail; its contracts return it
/// on no path, so a value of it never reaches a caller.
#[derive(Debug, Clone, Copy, PartialEq, Eq, Hash, Structural)]
pub struct NoWriterError;

/// Marks the types that can stand as a sink's failure payload.
pub trait WriterError {

}

impl WriterError for NoWriterError {

}

/// The coarse classification of a failure, for reporting in settings
/// where no message can be carried.
#[derive(Debug, Clone, Copy, PartialEq, Eq, Hash, Structural)]
pub enum ErrorKind {
    Serialization,
    Deserialization,
}

impl<We> Error<We> {
    /// Which engine the error belongs to: sink failures and oversized
    /// arities arise while encoding, everything else while decoding.
    pub fn kind(&self) -> (r: ErrorKind)
        ensures
            r == (if self is WriterError || self is InvalidSize {
                ErrorKind::Serialization
            } else {
                ErrorKind::Deserialization
            }),
    {
        match self {
            Error::WriterError(_) => ErrorKind::Serialization,
            Error::InvalidSize => ErrorKind::Serialization,
            _ => ErrorKind::Deserialization,
        }
    }
}

/// The error of an encoding or decoding run; `We` is the failure type of
/// the sink the encoder writes to (decoders use [`NoWriterError`]).
#[derive(Debug, PartialEq, Eq, Structural)]
pub enum Error<We> {
    /// The sink refused the bytes; encoding stops with the sink's failure.
    WriterError(We),
    /// Input was exhausted in the middle of a decode.
    Eof,
    /// A tag byte was invalid, or valid but wrong for its position.
    TagParsingError(TagParsingError),
    /// A declared length does not fit the width its context allows.
    InvalidSize,
    /// A code point outside the Unicode scalar range.
    InvalidChar(u32),
    /// A text payload that is not valid UTF-8.
    InvalidStr,
    /// A top-level decode succeeded but this many input bytes remain.
    TrailingBytes(usize),
    /// A fixed-arity container's declared count disagrees with the arity
    /// the caller expects.
    SeqSizeMismatch { expected: usize, got: usize },
    /// A shape this engine deliberately does not support.
    Unimplemented,
}

impl<We> Error<We> {
    /// Re-labels the sink-failure payload; every other variant is carried
    /// across unchanged.  Callers that know the error cannot be a sink
    /// failure use it to move an error between sink types.
    pub fn unwrap_writer_error<We2>(self) -> (r: Error<We2>)
        requires
            !(self is WriterError),
        ensures
            r == map_writer_variant::<We, We2>(self),
    {
        match self {
            Error::WriterError(_) => Error::Unimplemented,  // unreachable under the contract
            Error::Eof => Error::Eof,
            Error::TagParsingError(e) => Error::TagParsingError(e),
            Error::InvalidSize => Error::InvalidSize,
            Error::InvalidChar(c) => Error::InvalidChar(c),
            Error::InvalidStr => Error::InvalidStr,
            Error::TrailingBytes(n) => Error::TrailingBytes(n),
            Error::SeqSizeMismatch { expected, got } => Error::SeqSizeMismatch { expected, got },
            Error::Unimplemented => Error::Unimplemented,
        }
    }
}

/// What [`Error::unwrap_writer_error`] returns: the same error under the
/// new sink-failure type.  Meaningful only when the error is not a sink
/// failure.
pub open spec fn map_writer_variant<We, We2>(e: Error<We>) -> Error<We2> {
    match e {
        Error::WriterError(_) => Error::Unimplemented,
        Error::Eof => Error::Eof,
        Error::TagParsingError(t) => Error::TagParsingError(t),
        Error::InvalidSize => Error::InvalidSize,
        Error::InvalidChar(c) => Error::InvalidChar(c),
        Error::InvalidStr => Error::InvalidStr,
        Error::TrailingBytes(n) => Error::TrailingBytes(n),
        Error::SeqSizeMismatch { expected, got } => Error::SeqSizeMismatch { expected, got },
        Error::Unimplemented => Error::Unimplemented,
    }
}

impl<We> From<TagParsingError> for Error<We> {
    fn from(value: TagParsingError) -> (r: Self) {
        Error::TagParsingError(value)
    }
}

impl<We> vstd::std_specs::convert::FromSpecImpl<TagParsingError> for Error<We> {
    open spec fn obeys_from_spec() -> bool {
        true
    }

    open spec fn from_spec(value: TagParsingError) -> Self {
        Error::TagParsingError(value)
    }
}

} // verus!
