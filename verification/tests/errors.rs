//! The failure surface: sink exhaustion, size accounting, trailing
//! bytes, tag rejection, and the end marker's guarantees.

use bintag::de::Deserializer;
use bintag::error::{Error, NoWriterError};
use bintag::error::ErrorKind;
use bintag::tag::{Expected, Tag, TagParsingError};
use bintag::value::{Number, Value};
use bintag::write::{BuffWriter, DummyWriter, EndOfBuff, Write};
use bintag::{from_bytes, get_serialized_size, to_buff, to_bytes, to_writer};

#[test]
fn test_invalid_utf8_char() {
    let marker: [u8; 2] = [0xD8, 0x00];
    let [byte1, byte2] = marker;
    assert_eq!(
        char::from_u32(u32::from_be_bytes([0, 0, byte1, byte2])),
        None
    );
    assert!(core::str::from_utf8(&marker).is_err());
}

#[test]
fn measured_size_matches_encoding() {
    let values = [
        Value::Unit,
        Value::Bool(true),
        Value::Number(Number::I64(-1)),
        Value::Str(b"Hello".to_vec()),
        Value::UnsizedStr(b"run".to_vec()),
        Value::Array(vec![Value::Number(Number::U8(1)), Value::Char('仮')]),
        Value::UnsizedMapping(Vec::new()),
    ];
    for v in values {
        let measured = get_serialized_size(&v).unwrap();
        let encoded = to_bytes(&v).unwrap();
        assert_eq!(measured, encoded.len());
    }
}

#[test]
fn fixed_buffer_exact_fit_succeeds() {
    let v = Value::Str(b"Hello".to_vec());
    let size = get_serialized_size(&v).unwrap();
    let bw = to_buff(&v, vec![0u8; size]).unwrap();
    assert_eq!(bw.len(), size);
    assert!(!bw.is_empty());
    assert_eq!(bw.get(), to_bytes(&v).unwrap().as_slice());
    let (written, buffer) = bw.unwrap();
    assert_eq!(written, size);
    assert_eq!(buffer.len(), size);
}

#[test]
fn fixed_buffer_one_byte_short_fails() {
    let v = Value::Str(b"Hello".to_vec());
    let size = get_serialized_size(&v).unwrap();
    let r = to_buff(&v, vec![0u8; size - 1]);
    assert_eq!(r.unwrap_err(), Error::WriterError(EndOfBuff));
}

#[test]
fn trailing_byte_is_rejected() {
    let v = Value::Number(Number::U16(500));
    let mut bytes = to_bytes(&v).unwrap();
    bytes.push(0xFF);
    assert_eq!(from_bytes(&bytes).unwrap_err(), Error::TrailingBytes(1));
}

#[test]
fn invalid_tag_is_rejected() {
    let r: Result<Value, Error<NoWriterError>> = from_bytes(&[99, 0, 0]);
    assert_eq!(
        r.unwrap_err(),
        Error::TagParsingError(TagParsingError::InvalidTag(99))
    );
}

#[test]
fn valid_tag_in_wrong_context_is_rejected() {
    // a boolean tag where a struct is expected
    let bytes = vec![Tag::BoolTrue.to_byte()];
    let mut de = Deserializer::new(&bytes);
    assert_eq!(
        de.deserialize_struct(1).unwrap_err(),
        Error::TagParsingError(TagParsingError::UnexpectedTag {
            expected: Expected::Struct,
            got: Tag::BoolTrue,
        })
    );
}

#[test]
fn eof_in_the_middle_of_a_payload() {
    // a u32 tag with only two payload bytes behind it
    let bytes = vec![Tag::U32.to_byte(), 1, 2];
    assert_eq!(from_bytes(&bytes).unwrap_err(), Error::Eof);
    assert_eq!(from_bytes(&[]).unwrap_err(), Error::Eof);
}

#[test]
fn missing_end_marker_is_eof() {
    let mut bytes = vec![Tag::NullTerminatedString.to_byte()];
    bytes.extend_from_slice(b"never closed");
    assert_eq!(from_bytes(&bytes).unwrap_err(), Error::Eof);
}

#[test]
fn invalid_utf8_payload_is_rejected() {
    let mut bytes = vec![Tag::Str.to_byte()];
    bytes.extend_from_slice(&2u64.to_be_bytes());
    bytes.extend_from_slice(&[0xFF, 0xFE]);
    assert_eq!(from_bytes(&bytes).unwrap_err(), Error::InvalidStr);
}

#[test]
fn overlong_char_encoding_is_rejected() {
    // 0xC0 0x80 is an overlong two-byte form of NUL
    let bytes = vec![Tag::Char2.to_byte(), 0xC0, 0x80];
    assert_eq!(from_bytes(&bytes).unwrap_err(), Error::InvalidStr);
}

#[test]
fn arity_mismatch_is_reported() {
    let v = Value::Tuple(vec![Value::Unit, Value::Unit]);
    let bytes = to_bytes(&v).unwrap();
    let mut de = Deserializer::new(&bytes);
    assert_eq!(
        de.deserialize_tuple(3).unwrap_err(),
        Error::SeqSizeMismatch { expected: 3, got: 2 }
    );
}

#[test]
fn oversized_tuple_is_an_encode_error() {
    let v = Value::Tuple((0..256u32).map(|i| Value::Number(Number::U32(i))).collect());
    assert_eq!(to_bytes(&v).unwrap_err(), Error::InvalidSize);
    assert_eq!(get_serialized_size(&v).unwrap_err(), Error::InvalidSize);
}

#[test]
fn variant_fields_cannot_be_read_without_a_schema() {
    let v = Value::TupleVariant(0, vec![Value::Unit]);
    let bytes = to_bytes(&v).unwrap();
    assert_eq!(from_bytes(&bytes).unwrap_err(), Error::Unimplemented);
}

#[test]
fn end_tag_alone_is_out_of_place() {
    let bytes = vec![Tag::UnsizedSeqEnd.to_byte()];
    assert_eq!(
        from_bytes(&bytes).unwrap_err(),
        Error::TagParsingError(TagParsingError::UnexpectedTag {
            expected: Expected::AnyButSeqEnd,
            got: Tag::UnsizedSeqEnd,
        })
    );
}

#[test]
fn wrong_context_tags_are_classified_everywhere() {
    // a struct tag where a boolean is expected
    let bytes = vec![Tag::Struct.to_byte(), 0];
    let mut de = Deserializer::new(&bytes);
    assert_eq!(
        de.deserialize_bool().unwrap_err(),
        Error::TagParsingError(TagParsingError::UnexpectedTag {
            expected: Expected::Boolean,
            got: Tag::Struct,
        })
    );
    // the failed read consumed nothing: the right read still works
    let mut de2 = Deserializer::new(&bytes);
    assert!(de2.deserialize_bool().is_err());
    de2.deserialize_struct(0).unwrap();

    // a unit tag where an optional is expected
    let unit_only = [Tag::Unit.to_byte()];
    let mut de3 = Deserializer::new(&unit_only);
    assert_eq!(
        de3.deserialize_option().unwrap_err(),
        Error::TagParsingError(TagParsingError::UnexpectedTag {
            expected: Expected::Optional,
            got: Tag::Unit,
        })
    );
}

#[test]
fn short_payload_after_the_right_tag_is_eof() {
    let bytes = vec![Tag::U32.to_byte(), 1];
    let mut de = Deserializer::new(&bytes);
    assert_eq!(de.deserialize_u32().unwrap_err(), Error::Eof);
    // the cursor did not move, so the stream can be reread
    assert_eq!(de.remaining_len(), 2);
}

#[test]
fn counting_sink_counts_without_keeping() {
    let mut dw = DummyWriter::new();
    assert_eq!(dw.count(), 0);
    dw.write_bytes(&[1, 2, 3]).unwrap();
    dw.write_byte(4).unwrap();
    assert_eq!(dw.count(), 4);
}

#[test]
fn generic_sink_entry_point() {
    let v = Value::Bool(true);
    let (sink, result) = to_writer(&v, Vec::new());
    assert_eq!(result.unwrap(), 1);
    assert_eq!(sink, to_bytes(&v).unwrap());
}

#[test]
fn buffer_writer_rejects_only_what_cannot_fit() {
    let mut bw = BuffWriter::new(vec![0u8; 2]);
    bw.write_byte(9).unwrap();
    assert_eq!(bw.write_bytes(&[1, 2]).unwrap_err(), EndOfBuff);
    bw.write_byte(8).unwrap();
    assert_eq!(bw.get(), &[9, 8]);
}

#[test]
fn error_kinds_split_by_engine() {
    let enc: Error<NoWriterError> = Error::InvalidSize;
    let dec: Error<NoWriterError> = Error::Eof;
    assert_eq!(enc.kind(), ErrorKind::Serialization);
    assert_eq!(dec.kind(), ErrorKind::Deserialization);
    assert_eq!(dec.unwrap_writer_error::<EndOfBuff>(), Error::Eof);
}
