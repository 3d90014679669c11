//! Byte-exact checks of the wire format: every tag, length and payload
//! lands where the grammar says.

use bintag::tag::Tag;
use bintag::value::{Number, Value, ValueEntry};
use bintag::{from_bytes, to_bytes};

fn struct_hello() -> Value {
    Value::Struct(vec![
        Value::Number(Number::U64(56)),
        Value::Str(b"Hello".to_vec()),
    ])
}

#[test]
fn test_serialize_struct() {
    let v = struct_hello();
    let out = to_bytes(&v).unwrap();

    let struct_tag: u8 = Tag::Struct.to_byte();
    let struct_size: u8 = 2;
    let num_tag: u8 = Tag::U64.to_byte();
    let n_bytes = u64::to_be_bytes(56);
    let string_tag: u8 = Tag::Str.to_byte();
    let len = u64::to_be_bytes(5);
    let str_bytes = b"Hello";

    let check: Vec<u8> = [struct_tag, struct_size, num_tag]
        .into_iter()
        .chain(n_bytes)
        .chain(Some(string_tag))
        .chain(len)
        .chain(str_bytes.iter().copied())
        .collect();

    assert_eq!(out, check);
}

#[test]
fn test_serialize_deserialize_struct() {
    let v = struct_hello();
    let out = to_bytes(&v).unwrap();
    let back = from_bytes(&out).unwrap();
    assert_eq!(back, struct_hello());
}

#[test]
fn test_serialize_enum_unit() {
    let v = Value::UnitVariant(0);
    let out = to_bytes(&v).unwrap();
    assert_eq!(out, vec![Tag::UnitVariant.to_byte(), 0, 0, 0, 0]);
}

#[test]
fn test_serialize_enum_newtype() {
    let v = Value::NewtypeVariant(1, Box::new(Value::Number(Number::U8(56))));
    let out = to_bytes(&v).unwrap();
    assert_eq!(
        out,
        // variant tag                 | variant idx |  u8 tag          | u8
        vec![Tag::NewTypeVariant.to_byte(), 0, 0, 0, 1, Tag::U8.to_byte(), 56]
    );
}

#[test]
fn test_serialize_enum_tuple() {
    let num: f32 = 12.3;
    let v = Value::TupleVariant(
        2,
        vec![
            Value::Number(Number::F32Bits(num.to_bits())),
            Value::Str(b"String".to_vec()),
        ],
    );
    let out = to_bytes(&v).unwrap();

    let variant_tag: u8 = Tag::TupleVariant.to_byte();
    let variant_index_bytes = 2u32.to_be_bytes();
    let f32_tag: u8 = Tag::F32.to_byte();
    let fbytes = num.to_be_bytes();
    let string_tag: u8 = Tag::Str.to_byte();
    let len_bytes = 6u64.to_be_bytes();
    let str_bytes = b"String";
    let check = [variant_tag]
        .into_iter()
        .chain(variant_index_bytes)
        .chain([f32_tag])
        .chain(fbytes)
        .chain([string_tag])
        .chain(len_bytes)
        .chain(str_bytes.iter().copied())
        .collect::<Vec<u8>>();

    assert_eq!(out, check);
}

#[test]
fn test_serialize_enum_struct() {
    let num: f64 = 42.123;
    let elems: [u16; 4] = [3, 7, 1, 8];
    let v = Value::StructVariant(
        3,
        vec![
            Value::Number(Number::F64Bits(num.to_bits())),
            Value::Array(
                elems
                    .iter()
                    .map(|x| Value::Number(Number::U16(*x)))
                    .collect(),
            ),
        ],
    );
    let out = to_bytes(&v).unwrap();

    let variant_tag: u8 = Tag::StructVariant.to_byte();
    let variant_index_bytes = 3u32.to_be_bytes();
    let num_tag: u8 = Tag::F64.to_byte();
    let fbytes = num.to_be_bytes();
    let seq_tag: u8 = Tag::SizedSeq.to_byte();
    let len_bytes = 4u64.to_be_bytes();
    let vec_bytes = elems
        .iter()
        .copied()
        .map(u16::to_be_bytes)
        .flat_map(|[a, b]| [Tag::U16.to_byte(), a, b]);
    let check = [variant_tag]
        .into_iter()
        .chain(variant_index_bytes)
        .chain([num_tag])
        .chain(fbytes)
        .chain([seq_tag])
        .chain(len_bytes)
        .chain(vec_bytes)
        .collect::<Vec<u8>>();

    assert_eq!(out, check);
}

#[test]
fn unsized_sequence_layout() {
    let v = Value::UnsizedArray(vec![
        Value::Number(Number::U8(7)),
        Value::Number(Number::U8(9)),
    ]);
    let out = to_bytes(&v).unwrap();
    assert_eq!(
        out,
        vec![
            Tag::UnsizedSeq.to_byte(),
            Tag::U8.to_byte(),
            7,
            Tag::U8.to_byte(),
            9,
            Tag::UnsizedSeqEnd.to_byte(),
        ]
    );
}

#[test]
fn unsized_string_layout() {
    let v = Value::UnsizedStr(b"john".to_vec());
    let out = to_bytes(&v).unwrap();
    let mut check = vec![Tag::NullTerminatedString.to_byte()];
    check.extend_from_slice(b"john");
    check.push(0xD8);
    check.push(0x00);
    assert_eq!(out, check);
}

#[test]
fn map_layout_keeps_order_and_duplicates() {
    let v = Value::Mapping(vec![
        ValueEntry {
            key: Value::Number(Number::U8(1)),
            value: Value::Bool(true),
        },
        ValueEntry {
            key: Value::Number(Number::U8(1)),
            value: Value::Bool(false),
        },
    ]);
    let out = to_bytes(&v).unwrap();
    let mut check = vec![Tag::SizedMap.to_byte()];
    check.extend_from_slice(&2u64.to_be_bytes());
    check.extend_from_slice(&[
        Tag::U8.to_byte(),
        1,
        Tag::BoolTrue.to_byte(),
        Tag::U8.to_byte(),
        1,
        Tag::BoolFalse.to_byte(),
    ]);
    assert_eq!(out, check);
    assert_eq!(from_bytes(&out).unwrap(), v);
}

#[test]
fn tag_bytes_round_trip() {
    let mut seen = 0u32;
    for b in 0u16..=255u16 {
        match Tag::from_byte(b as u8) {
            Ok(t) => {
                assert!(b <= 37);
                assert_eq!(t.to_byte(), b as u8);
                seen += 1;
            }
            Err(e) => {
                assert!(b > 37);
                assert_eq!(e, bintag::tag::TagParsingError::InvalidTag(b as u8));
            }
        }
    }
    assert_eq!(seen, 38);
}

#[test]
fn char_tags_name_the_width() {
    let (t1, b1) = Tag::encode_char('Y');
    assert_eq!((t1, b1.len()), (Tag::Char1, 1));
    let (t2, b2) = Tag::encode_char('\u{ee}');
    assert_eq!((t2, b2.len()), (Tag::Char2, 2));
    let (t3, b3) = Tag::encode_char('\u{80e}');
    assert_eq!((t3, b3.len()), (Tag::Char3, 3));
    let (t4, b4) = Tag::encode_char('\u{12000}');
    assert_eq!((t4, b4.len()), (Tag::Char4, 4));
}
