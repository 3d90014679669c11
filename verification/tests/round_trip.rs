//! Round trips through the wire: decoding an encoding yields the value
//! back, for every shape the self-describing reading can carry, and for
//! the arity-bearing variants through the schema-driven reading.

use bintag::de::Deserializer;
use bintag::value::{Number, Value, ValueEntry};
use bintag::{from_bytes, to_bytes};

fn round_trip(v: Value) -> Value {
    let bytes = to_bytes(&v).unwrap();
    from_bytes(&bytes).unwrap()
}

fn assert_round_trips(v: Value, again: Value) {
    assert_eq!(round_trip(v), again);
}

#[test]
fn numbers_at_extremes() {
    let cases = [
        Number::I8(i8::MIN),
        Number::I8(0),
        Number::I8(i8::MAX),
        Number::I16(i16::MIN),
        Number::I16(0),
        Number::I16(i16::MAX),
        Number::I32(i32::MIN),
        Number::I32(0),
        Number::I32(i32::MAX),
        Number::I64(i64::MIN),
        Number::I64(0),
        Number::I64(i64::MAX),
        Number::U8(0),
        Number::U8(u8::MAX),
        Number::U16(0),
        Number::U16(u16::MAX),
        Number::U32(0),
        Number::U32(u32::MAX),
        Number::U64(0),
        Number::U64(u64::MAX),
        Number::I128(i128::MIN),
        Number::I128(0),
        Number::I128(i128::MAX),
        Number::U128(0),
        Number::U128(u128::MAX),
        Number::F32Bits(1.5f32.to_bits()),
        Number::F32Bits((-12.3f32).to_bits()),
        Number::F64Bits(42.123f64.to_bits()),
        Number::F64Bits(f64::NEG_INFINITY.to_bits()),
    ];
    for n in cases {
        assert_round_trips(Value::Number(n), Value::Number(n));
    }
}

#[test]
fn booleans_and_units() {
    assert_round_trips(Value::Bool(false), Value::Bool(false));
    assert_round_trips(Value::Bool(true), Value::Bool(true));
    assert_round_trips(Value::Unit, Value::Unit);
    assert_round_trips(Value::UnitStruct, Value::UnitStruct);
}

#[test]
fn test_serialize_deserialize_char1() {
    let v = to_bytes(&Value::Char('Y')).unwrap();
    assert_eq!(v.len(), 2);
    assert_eq!(from_bytes(&v).unwrap(), Value::Char('Y'));
}

#[test]
fn test_serialize_deserialize_char2() {
    let c = '\u{ee}';
    let v = to_bytes(&Value::Char(c)).unwrap();
    assert_eq!(v.len(), 3);
    assert_eq!(from_bytes(&v).unwrap(), Value::Char(c));
}

#[test]
fn test_serialize_deserialize_char3() {
    let c = '\u{80e}';
    let v = to_bytes(&Value::Char(c)).unwrap();
    assert_eq!(v.len(), 4);
    assert_eq!(from_bytes(&v).unwrap(), Value::Char(c));
}

#[test]
fn test_serialize_deserialize_char4() {
    let c = '\u{12000}';
    let v = to_bytes(&Value::Char(c)).unwrap();
    assert_eq!(v.len(), 5);
    assert_eq!(from_bytes(&v).unwrap(), Value::Char(c));
}

#[test]
fn strings_empty_and_full() {
    assert_round_trips(Value::Str(Vec::new()), Value::Str(Vec::new()));
    assert_round_trips(
        Value::Str("déjà vu 𒀀".as_bytes().to_vec()),
        Value::Str("déjà vu 𒀀".as_bytes().to_vec()),
    );
    assert_round_trips(Value::UnsizedStr(Vec::new()), Value::UnsizedStr(Vec::new()));
    assert_round_trips(
        Value::UnsizedStr(b"streamed".to_vec()),
        Value::UnsizedStr(b"streamed".to_vec()),
    );
    // a payload that contains the marker's first byte, legally followed
    // by a continuation byte
    let tricky = "\u{600}x";
    assert_eq!(tricky.as_bytes()[0], 0xD8);
    assert_round_trips(
        Value::UnsizedStr(tricky.as_bytes().to_vec()),
        Value::UnsizedStr(tricky.as_bytes().to_vec()),
    );
}

#[test]
fn byte_arrays() {
    assert_round_trips(Value::Bytes(Vec::new()), Value::Bytes(Vec::new()));
    assert_round_trips(
        Value::Bytes(vec![0, 1, 0xD8, 0x00, 255]),
        Value::Bytes(vec![0, 1, 0xD8, 0x00, 255]),
    );
}

#[test]
fn nested_options() {
    let v = Value::OptionSome(Box::new(Value::OptionNone));
    let again = Value::OptionSome(Box::new(Value::OptionNone));
    assert_round_trips(v, again);
    let v2 = Value::OptionSome(Box::new(Value::OptionSome(Box::new(Value::Number(
        Number::U8(3),
    )))));
    let a2 = Value::OptionSome(Box::new(Value::OptionSome(Box::new(Value::Number(
        Number::U8(3),
    )))));
    assert_round_trips(v2, a2);
}

#[test]
fn sequences_empty_and_nested() {
    assert_round_trips(Value::Array(Vec::new()), Value::Array(Vec::new()));
    let v = Value::Array(vec![
        Value::Array(vec![Value::Number(Number::I32(-5))]),
        Value::UnsizedArray(vec![Value::Bool(true)]),
    ]);
    let a = Value::Array(vec![
        Value::Array(vec![Value::Number(Number::I32(-5))]),
        Value::UnsizedArray(vec![Value::Bool(true)]),
    ]);
    assert_round_trips(v, a);
}

#[test]
fn maps_empty_and_nested() {
    assert_round_trips(Value::Mapping(Vec::new()), Value::Mapping(Vec::new()));
    let make = || {
        Value::UnsizedMapping(vec![ValueEntry {
            key: Value::Str(b"k".to_vec()),
            value: Value::Mapping(vec![ValueEntry {
                key: Value::Number(Number::U8(1)),
                value: Value::Unit,
            }]),
        }])
    };
    assert_round_trips(make(), make());
}

#[test]
fn struct_with_no_fields() {
    assert_round_trips(Value::Struct(Vec::new()), Value::Struct(Vec::new()));
    assert_round_trips(Value::TupleStruct(Vec::new()), Value::TupleStruct(Vec::new()));
}

#[test]
fn tuple_at_the_cap() {
    let make = || Value::Tuple((0..255u32).map(|i| Value::Number(Number::U32(i))).collect());
    assert_round_trips(make(), make());
}

#[test]
fn newtype_struct_and_unit_variant() {
    let make = || Value::NewtypeStruct(Box::new(Value::Str(b"inner".to_vec())));
    assert_round_trips(make(), make());
    assert_round_trips(Value::UnitVariant(7), Value::UnitVariant(7));
    let mk = || Value::NewtypeVariant(1, Box::new(Value::Number(Number::U8(56))));
    assert_round_trips(mk(), mk());
}

#[test]
fn test_serialize_deserialize_enum_unit() {
    assert_round_trips(Value::UnitVariant(0), Value::UnitVariant(0));
}

#[test]
fn test_serialize_deserialize_enum_newtype() {
    let mk = || Value::NewtypeVariant(1, Box::new(Value::Number(Number::U8(56))));
    assert_round_trips(mk(), mk());
}

#[test]
fn test_serialize_deserialize_enum_tuple() {
    // tuple variants write no arity, so reading one back takes the
    // schema-driven API with the arity supplied by the caller
    let num: f32 = 12.3;
    let v = Value::TupleVariant(
        2,
        vec![
            Value::Number(Number::F32Bits(num.to_bits())),
            Value::Str(b"String".to_vec()),
        ],
    );
    let bytes = to_bytes(&v).unwrap();

    let mut de = Deserializer::new(&bytes);
    de.deserialize_enum().unwrap();
    assert_eq!(de.deserialize_identifier().unwrap(), 2);
    assert_eq!(de.deserialize_f32_bits().unwrap(), num.to_bits());
    assert_eq!(de.deserialize_str().unwrap(), b"String");
    assert_eq!(de.remaining_len(), 0);
}

#[test]
fn test_serialize_deserialize_enum_struct() {
    let num: f64 = 42.123;
    let v = Value::StructVariant(
        3,
        vec![
            Value::Number(Number::F64Bits(num.to_bits())),
            Value::Array(vec![
                Value::Number(Number::U16(3)),
                Value::Number(Number::U16(7)),
            ]),
        ],
    );
    let bytes = to_bytes(&v).unwrap();

    let mut de = Deserializer::new(&bytes);
    de.deserialize_enum().unwrap();
    assert_eq!(de.deserialize_identifier().unwrap(), 3);
    assert_eq!(de.deserialize_f64_bits().unwrap(), num.to_bits());
    assert_eq!(de.deserialize_seq().unwrap(), Some(2));
    assert_eq!(de.deserialize_u16().unwrap(), 3);
    assert_eq!(de.deserialize_u16().unwrap(), 7);
    assert_eq!(de.remaining_len(), 0);
}

#[test]
fn unsized_and_sized_sequences_agree() {
    // the same contents round-trip identically whether the length was
    // known up front or the run was closed by the end tag
    let contents = || {
        vec![
            Value::Number(Number::U8(1)),
            Value::Number(Number::U8(2)),
            Value::Number(Number::U8(3)),
        ]
    };
    let sized = from_bytes(&to_bytes(&Value::Array(contents())).unwrap()).unwrap();
    let unsized_back = from_bytes(&to_bytes(&Value::UnsizedArray(contents())).unwrap()).unwrap();
    let sized_elems = match sized {
        Value::Array(es) => es,
        _ => panic!("expected a sized sequence"),
    };
    let unsized_elems = match unsized_back {
        Value::UnsizedArray(es) => es,
        _ => panic!("expected an end-marked sequence"),
    };
    assert_eq!(sized_elems, unsized_elems);
    assert_eq!(sized_elems, contents());
}

#[test]
fn dynamic_tree_re_encodes_to_the_same_bytes() {
    // self-describing fidelity: the tree built from the bytes re-encodes
    // to exactly the bytes it was built from
    let v = Value::Struct(vec![
        Value::Char('c'),
        Value::Str(b"foo".to_vec()),
        Value::Mapping(vec![ValueEntry {
            key: Value::Str(b"age".to_vec()),
            value: Value::Number(Number::U32(32)),
        }]),
    ]);
    let bytes = to_bytes(&v).unwrap();
    let tree = from_bytes(&bytes).unwrap();
    let re = to_bytes(&tree).unwrap();
    assert_eq!(re, bytes);
    assert_eq!(from_bytes(&re).unwrap(), tree);
}
