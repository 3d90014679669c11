//! Driving the engines shape by shape, as an external traversal does:
//! each emit call writes its piece, and the mirrored reads take them
//! back in order.

use bintag::de::Deserializer;
use bintag::ser::{SeqSerializer, Serializer};
use bintag::value::{Number, Value};
use bintag::{from_bytes, to_bytes};

#[test]
fn emitting_piecewise_matches_the_tree_encoder() {
    // a struct of two fields: a u64 and a string
    let mut ser = Serializer::new(Vec::new());
    let mut st = ser.serialize_struct(2).unwrap();
    st.ser_value(&mut ser, &Value::Number(Number::U64(56))).unwrap();
    st.ser_value(&mut ser, &Value::Str(b"Hello".to_vec())).unwrap();
    let _ = st.finish(&mut ser).unwrap();
    let piecewise = ser.into_writer();

    let tree = Value::Struct(vec![
        Value::Number(Number::U64(56)),
        Value::Str(b"Hello".to_vec()),
    ]);
    assert_eq!(piecewise, to_bytes(&tree).unwrap());
}

#[test]
fn unknown_length_sequence_streams_and_closes() {
    let mut ser = Serializer::new(Vec::new());
    let mut ss: SeqSerializer = ser.serialize_seq(None).unwrap();
    assert!(!ss.sized);
    ss.ser_value(&mut ser, &Value::Number(Number::U8(1))).unwrap();
    ss.ser_value(&mut ser, &Value::Number(Number::U8(2))).unwrap();
    let _ = ss.finish(&mut ser).unwrap();
    let streamed = ser.into_writer();

    let counted = to_bytes(&Value::UnsizedArray(vec![
        Value::Number(Number::U8(1)),
        Value::Number(Number::U8(2)),
    ]))
    .unwrap();
    assert_eq!(streamed, counted);

    // and the decoded contents match the known-length form's
    let via_unsized = from_bytes(&streamed).unwrap();
    let sized_bytes = to_bytes(&Value::Array(vec![
        Value::Number(Number::U8(1)),
        Value::Number(Number::U8(2)),
    ]))
    .unwrap();
    let via_sized = from_bytes(&sized_bytes).unwrap();
    let a = match via_unsized {
        Value::UnsizedArray(es) => es,
        _ => panic!("expected an end-marked sequence"),
    };
    let b = match via_sized {
        Value::Array(es) => es,
        _ => panic!("expected a sized sequence"),
    };
    assert_eq!(a, b);
}

#[test]
fn primitive_emits_and_reads_mirror_each_other() {
    let mut ser = Serializer::new(Vec::new());
    ser.serialize_bool(true).unwrap();
    ser.serialize_i8(-5).unwrap();
    ser.serialize_i16(-300).unwrap();
    ser.serialize_i32(70_000).unwrap();
    ser.serialize_i64(-1).unwrap();
    ser.serialize_u8(255).unwrap();
    ser.serialize_u16(500).unwrap();
    ser.serialize_u32(1).unwrap();
    ser.serialize_u64(u64::MAX).unwrap();
    ser.serialize_i128(-7).unwrap();
    ser.serialize_u128(7).unwrap();
    ser.serialize_f32_bits(12.5f32.to_bits()).unwrap();
    ser.serialize_f64_bits(0.25f64.to_bits()).unwrap();
    ser.serialize_char('q').unwrap();
    ser.serialize_str(b"text").unwrap();
    ser.serialize_bytes(&[1, 2]).unwrap();
    ser.serialize_unit().unwrap();
    ser.serialize_none().unwrap();
    let bytes = ser.into_writer();

    let mut de = Deserializer::new(&bytes);
    assert!(de.deserialize_bool().unwrap());
    assert_eq!(de.deserialize_i8().unwrap(), -5);
    assert_eq!(de.deserialize_i16().unwrap(), -300);
    assert_eq!(de.deserialize_i32().unwrap(), 70_000);
    assert_eq!(de.deserialize_i64().unwrap(), -1);
    assert_eq!(de.deserialize_u8().unwrap(), 255);
    assert_eq!(de.deserialize_u16().unwrap(), 500);
    assert_eq!(de.deserialize_u32().unwrap(), 1);
    assert_eq!(de.deserialize_u64().unwrap(), u64::MAX);
    assert_eq!(de.deserialize_i128().unwrap(), -7);
    assert_eq!(de.deserialize_u128().unwrap(), 7);
    assert_eq!(de.deserialize_f32_bits().unwrap(), 12.5f32.to_bits());
    assert_eq!(de.deserialize_f64_bits().unwrap(), 0.25f64.to_bits());
    assert_eq!(de.deserialize_char().unwrap(), 'q');
    assert_eq!(de.deserialize_str().unwrap(), b"text");
    assert_eq!(de.deserialize_bytes().unwrap(), &[1, 2]);
    de.deserialize_unit().unwrap();
    assert!(!de.deserialize_option().unwrap());
    assert_eq!(de.remaining_len(), 0);
}

#[test]
fn option_and_newtype_openers() {
    let mut ser = Serializer::new(Vec::new());
    ser.serialize_some().unwrap();
    ser.serialize_newtype_struct().unwrap();
    ser.serialize_u8(9).unwrap();
    let bytes = ser.into_writer();

    let mut de = Deserializer::new(&bytes);
    assert!(de.deserialize_option().unwrap());
    de.deserialize_newtype_struct().unwrap();
    assert_eq!(de.deserialize_u8().unwrap(), 9);
    assert_eq!(de.remaining_len(), 0);
}

#[test]
fn variant_openers_and_identifier() {
    let mut ser = Serializer::new(Vec::new());
    ser.serialize_unit_variant(4).unwrap();
    ser.serialize_newtype_variant(5).unwrap();
    ser.serialize_u8(1).unwrap();
    ser.serialize_tuple_variant(6).unwrap();
    ser.serialize_bool(false).unwrap();
    ser.serialize_struct_variant(7).unwrap();
    ser.serialize_unit_struct().unwrap();
    let bytes = ser.into_writer();

    let mut de = Deserializer::new(&bytes);
    de.deserialize_enum().unwrap();
    assert_eq!(de.deserialize_identifier().unwrap(), 4);
    assert_eq!(de.deserialize_identifier().unwrap(), 5);
    assert_eq!(de.deserialize_u8().unwrap(), 1);
    assert_eq!(de.deserialize_identifier().unwrap(), 6);
    assert!(!de.deserialize_bool().unwrap());
    assert_eq!(de.deserialize_identifier().unwrap(), 7);
    de.deserialize_unit_struct().unwrap();
    assert_eq!(de.remaining_len(), 0);
}

#[test]
fn end_marked_map_reads_until_its_end() {
    let mut ser = Serializer::new(Vec::new());
    let mut mm = ser.serialize_map(None).unwrap();
    mm.ser_value(&mut ser, &Value::Str(b"a".to_vec())).unwrap();
    mm.ser_value(&mut ser, &Value::Char('c')).unwrap();
    let _ = mm.finish(&mut ser).unwrap();
    let bytes = ser.into_writer();

    let mut de = Deserializer::new(&bytes);
    assert_eq!(de.deserialize_map().unwrap(), None);
    assert!(!de.check_seq_end().unwrap());
    assert_eq!(de.deserialize_str().unwrap(), b"a");
    assert_eq!(de.deserialize_char().unwrap(), 'c');
    assert!(de.check_seq_end().unwrap());
    assert_eq!(de.remaining_len(), 0);
}

#[test]
fn display_formatted_text_streams_end_marked() {
    let shown = format!("{}", 1234);
    let mut ser = Serializer::new(Vec::new());
    ser.collect_str(shown.as_bytes()).unwrap();
    let bytes = ser.into_writer();
    assert_eq!(
        from_bytes(&bytes).unwrap(),
        Value::UnsizedStr(b"1234".to_vec())
    );
}
