//! The tree of values the engines walk.
//!
//! A [`Value`] mirrors the wire grammar one node per tag: primitives,
//! strings and byte arrays, options, the four enum-variant kinds, the
//! fixed-arity containers, and sequences and maps in both the
//! length-prefixed and end-marked forms.  Struct-likes carry their fields
//! positionally: field names are never written and cannot be recovered.
//!
//! [`SpecValue`] is the mathematical shadow of the same tree, with
//! sequences in place of vectors; all contracts speak of it.

use vstd::prelude::*;
use vstd::utf8::valid_utf8;

verus! {

/// A numeric payload, one variant per wire width and signedness.
/// Floating-point payloads are carried as their IEEE-754 bit patterns,
/// which is exactly what the wire stores.
#[derive(Debug, Clone, Copy, PartialEq, Eq, Hash, Structural)]
pub enum Number {
    I8(i8),
    I16(i16),
    I32(i32),
    I64(i64),
    U8(u8),
    U16(u16),
    U32(u32),
    U64(u64),
    F32Bits(u32),
    F64Bits(u64),
    I128(i128),
    U128(u128),
}

/// One key-value pair of an encoded map.  Duplicate keys are allowed and
/// entry order is preserved.
#[derive(Debug, PartialEq)]
pub struct ValueEntry {
    pub key: Value,
    pub value: Value,
}

/// A decoded or to-be-encoded value.  String payloads are held as their
/// UTF-8 bytes; a well-formed value (see [`wf_value`]) holds only valid
/// UTF-8 there.
#[derive(Debug, PartialEq)]
pub enum Value {
    /// The unit value; tag only on the wire.
    Unit,
    /// A unit struct; distinct tag, no payload.
    UnitStruct,
    Bool(bool),
    Number(Number),
    Char(char),
    /// A length-prefixed UTF-8 string.
    Str(Vec<u8>),
    /// An end-marked UTF-8 string, as produced for incrementally
    /// formatted text whose length is unknown up front.
    UnsizedStr(Vec<u8>),
    /// A length-prefixed raw byte array.
    Bytes(Vec<u8>),
    OptionNone,
    OptionSome(Box<Value>),
    NewtypeStruct(Box<Value>),
    /// An enum variant with no payload: the 4-byte variant index alone.
    UnitVariant(u32),
    NewtypeVariant(u32, Box<Value>),
    /// Variant index plus fields back to back; the arity is not written,
    /// so only a schema-driven decode can read it back.
    TupleVariant(u32, Vec<Value>),
    StructVariant(u32, Vec<Value>),
    /// Fixed-arity positional fields behind a one-byte count.
    Tuple(Vec<Value>),
    TupleStruct(Vec<Value>),
    Struct(Vec<Value>),
    /// A sequence with an 8-byte length prefix.
    Array(Vec<Value>),
    /// A sequence terminated by an end tag instead of a length.
    UnsizedArray(Vec<Value>),
    /// A map with an 8-byte entry-count prefix.
    Mapping(Vec<ValueEntry>),
    /// A map terminated by an end tag instead of a count.
    UnsizedMapping(Vec<ValueEntry>),
}

/// The mathematical shadow of [`Value`].
pub enum SpecValue {
    Unit,
    UnitStruct,
    Bool(bool),
    Number(Number),
    Char(char),
    Str(Seq<u8>),
    UnsizedStr(Seq<u8>),
    Bytes(Seq<u8>),
    OptionNone,
    OptionSome(Box<SpecValue>),
    NewtypeStruct(Box<SpecValue>),
    UnitVariant(u32),
    NewtypeVariant(u32, Box<SpecValue>),
    TupleVariant(u32, Seq<SpecValue>),
    StructVariant(u32, Seq<SpecValue>),
    Tuple(Seq<SpecValue>),
    TupleStruct(Seq<SpecValue>),
    Struct(Seq<SpecValue>),
    Array(Seq<SpecValue>),
    UnsizedArray(Seq<SpecValue>),
    Mapping(Seq<(SpecValue, SpecValue)>),
    UnsizedMapping(Seq<(SpecValue, SpecValue)>),
}

/// The shadow of a value.
pub open spec fn view_value(v: Value) -> SpecValue
    decreases v,
{
    match v {
        Value::Unit => SpecValue::Unit,
        Value::UnitStruct => SpecValue::UnitStruct,
        Value::Bool(b) => SpecValue::Bool(b),
        Value::Number(n) => SpecValue::Number(n),
        Value::Char(c) => SpecValue::Char(c),
        Value::Str(b) => SpecValue::Str(b@),
        Value::UnsizedStr(b) => SpecValue::UnsizedStr(b@),
        Value::Bytes(b) => SpecValue::Bytes(b@),
        Value::OptionNone => SpecValue::OptionNone,
        Value::OptionSome(x) => SpecValue::OptionSome(Box::new(view_value(*x))),
        Value::NewtypeStruct(x) => SpecValue::NewtypeStruct(Box::new(view_value(*x))),
        Value::UnitVariant(i) => SpecValue::UnitVariant(i),
        Value::NewtypeVariant(i, x) => SpecValue::NewtypeVariant(i, Box::new(view_value(*x))),
        Value::TupleVariant(i, fs) => SpecValue::TupleVariant(i, view_list(fs@)),
        Value::StructVariant(i, fs) => SpecValue::StructVariant(i, view_list(fs@)),
        Value::Tuple(fs) => SpecValue::Tuple(view_list(fs@)),
        Value::TupleStruct(fs) => SpecValue::TupleStruct(view_list(fs@)),
        Value::Struct(fs) => SpecValue::Struct(view_list(fs@)),
        Value::Array(es) => SpecValue::Array(view_list(es@)),
        Value::UnsizedArray(es) => SpecValue::UnsizedArray(view_list(es@)),
        Value::Mapping(es) => SpecValue::Mapping(view_entries(es@)),
        Value::UnsizedMapping(es) => SpecValue::UnsizedMapping(view_entries(es@)),
    }
}

/// The shadows of a run of values, in order.
pub open spec fn view_list(s: Seq<Value>) -> Seq<SpecValue>
    decreases s,
{
    if s.len() == 0 {
        Seq::empty()
    } else {
        seq![view_value(s[0])] + view_list(s.drop_first())
    }
}

/// The shadows of a run of map entries, in order.
pub open spec fn view_entries(s: Seq<ValueEntry>) -> Seq<(SpecValue, SpecValue)>
    decreases s,
{
    if s.len() == 0 {
        Seq::empty()
    } else {
        seq![(view_value(s[0].key), view_value(s[0].value))] + view_entries(s.drop_first())
    }
}

impl View for Value {
    type V = SpecValue;

    open spec fn view(&self) -> SpecValue {
        view_value(*self)
    }
}

/// The shadow of a run of values is as long as the run and shadows it
/// pointwise.
pub proof fn lemma_view_list(s: Seq<Value>)
    ensures
        view_list(s).len() == s.len(),
        forall|i: int| 0 <= i < s.len() ==> view_list(s)[i] == view_value(s[i]),
    decreases s.len(),
{
    if s.len() > 0 {
        lemma_view_list(s.drop_first());
    }
}

/// The shadow of a run of entries is as long as the run and shadows it
/// pointwise.
pub proof fn lemma_view_entries(s: Seq<ValueEntry>)
    ensures
        view_entries(s).len() == s.len(),
        forall|i: int|
            0 <= i < s.len() ==> view_entries(s)[i] == (
            view_value(s[i].key),
            view_value(s[i].value),
            ),
    decreases s.len(),
{
    if s.len() > 0 {
        lemma_view_entries(s.drop_first());
    }
}

/// True when the encoder can emit the value: every fixed-arity container
/// fits its one-byte count and every length-prefixed run fits its 8-byte
/// length.  Exceeding the one-byte cap is an encode-time error, never a
/// silent truncation.
pub open spec fn encodable(v: SpecValue) -> bool
    decreases v,
{
    match v {
        SpecValue::Unit => true,
        SpecValue::UnitStruct => true,
        SpecValue::Bool(_) => true,
        SpecValue::Number(_) => true,
        SpecValue::Char(_) => true,
        SpecValue::Str(b) => b.len() <= usize::MAX,
        SpecValue::UnsizedStr(_) => true,
        SpecValue::Bytes(b) => b.len() <= usize::MAX,
        SpecValue::OptionNone => true,
        SpecValue::OptionSome(x) => encodable(*x),
        SpecValue::NewtypeStruct(x) => encodable(*x),
        SpecValue::UnitVariant(_) => true,
        SpecValue::NewtypeVariant(_, x) => encodable(*x),
        SpecValue::TupleVariant(_, fs) => encodable_list(fs),
        SpecValue::StructVariant(_, fs) => encodable_list(fs),
        SpecValue::Tuple(fs) => fs.len() <= 255 && encodable_list(fs),
        SpecValue::TupleStruct(fs) => fs.len() <= 255 && encodable_list(fs),
        SpecValue::Struct(fs) => fs.len() <= 255 && encodable_list(fs),
        SpecValue::Array(es) => es.len() <= usize::MAX && encodable_list(es),
        SpecValue::UnsizedArray(es) => encodable_list(es),
        SpecValue::Mapping(es) => es.len() <= usize::MAX && encodable_entries(es),
        SpecValue::UnsizedMapping(es) => encodable_entries(es),
    }
}

/// Every value of the run is encodable.
pub open spec fn encodable_list(s: Seq<SpecValue>) -> bool
    decreases s,
{
    if s.len() == 0 {
        true
    } else {
        encodable(s[0]) && encodable_list(s.drop_first())
    }
}

/// Every key and value of the run is encodable.
pub open spec fn encodable_entries(s: Seq<(SpecValue, SpecValue)>) -> bool
    decreases s,
{
    if s.len() == 0 {
        true
    } else {
        encodable(s[0].0) && encodable(s[0].1) && encodable_entries(s.drop_first())
    }
}

/// Every string payload in the tree is valid UTF-8.  Decoding enforces
/// this, and only such values round-trip.
pub open spec fn texts_valid(v: SpecValue) -> bool
    decreases v,
{
    match v {
        SpecValue::Unit => true,
        SpecValue::UnitStruct => true,
        SpecValue::Bool(_) => true,
        SpecValue::Number(_) => true,
        SpecValue::Char(_) => true,
        SpecValue::Str(b) => valid_utf8(b),
        SpecValue::UnsizedStr(b) => valid_utf8(b),
        SpecValue::Bytes(_) => true,
        SpecValue::OptionNone => true,
        SpecValue::OptionSome(x) => texts_valid(*x),
        SpecValue::NewtypeStruct(x) => texts_valid(*x),
        SpecValue::UnitVariant(_) => true,
        SpecValue::NewtypeVariant(_, x) => texts_valid(*x),
        SpecValue::TupleVariant(_, fs) => texts_valid_list(fs),
        SpecValue::StructVariant(_, fs) => texts_valid_list(fs),
        SpecValue::Tuple(fs) => texts_valid_list(fs),
        SpecValue::TupleStruct(fs) => texts_valid_list(fs),
        SpecValue::Struct(fs) => texts_valid_list(fs),
        SpecValue::Array(es) => texts_valid_list(es),
        SpecValue::UnsizedArray(es) => texts_valid_list(es),
        SpecValue::Mapping(es) => texts_valid_entries(es),
        SpecValue::UnsizedMapping(es) => texts_valid_entries(es),
    }
}

/// Every string payload in the run is valid UTF-8.
pub open spec fn texts_valid_list(s: Seq<SpecValue>) -> bool
    decreases s,
{
    if s.len() == 0 {
        true
    } else {
        texts_valid(s[0]) && texts_valid_list(s.drop_first())
    }
}

/// Every string payload among the entries is valid UTF-8.
pub open spec fn texts_valid_entries(s: Seq<(SpecValue, SpecValue)>) -> bool
    decreases s,
{
    if s.len() == 0 {
        true
    } else {
        texts_valid(s[0].0) && texts_valid(s[0].1) && texts_valid_entries(s.drop_first())
    }
}

/// A well-formed value: encodable, with valid UTF-8 in every string.
/// Exactly these values are produced by decoding, and exactly these
/// round-trip through the wire.
pub open spec fn wf_value(v: SpecValue) -> bool {
    encodable(v) && texts_valid(v)
}

/// True when the tree holds no tuple or struct variant.  Those two shapes
/// write no arity, so only a schema-driven decode can read them back; the
/// self-describing decoder handles every other node.
pub open spec fn self_describing(v: SpecValue) -> bool
    decreases v,
{
    match v {
        SpecValue::Unit => true,
        SpecValue::UnitStruct => true,
        SpecValue::Bool(_) => true,
        SpecValue::Number(_) => true,
        SpecValue::Char(_) => true,
        SpecValue::Str(_) => true,
        SpecValue::UnsizedStr(_) => true,
        SpecValue::Bytes(_) => true,
        SpecValue::OptionNone => true,
        SpecValue::OptionSome(x) => self_describing(*x),
        SpecValue::NewtypeStruct(x) => self_describing(*x),
        SpecValue::UnitVariant(_) => true,
        SpecValue::NewtypeVariant(_, x) => self_describing(*x),
        SpecValue::TupleVariant(_, _) => false,
        SpecValue::StructVariant(_, _) => false,
        SpecValue::Tuple(fs) => self_describing_list(fs),
        SpecValue::TupleStruct(fs) => self_describing_list(fs),
        SpecValue::Struct(fs) => self_describing_list(fs),
        SpecValue::Array(es) => self_describing_list(es),
        SpecValue::UnsizedArray(es) => self_describing_list(es),
        SpecValue::Mapping(es) => self_describing_entries(es),
        SpecValue::UnsizedMapping(es) => self_describing_entries(es),
    }
}

/// Every value of the run is free of tuple and struct variants.
pub open spec fn self_describing_list(s: Seq<SpecValue>) -> bool
    decreases s,
{
    if s.len() == 0 {
        true
    } else {
        self_describing(s[0]) && self_describing_list(s.drop_first())
    }
}

/// Every key and value among the entries is free of tuple and struct
/// variants.
pub open spec fn self_describing_entries(s: Seq<(SpecValue, SpecValue)>) -> bool
    decreases s,
{
    if s.len() == 0 {
        true
    } else {
        self_describing(s[0].0) && self_describing(s[0].1) && self_describing_entries(
            s.drop_first(),
        )
    }
}


/// A run is encodable exactly when each of its values is.
pub proof fn lemma_encodable_list_pointwise(s: Seq<SpecValue>)
    ensures
        encodable_list(s) <==> (forall|i: int| 0 <= i < s.len() ==> encodable(#[trigger] s[i])),
    decreases s.len(),
{
    if s.len() > 0 {
        let d = s.drop_first();
        lemma_encodable_list_pointwise(d);
        if encodable_list(s) {
            assert forall|i: int| 0 <= i < s.len() implies encodable(#[trigger] s[i]) by {
                if i > 0 {
                    assert(s[i] == d[i - 1]);
                }
            }
        }
        if forall|i: int| 0 <= i < s.len() ==> encodable(#[trigger] s[i]) {
            assert forall|i: int| 0 <= i < d.len() implies encodable(#[trigger] d[i]) by {
                assert(d[i] == s[i + 1]);
            }
        }
    }
}

/// Entries are encodable exactly when each key and value is.
pub proof fn lemma_encodable_entries_pointwise(s: Seq<(SpecValue, SpecValue)>)
    ensures
        encodable_entries(s) <==> (forall|i: int| 0 <= i < s.len() ==> encodable(#[trigger] s[i].0) && encodable(s[i].1)),
    decreases s.len(),
{
    if s.len() > 0 {
        let d = s.drop_first();
        lemma_encodable_entries_pointwise(d);
        if encodable_entries(s) {
            assert forall|i: int| 0 <= i < s.len() implies encodable(#[trigger] s[i].0) && encodable(
                s[i].1,
            ) by {
                if i > 0 {
                    assert(s[i].0 == d[i - 1].0 && s[i].1 == d[i - 1].1);
                }
            }
        }
        if forall|i: int| 0 <= i < s.len() ==> encodable(#[trigger] s[i].0) && encodable(s[i].1) {
            assert forall|i: int| 0 <= i < d.len() implies encodable(#[trigger] d[i].0) && encodable(
                d[i].1,
            ) by {
                assert(d[i].0 == s[i + 1].0 && d[i].1 == s[i + 1].1);
            }
        }
    }
}

/// A run's strings are valid exactly when each value's are.
pub proof fn lemma_texts_valid_list_pointwise(s: Seq<SpecValue>)
    ensures
        texts_valid_list(s) <==> (forall|i: int| 0 <= i < s.len() ==> texts_valid(#[trigger] s[i])),
    decreases s.len(),
{
    if s.len() > 0 {
        let d = s.drop_first();
        lemma_texts_valid_list_pointwise(d);
        if texts_valid_list(s) {
            assert forall|i: int| 0 <= i < s.len() implies texts_valid(#[trigger] s[i]) by {
                if i > 0 {
                    assert(s[i] == d[i - 1]);
                }
            }
        }
        if forall|i: int| 0 <= i < s.len() ==> texts_valid(#[trigger] s[i]) {
            assert forall|i: int| 0 <= i < d.len() implies texts_valid(#[trigger] d[i]) by {
                assert(d[i] == s[i + 1]);
            }
        }
    }
}

/// The entries' strings are valid exactly when each key's and value's are.
pub proof fn lemma_texts_valid_entries_pointwise(s: Seq<(SpecValue, SpecValue)>)
    ensures
        texts_valid_entries(s) <==> (forall|i: int| 0 <= i < s.len() ==> texts_valid(#[trigger] s[i].0) && texts_valid(s[i].1)),
    decreases s.len(),
{
    if s.len() > 0 {
        let d = s.drop_first();
        lemma_texts_valid_entries_pointwise(d);
        if texts_valid_entries(s) {
            assert forall|i: int| 0 <= i < s.len() implies texts_valid(#[trigger] s[i].0) && texts_valid(
                s[i].1,
            ) by {
                if i > 0 {
                    assert(s[i].0 == d[i - 1].0 && s[i].1 == d[i - 1].1);
                }
            }
        }
        if forall|i: int| 0 <= i < s.len() ==> texts_valid(#[trigger] s[i].0) && texts_valid(s[i].1) {
            assert forall|i: int| 0 <= i < d.len() implies texts_valid(#[trigger] d[i].0) && texts_valid(
                d[i].1,
            ) by {
                assert(d[i].0 == s[i + 1].0 && d[i].1 == s[i + 1].1);
            }
        }
    }
}

/// A run is variant-free exactly when each of its values is.
pub proof fn lemma_self_describing_list_pointwise(s: Seq<SpecValue>)
    ensures
        self_describing_list(s) <==> (forall|i: int| 0 <= i < s.len() ==> self_describing(#[trigger] s[i])),
    decreases s.len(),
{
    if s.len() > 0 {
        let d = s.drop_first();
        lemma_self_describing_list_pointwise(d);
        if self_describing_list(s) {
            assert forall|i: int| 0 <= i < s.len() implies self_describing(#[trigger] s[i]) by {
                if i > 0 {
                    assert(s[i] == d[i - 1]);
                }
            }
        }
        if forall|i: int| 0 <= i < s.len() ==> self_describing(#[trigger] s[i]) {
            assert forall|i: int| 0 <= i < d.len() implies self_describing(#[trigger] d[i]) by {
                assert(d[i] == s[i + 1]);
            }
        }
    }
}

/// Entries are variant-free exactly when each key and value is.
pub proof fn lemma_self_describing_entries_pointwise(s: Seq<(SpecValue, SpecValue)>)
    ensures
        self_describing_entries(s) <==> (forall|i: int| 0 <= i < s.len() ==> self_describing(#[trigger] s[i].0) && self_describing(s[i].1)),
    decreases s.len(),
{
    if s.len() > 0 {
        let d = s.drop_first();
        lemma_self_describing_entries_pointwise(d);
        if self_describing_entries(s) {
            assert forall|i: int| 0 <= i < s.len() implies self_describing(#[trigger] s[i].0) && self_describing(
                s[i].1,
            ) by {
                if i > 0 {
                    assert(s[i].0 == d[i - 1].0 && s[i].1 == d[i - 1].1);
                }
            }
        }
        if forall|i: int| 0 <= i < s.len() ==> self_describing(#[trigger] s[i].0) && self_describing(s[i].1) {
            assert forall|i: int| 0 <= i < d.len() implies self_describing(#[trigger] d[i].0) && self_describing(
                d[i].1,
            ) by {
                assert(d[i].0 == s[i + 1].0 && d[i].1 == s[i + 1].1);
            }
        }
    }
}

} // verus!
