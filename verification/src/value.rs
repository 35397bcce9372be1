//! The host-value model: the plain data a host value carries, as far as the
//! codec reads or produces it.
//!
//! The surrounding embedding converts real host objects to and from these
//! values; the codec itself works on them alone. Floating-point scalars are
//! carried as IEEE-754 bit patterns, so conversion between a host float and
//! its bits also belongs to the embedding.

use vstd::prelude::*;

verus! {

/// A host value, modelled as plain data.
#[derive(Debug, PartialEq)]
pub enum Value {
    /// An integer of any supported width; the descriptor's scalar kind
    /// decides the width and range on encode.
    Int(i128),
    /// The bit pattern of a 32-bit IEEE-754 value.
    F32Bits(u32),
    /// The bit pattern of a 64-bit IEEE-754 value.
    F64Bits(u64),
    /// An opaque byte sequence; a `Char` scalar holds exactly one byte.
    Bytes(Vec<u8>),
    /// An address-valued scalar; the descriptor's pointer width decides how
    /// many of its low bytes are kept on encode.
    Pointer(u64),
    /// A fixed-length homogeneous sequence.
    Array(Vec<Value>),
    /// A record value: named fields.
    Structure(Vec<(String, Value)>),
}

/// The mathematical model of a [`Value`].
pub enum SpecValue {
    Int(int),
    F32Bits(u32),
    F64Bits(u64),
    Bytes(Seq<u8>),
    Pointer(u64),
    Array(Seq<SpecValue>),
    Structure(Seq<(Seq<char>, SpecValue)>),
}

/// The model of an exec value, defined by structural recursion.
pub open spec fn value_view(v: Value) -> SpecValue
    decreases v,
{
    match v {
        Value::Int(n) => SpecValue::Int(n as int),
        Value::F32Bits(b) => SpecValue::F32Bits(b),
        Value::F64Bits(b) => SpecValue::F64Bits(b),
        Value::Bytes(b) => SpecValue::Bytes(b@),
        Value::Pointer(a) => SpecValue::Pointer(a),
        Value::Array(items) => SpecValue::Array(values_view(items@)),
        Value::Structure(fields) => SpecValue::Structure(value_fields_view(fields@)),
    }
}

/// The model of an exec list of array elements.
pub open spec fn values_view(items: Seq<Value>) -> Seq<SpecValue>
    decreases items,
{
    Seq::new(
        items.len(),
        |i: int|
            if 0 <= i < items.len() {
                value_view(items[i])
            } else {
                vstd::pervasive::arbitrary()
            },
    )
}

/// The model of an exec list of named field values.
pub open spec fn value_fields_view(fields: Seq<(String, Value)>) -> Seq<(Seq<char>, SpecValue)>
    decreases fields,
{
    Seq::new(
        fields.len(),
        |i: int|
            if 0 <= i < fields.len() {
                (fields[i].0@, value_view(fields[i].1))
            } else {
                vstd::pervasive::arbitrary()
            },
    )
}

impl View for Value {
    type V = SpecValue;

    open spec fn view(&self) -> SpecValue {
        value_view(*self)
    }
}

} // verus!
