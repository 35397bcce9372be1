//! What encoding and decoding mean, as total functions over the
//! mathematical models.
//!
//! The executable codec in [`crate::encode`] and [`crate::decode`] is proved
//! to return exactly what these functions say. Encoded buffers are packed:
//! an array is its elements' encodings in order, a structure its fields'
//! encodings in declared order, with nothing in between.

use vstd::prelude::*;
use vstd::bytes::*;
use crate::descriptor::{ScalarKind, SpecDescriptor, scalar_size, spec_size, spec_size_fields};
use crate::error::SpecError;
use crate::value::SpecValue;
use crate::wire::{
    spec_u8_to_le_bytes, spec_u8_from_le_bytes, i8_rep, i8_val, i16_rep, i16_val, i32_rep,
    i32_val, i64_rep, i64_val, lemma_u16_le, lemma_u32_le, lemma_u64_le,
};

verus! {

/// Whether `v` has the shape and range that scalar kind `k` encodes.
pub open spec fn spec_valid_scalar(k: ScalarKind, v: SpecValue) -> bool {
    match k {
        ScalarKind::I8 => v matches SpecValue::Int(n) && -0x80 <= n < 0x80,
        ScalarKind::U8 => v matches SpecValue::Int(n) && 0 <= n < 0x100,
        ScalarKind::Char => v matches SpecValue::Bytes(b) && b.len() == 1,
        ScalarKind::I16 => v matches SpecValue::Int(n) && -0x8000 <= n < 0x8000,
        ScalarKind::U16 => v matches SpecValue::Int(n) && 0 <= n < 0x1_0000,
        ScalarKind::I32 => v matches SpecValue::Int(n) && -0x8000_0000 <= n < 0x8000_0000,
        ScalarKind::U32 => v matches SpecValue::Int(n) && 0 <= n < 0x1_0000_0000,
        ScalarKind::I64 => v matches SpecValue::Int(n) && -0x8000_0000_0000_0000 <= n
            < 0x8000_0000_0000_0000,
        ScalarKind::U64 => v matches SpecValue::Int(n) && 0 <= n < 0x1_0000_0000_0000_0000,
        ScalarKind::F32 => v matches SpecValue::F32Bits(_),
        ScalarKind::F64 => v matches SpecValue::F64Bits(_),
    }
}

/// The packed little-endian bytes of a scalar value.
pub open spec fn spec_encode_scalar(k: ScalarKind, v: SpecValue) -> Result<Seq<u8>, SpecError> {
    if !spec_valid_scalar(k, v) {
        Err(SpecError::HostInterop)
    } else {
        match (k, v) {
            (ScalarKind::I8, SpecValue::Int(n)) => Ok(spec_u8_to_le_bytes(i8_rep(n))),
            (ScalarKind::U8, SpecValue::Int(n)) => Ok(spec_u8_to_le_bytes(n as u8)),
            (ScalarKind::Char, SpecValue::Bytes(b)) => Ok(b),
            (ScalarKind::I16, SpecValue::Int(n)) => Ok(spec_u16_to_le_bytes(i16_rep(n))),
            (ScalarKind::U16, SpecValue::Int(n)) => Ok(spec_u16_to_le_bytes(n as u16)),
            (ScalarKind::I32, SpecValue::Int(n)) => Ok(spec_u32_to_le_bytes(i32_rep(n))),
            (ScalarKind::U32, SpecValue::Int(n)) => Ok(spec_u32_to_le_bytes(n as u32)),
            (ScalarKind::I64, SpecValue::Int(n)) => Ok(spec_u64_to_le_bytes(i64_rep(n))),
            (ScalarKind::U64, SpecValue::Int(n)) => Ok(spec_u64_to_le_bytes(n as u64)),
            (ScalarKind::F32, SpecValue::F32Bits(b)) => Ok(spec_u32_to_le_bytes(b)),
            (ScalarKind::F64, SpecValue::F64Bits(b)) => Ok(spec_u64_to_le_bytes(b)),
            _ => Err(SpecError::HostInterop),
        }
    }
}

/// The scalar value read from a packed little-endian buffer of the kind's
/// exact width.
pub open spec fn spec_decode_scalar(k: ScalarKind, bytes: Seq<u8>) -> SpecValue
    recommends
        bytes.len() == scalar_size(k),
{
    match k {
        ScalarKind::I8 => SpecValue::Int(i8_val(spec_u8_from_le_bytes(bytes))),
        ScalarKind::U8 => SpecValue::Int(spec_u8_from_le_bytes(bytes) as int),
        ScalarKind::Char => SpecValue::Bytes(bytes),
        ScalarKind::I16 => SpecValue::Int(i16_val(spec_u16_from_le_bytes(bytes))),
        ScalarKind::U16 => SpecValue::Int(spec_u16_from_le_bytes(bytes) as int),
        ScalarKind::I32 => SpecValue::Int(i32_val(spec_u32_from_le_bytes(bytes))),
        ScalarKind::U32 => SpecValue::Int(spec_u32_from_le_bytes(bytes) as int),
        ScalarKind::I64 => SpecValue::Int(i64_val(spec_u64_from_le_bytes(bytes))),
        ScalarKind::U64 => SpecValue::Int(spec_u64_from_le_bytes(bytes) as int),
        ScalarKind::F32 => SpecValue::F32Bits(spec_u32_from_le_bytes(bytes)),
        ScalarKind::F64 => SpecValue::F64Bits(spec_u64_from_le_bytes(bytes)),
    }
}

/// The first field of `fvals` named `name`, searching from position `i`.
pub open spec fn spec_lookup_from(
    fvals: Seq<(Seq<char>, SpecValue)>,
    name: Seq<char>,
    i: int,
) -> Option<SpecValue>
    decreases fvals.len() - i,
{
    if i < 0 || i >= fvals.len() {
        None
    } else if fvals[i].0 == name {
        Some(fvals[i].1)
    } else {
        spec_lookup_from(fvals, name, i + 1)
    }
}

/// The first field of `fvals` named `name`: how a structure encode reads an
/// attribute off the host value.
pub open spec fn spec_lookup(fvals: Seq<(Seq<char>, SpecValue)>, name: Seq<char>) -> Option<
    SpecValue,
> {
    spec_lookup_from(fvals, name, 0)
}

/// The packed bytes of a value laid out as `d`, or the first error the
/// left-to-right traversal meets.
pub open spec fn spec_encode(d: SpecDescriptor, v: SpecValue) -> Result<Seq<u8>, SpecError>
    decreases d, 0nat,
{
    match d {
        SpecDescriptor::Scalar(k) => spec_encode_scalar(k, v),
        SpecDescriptor::WideChar => Err(SpecError::NotImplemented),
        SpecDescriptor::Pointer => Err(SpecError::NotImplemented),
        SpecDescriptor::Pointer32 => match v {
            SpecValue::Pointer(a) => Ok(spec_u32_to_le_bytes((a & 0xFFFF_FFFF) as u32)),
            _ => Err(SpecError::HostInterop),
        },
        SpecDescriptor::Pointer64 => match v {
            SpecValue::Pointer(a) => Ok(spec_u64_to_le_bytes(a)),
            _ => Err(SpecError::HostInterop),
        },
        SpecDescriptor::Array(elem, count) => match v {
            SpecValue::Array(items) => spec_encode_elems(*elem, items, count),
            _ => Err(SpecError::HostInterop),
        },
        SpecDescriptor::Structure(fields) => match v {
            SpecValue::Structure(fvals) => spec_encode_fields(fields, fvals, fields.len()),
            _ => Err(SpecError::HostInterop),
        },
    }
}

/// The concatenated encodings of the first `n` array elements. An element
/// the value does not have fails as the host's out-of-range indexing would.
pub open spec fn spec_encode_elems(
    elem: SpecDescriptor,
    items: Seq<SpecValue>,
    n: nat,
) -> Result<Seq<u8>, SpecError>
    decreases elem, n,
{
    if n == 0 {
        Ok(Seq::empty())
    } else {
        match spec_encode_elems(elem, items, (n - 1) as nat) {
            Err(e) => Err(e),
            Ok(acc) => if n - 1 >= items.len() {
                Err(SpecError::HostInterop)
            } else {
                match spec_encode(elem, items[n - 1]) {
                    Err(e) => Err(e),
                    Ok(bytes) => Ok(acc + bytes),
                }
            },
        }
    }
}

/// The concatenated encodings of the first `n` declared fields, each read
/// off the value by name.
pub open spec fn spec_encode_fields(
    fields: Seq<(Seq<char>, SpecDescriptor)>,
    fvals: Seq<(Seq<char>, SpecValue)>,
    n: nat,
) -> Result<Seq<u8>, SpecError>
    decreases fields, n,
{
    if n == 0 || n > fields.len() {
        Ok(Seq::empty())
    } else {
        match spec_encode_fields(fields, fvals, (n - 1) as nat) {
            Err(e) => Err(e),
            Ok(acc) => match spec_lookup(fvals, fields[n - 1].0) {
                None => Err(SpecError::MissingAttribute(fields[n - 1].0)),
                Some(fv) => match spec_encode(fields[n - 1].1, fv) {
                    Err(e) => Err(e),
                    Ok(bytes) => Ok(acc + bytes),
                },
            },
        }
    }
}

/// The value read from a buffer of exactly `spec_size(d)` bytes.
pub open spec fn spec_decode_exact(d: SpecDescriptor, bytes: Seq<u8>) -> Result<
    SpecValue,
    SpecError,
>
    recommends
        bytes.len() == spec_size(d),
    decreases d, 0nat,
{
    match d {
        SpecDescriptor::Scalar(k) => Ok(spec_decode_scalar(k, bytes)),
        SpecDescriptor::WideChar => Err(SpecError::NotImplemented),
        SpecDescriptor::Pointer => Err(SpecError::NotImplemented),
        SpecDescriptor::Pointer32 => Ok(SpecValue::Pointer(spec_u32_from_le_bytes(bytes) as u64)),
        SpecDescriptor::Pointer64 => Ok(SpecValue::Pointer(spec_u64_from_le_bytes(bytes))),
        SpecDescriptor::Array(elem, count) => match spec_decode_elems(*elem, bytes, count) {
            Err(e) => Err(e),
            Ok(vs) => Ok(SpecValue::Array(vs)),
        },
        SpecDescriptor::Structure(fields) => match spec_decode_fields(
            fields,
            bytes,
            fields.len(),
        ) {
            Err(e) => Err(e),
            Ok(fvs) => Ok(SpecValue::Structure(fvs)),
        },
    }
}

/// The first `n` array elements read from consecutive chunks of
/// `spec_size(elem)` bytes.
pub open spec fn spec_decode_elems(elem: SpecDescriptor, bytes: Seq<u8>, n: nat) -> Result<
    Seq<SpecValue>,
    SpecError,
>
    recommends
        bytes.len() >= n * spec_size(elem),
    decreases elem, n,
{
    if n == 0 {
        Ok(Seq::empty())
    } else {
        match spec_decode_elems(elem, bytes, (n - 1) as nat) {
            Err(e) => Err(e),
            Ok(vs) => {
                let size = spec_size(elem) as int;
                match spec_decode_exact(elem, bytes.subrange((n - 1) * size, n * size)) {
                    Err(e) => Err(e),
                    Ok(v) => Ok(vs.push(v)),
                }
            },
        }
    }
}

/// The first `n` structure fields read from consecutive chunks, field `i`
/// starting at the summed size of fields `0..i`.
pub open spec fn spec_decode_fields(
    fields: Seq<(Seq<char>, SpecDescriptor)>,
    bytes: Seq<u8>,
    n: nat,
) -> Result<Seq<(Seq<char>, SpecValue)>, SpecError>
    recommends
        bytes.len() >= spec_size_fields(fields, n as int),
    decreases fields, n,
{
    if n == 0 || n > fields.len() {
        Ok(Seq::empty())
    } else {
        match spec_decode_fields(fields, bytes, (n - 1) as nat) {
            Err(e) => Err(e),
            Ok(fvs) => {
                let lo = spec_size_fields(fields, n - 1) as int;
                let hi = spec_size_fields(fields, n as int) as int;
                match spec_decode_exact(fields[n - 1].1, bytes.subrange(lo, hi)) {
                    Err(e) => Err(e),
                    Ok(v) => Ok(fvs.push((fields[n - 1].0, v))),
                }
            },
        }
    }
}

/// The value read from `bytes` laid out as `d`. A buffer whose length is
/// not exactly `spec_size(d)` fails the byte cast.
pub open spec fn spec_decode(d: SpecDescriptor, bytes: Seq<u8>) -> Result<SpecValue, SpecError> {
    if bytes.len() == spec_size(d) {
        spec_decode_exact(d, bytes)
    } else {
        Err(SpecError::ByteCast)
    }
}

/// An encode error met among the first `j` array elements settles every
/// longer prefix the same way.
pub proof fn lemma_encode_elems_err(elem: SpecDescriptor, items: Seq<SpecValue>, j: nat, n: nat)
    requires
        j <= n,
        spec_encode_elems(elem, items, j) is Err,
    ensures
        spec_encode_elems(elem, items, n) == spec_encode_elems(elem, items, j),
    decreases n,
{
    if n > j {
        lemma_encode_elems_err(elem, items, j, (n - 1) as nat);
    }
}

/// An encode error met among the first `j` structure fields settles every
/// longer prefix the same way.
pub proof fn lemma_encode_fields_err(
    fields: Seq<(Seq<char>, SpecDescriptor)>,
    fvals: Seq<(Seq<char>, SpecValue)>,
    j: nat,
    n: nat,
)
    requires
        j <= n <= fields.len(),
        spec_encode_fields(fields, fvals, j) is Err,
    ensures
        spec_encode_fields(fields, fvals, n) == spec_encode_fields(fields, fvals, j),
    decreases n,
{
    if n > j {
        lemma_encode_fields_err(fields, fvals, j, (n - 1) as nat);
    }
}

/// A decode error met among the first `j` array elements settles every
/// longer prefix the same way.
pub proof fn lemma_decode_elems_err(elem: SpecDescriptor, bytes: Seq<u8>, j: nat, n: nat)
    requires
        j <= n,
        spec_decode_elems(elem, bytes, j) is Err,
    ensures
        spec_decode_elems(elem, bytes, n) == spec_decode_elems(elem, bytes, j),
    decreases n,
{
    if n > j {
        lemma_decode_elems_err(elem, bytes, j, (n - 1) as nat);
    }
}

/// A decode error met among the first `j` structure fields settles every
/// longer prefix the same way.
pub proof fn lemma_decode_fields_err(
    fields: Seq<(Seq<char>, SpecDescriptor)>,
    bytes: Seq<u8>,
    j: nat,
    n: nat,
)
    requires
        j <= n <= fields.len(),
        spec_decode_fields(fields, bytes, j) is Err,
    ensures
        spec_decode_fields(fields, bytes, n) == spec_decode_fields(fields, bytes, j),
    decreases n,
{
    if n > j {
        lemma_decode_fields_err(fields, bytes, j, (n - 1) as nat);
    }
}

/// A successful encode produces exactly `spec_size(d)` bytes.
#[verifier::spinoff_prover]
pub proof fn lemma_encode_len(d: SpecDescriptor, v: SpecValue)
    requires
        spec_encode(d, v) is Ok,
    ensures
        spec_encode(d, v)->Ok_0.len() == spec_size(d),
    decreases d, 0nat,
{
    match d {
        SpecDescriptor::Scalar(k) => {
            lemma_encode_scalar_len(k, v);
            assert(spec_encode(d, v) == spec_encode_scalar(k, v));
            assert(spec_encode(d, v)->Ok_0.len() == spec_size(d));
        },
        SpecDescriptor::Pointer32 => {
            if let SpecValue::Pointer(a) = v {
                lemma_u32_le(#[verifier::truncate] ((a & 0xFFFF_FFFF) as u32));
            }
            assert(spec_encode(d, v)->Ok_0.len() == spec_size(d));
        },
        SpecDescriptor::Pointer64 => {
            if let SpecValue::Pointer(a) = v {
                lemma_u64_le(a);
            }
            assert(spec_encode(d, v)->Ok_0.len() == spec_size(d));
        },
        SpecDescriptor::Array(elem, count) => {
            if let SpecValue::Array(items) = v {
                lemma_encode_elems_len(*elem, items, count);
                assert(spec_encode(d, v) == spec_encode_elems(*elem, items, count));
                assert(spec_encode(d, v)->Ok_0.len() == count * spec_size(*elem));
                assert(spec_size(d) == spec_size(*elem) * count);
                assert(count * spec_size(*elem) == spec_size(*elem) * count) by (nonlinear_arith);
            }
            assert(spec_encode(d, v)->Ok_0.len() == spec_size(d));
        },
        SpecDescriptor::Structure(fields) => {
            if let SpecValue::Structure(fvals) = v {
                lemma_encode_fields_len(fields, fvals, fields.len());
            }
            assert(spec_encode(d, v)->Ok_0.len() == spec_size(d));
        },
        _ => {},
    }
}

/// A successful scalar encode produces exactly the kind's width in bytes.
pub proof fn lemma_encode_scalar_len(k: ScalarKind, v: SpecValue)
    requires
        spec_encode_scalar(k, v) is Ok,
    ensures
        spec_encode_scalar(k, v)->Ok_0.len() == scalar_size(k),
{
    match (k, v) {
        (ScalarKind::I16, SpecValue::Int(n)) => lemma_u16_le(i16_rep(n)),
        (ScalarKind::U16, SpecValue::Int(n)) => lemma_u16_le(n as u16),
        (ScalarKind::I32, SpecValue::Int(n)) => lemma_u32_le(i32_rep(n)),
        (ScalarKind::U32, SpecValue::Int(n)) => lemma_u32_le(n as u32),
        (ScalarKind::I64, SpecValue::Int(n)) => lemma_u64_le(i64_rep(n)),
        (ScalarKind::U64, SpecValue::Int(n)) => lemma_u64_le(n as u64),
        (ScalarKind::F32, SpecValue::F32Bits(b)) => lemma_u32_le(b),
        (ScalarKind::F64, SpecValue::F64Bits(b)) => lemma_u64_le(b),
        _ => {},
    }
}

/// A successful encode of `n` array elements produces `n` chunks of the
/// element's size.
#[verifier::spinoff_prover]
pub proof fn lemma_encode_elems_len(elem: SpecDescriptor, items: Seq<SpecValue>, n: nat)
    requires
        spec_encode_elems(elem, items, n) is Ok,
    ensures
        spec_encode_elems(elem, items, n)->Ok_0.len() == n * spec_size(elem),
    decreases elem, n,
{
    if n > 0 {
        let s = spec_size(elem);
        lemma_encode_elems_len(elem, items, (n - 1) as nat);
        lemma_encode_len(elem, items[n - 1]);
        let prev = spec_encode_elems(elem, items, (n - 1) as nat)->Ok_0;
        let bytes = spec_encode(elem, items[n - 1])->Ok_0;
        assert(spec_encode_elems(elem, items, n)->Ok_0 == prev + bytes);
        assert(prev.len() == ((n - 1) as nat) * s);
        assert(bytes.len() == s);
        assert(((n - 1) as nat) * s + s == n * s) by (nonlinear_arith)
            requires n >= 1;
    }
}

/// A successful encode of `n` structure fields produces their summed size.
pub proof fn lemma_encode_fields_len(
    fields: Seq<(Seq<char>, SpecDescriptor)>,
    fvals: Seq<(Seq<char>, SpecValue)>,
    n: nat,
)
    requires
        n <= fields.len(),
        spec_encode_fields(fields, fvals, n) is Ok,
    ensures
        spec_encode_fields(fields, fvals, n)->Ok_0.len() == spec_size_fields(fields, n as int),
    decreases fields, n,
{
    if n > 0 {
        lemma_encode_fields_len(fields, fvals, (n - 1) as nat);
        let fv = spec_lookup(fvals, fields[n - 1].0)->Some_0;
        lemma_encode_len(fields[n - 1].1, fv);
    }
}

/// Whether `v` is valid for `d`: exactly the values a decode can produce,
/// and the values an encode maps to `spec_size(d)` bytes losslessly.
pub open spec fn spec_valid(d: SpecDescriptor, v: SpecValue) -> bool
    decreases d,
{
    match d {
        SpecDescriptor::Scalar(k) => spec_valid_scalar(k, v),
        SpecDescriptor::WideChar => false,
        SpecDescriptor::Pointer => false,
        SpecDescriptor::Pointer32 => v matches SpecValue::Pointer(a) && a < 0x1_0000_0000,
        SpecDescriptor::Pointer64 => v matches SpecValue::Pointer(_),
        SpecDescriptor::Array(elem, count) => match v {
            SpecValue::Array(items) => items.len() == count && (forall|i: int|
                0 <= i < items.len() ==> spec_valid(*elem, #[trigger] items[i])),
            _ => false,
        },
        SpecDescriptor::Structure(fields) => match v {
            SpecValue::Structure(fvals) => fvals.len() == fields.len() && (forall|i: int|
                0 <= i < fields.len() ==> (#[trigger] fvals[i]).0 == fields[i].0 && spec_valid(
                    fields[i].1,
                    fvals[i].1,
                )),
            _ => false,
        },
    }
}

} // verus!
