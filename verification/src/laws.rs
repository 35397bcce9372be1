//! The laws the codec obeys: size additivity, and the round trip from a
//! valid value through its packed bytes and back.

use vstd::prelude::*;
use crate::codec::{
    spec_decode, spec_decode_exact, spec_decode_elems, spec_decode_fields, spec_decode_scalar,
    spec_encode, spec_encode_elems, spec_encode_fields, spec_encode_scalar, spec_lookup_from,
    spec_valid, spec_valid_scalar, lemma_encode_len,
};
use crate::descriptor::{
    ScalarKind, SpecDescriptor, lemma_size_fields_mono, scalar_size, spec_size, spec_size_fields,
    wf_desc,
};
use crate::error::SpecError;
use crate::value::SpecValue;
use crate::wire::{
    i16_rep, i32_rep, i64_rep, lemma_u16_le, lemma_u32_le, lemma_u64_le, lemma_u16_le_inv,
    lemma_u32_le_inv, lemma_u64_le_inv,
};
use vstd::bytes::spec_u32_from_le_bytes;

verus! {

/// Size additivity for arrays: an array's size is its element's size,
/// `count` times.
pub proof fn lemma_size_array(elem: Box<SpecDescriptor>, count: nat)
    ensures
        spec_size(SpecDescriptor::Array(elem, count)) == spec_size(*elem) * count,
{
}

/// Size additivity for structures: a structure's size is the sum of its
/// fields' sizes in declared order, so field `i` starts at the summed size
/// of fields `0..i`.
pub proof fn lemma_size_structure(fields: Seq<(Seq<char>, SpecDescriptor)>, i: int)
    requires
        0 <= i < fields.len(),
    ensures
        spec_size(SpecDescriptor::Structure(fields)) == spec_size_fields(
            fields,
            fields.len() as int,
        ),
        spec_size_fields(fields, i + 1) == spec_size_fields(fields, i) + spec_size(fields[i].1),
{
}

/// Decoding the first `n` array elements reads only the first
/// `n * spec_size(elem)` bytes.
proof fn lemma_decode_elems_prefix(elem: SpecDescriptor, b1: Seq<u8>, b2: Seq<u8>, n: nat)
    requires
        b1.subrange(0, (n * spec_size(elem)) as int) == b2.subrange(
            0,
            (n * spec_size(elem)) as int,
        ),
        n * spec_size(elem) <= b1.len(),
        n * spec_size(elem) <= b2.len(),
    ensures
        spec_decode_elems(elem, b1, n) == spec_decode_elems(elem, b2, n),
    decreases n,
{
    if n > 0 {
        let s = spec_size(elem) as int;
        let whole = (n * spec_size(elem)) as int;
        assert(((n - 1) as nat) * spec_size(elem) <= n * spec_size(elem) && (n - 1) * s >= 0 && n
            * s == (n - 1) * s + s) by (nonlinear_arith)
            requires n >= 1 && s == spec_size(elem);
        assert forall|x: int| 0 <= x < whole implies b1[x] == b2[x] by {
            assert(b1.subrange(0, whole)[x] == b1[x]);
            assert(b2.subrange(0, whole)[x] == b2[x]);
        }
        assert(b1.subrange(0, ((n - 1) as nat * spec_size(elem)) as int) =~= b2.subrange(
            0,
            ((n - 1) as nat * spec_size(elem)) as int,
        ));
        lemma_decode_elems_prefix(elem, b1, b2, (n - 1) as nat);
        assert(b1.subrange((n - 1) * s, n * s) =~= b2.subrange((n - 1) * s, n * s));
    }
}

/// Decoding the first `n` structure fields reads only their summed size in
/// bytes.
proof fn lemma_decode_fields_prefix(
    fields: Seq<(Seq<char>, SpecDescriptor)>,
    b1: Seq<u8>,
    b2: Seq<u8>,
    n: nat,
)
    requires
        n <= fields.len(),
        b1.subrange(0, spec_size_fields(fields, n as int) as int) == b2.subrange(
            0,
            spec_size_fields(fields, n as int) as int,
        ),
        spec_size_fields(fields, n as int) <= b1.len(),
        spec_size_fields(fields, n as int) <= b2.len(),
    ensures
        spec_decode_fields(fields, b1, n) == spec_decode_fields(fields, b2, n),
    decreases n,
{
    if n > 0 {
        let lo = spec_size_fields(fields, n - 1) as int;
        let hi = spec_size_fields(fields, n as int) as int;
        assert forall|x: int| 0 <= x < hi implies b1[x] == b2[x] by {
            assert(b1.subrange(0, hi)[x] == b1[x]);
            assert(b2.subrange(0, hi)[x] == b2[x]);
        }
        assert(b1.subrange(0, lo) =~= b2.subrange(0, lo));
        lemma_decode_fields_prefix(fields, b1, b2, (n - 1) as nat);
        assert(b1.subrange(lo, hi) =~= b2.subrange(lo, hi));
    }
}

/// The scalar round trip: a valid scalar value encodes, and its packed
/// bytes decode back to it.
proof fn lemma_scalar_round_trip(k: ScalarKind, v: SpecValue)
    requires
        spec_valid_scalar(k, v),
    ensures
        spec_encode_scalar(k, v) is Ok,
        spec_decode_scalar(k, spec_encode_scalar(k, v)->Ok_0) == v,
{
    match (k, v) {
        (ScalarKind::I16, SpecValue::Int(n)) => lemma_u16_le(i16_rep(n)),
        (ScalarKind::U16, SpecValue::Int(n)) => lemma_u16_le(n as u16),
        (ScalarKind::I32, SpecValue::Int(n)) => lemma_u32_le(i32_rep(n)),
        (ScalarKind::U32, SpecValue::Int(n)) => lemma_u32_le(n as u32),
        (ScalarKind::I64, SpecValue::Int(n)) => lemma_u64_le(i64_rep(n)),
        (ScalarKind::U64, SpecValue::Int(n)) => lemma_u64_le(n as u64),
        (ScalarKind::F32, SpecValue::F32Bits(b)) => lemma_u32_le(b),
        (ScalarKind::F64, SpecValue::F64Bits(b)) => lemma_u64_le(b),
        _ => {},
    }
}

/// A name that matches only position `j` at or after `k` is found there.
proof fn lemma_lookup_finds(
    fvals: Seq<(Seq<char>, SpecValue)>,
    name: Seq<char>,
    k: int,
    j: int,
)
    requires
        0 <= k <= j < fvals.len(),
        fvals[j].0 == name,
        forall|m: int| k <= m < j ==> (#[trigger] fvals[m]).0 != name,
    ensures
        spec_lookup_from(fvals, name, k) == Some(fvals[j].1),
    decreases j - k,
{
    if k < j {
        lemma_lookup_finds(fvals, name, k + 1, j);
    }
}

/// The round trip through a buffer of exactly the descriptor's size: a
/// valid value's packed bytes decode back to the value itself.
proof fn lemma_round_trip_exact(d: SpecDescriptor, v: SpecValue)
    requires
        wf_desc(d),
        spec_valid(d, v),
    ensures
        spec_encode(d, v) is Ok,
        spec_decode_exact(d, spec_encode(d, v)->Ok_0) == Ok::<SpecValue, SpecError>(v),
    decreases d, 0nat,
{
    match d {
        SpecDescriptor::Scalar(k) => {
            lemma_scalar_round_trip(k, v);
        },
        SpecDescriptor::Pointer32 => {
            if let SpecValue::Pointer(a) = v {
                assert(a & 0xFFFF_FFFF == a) by (bit_vector)
                    requires a < 0x1_0000_0000;
                lemma_u32_le((a & 0xFFFF_FFFF) as u32);
            }
        },
        SpecDescriptor::Pointer64 => {
            if let SpecValue::Pointer(a) = v {
                lemma_u64_le(a);
            }
        },
        SpecDescriptor::Array(elem, count) => {
            if let SpecValue::Array(items) = v {
                lemma_round_trip_elems(*elem, items, count);
                assert(items.take(count as int) =~= items);
            }
        },
        SpecDescriptor::Structure(fields) => {
            if let SpecValue::Structure(fvals) = v {
                lemma_round_trip_fields(fields, fvals, fields.len());
                let dec = spec_decode_fields(
                    fields,
                    spec_encode_fields(fields, fvals, fields.len())->Ok_0,
                    fields.len(),
                )->Ok_0;
                assert(dec =~= fvals);
            }
        },
        _ => {},
    }
}

/// The round trip of the first `n` array elements.
proof fn lemma_round_trip_elems(elem: SpecDescriptor, items: Seq<SpecValue>, n: nat)
    requires
        wf_desc(elem),
        n <= items.len(),
        forall|i: int| 0 <= i < items.len() ==> spec_valid(elem, #[trigger] items[i]),
    ensures
        spec_encode_elems(elem, items, n) is Ok,
        spec_encode_elems(elem, items, n)->Ok_0.len() == n * spec_size(elem),
        spec_decode_elems(elem, spec_encode_elems(elem, items, n)->Ok_0, n) == Ok::<
            Seq<SpecValue>,
            SpecError,
        >(items.take(n as int)),
    decreases elem, n,
{
    if n == 0 {
        assert(items.take(0) =~= Seq::<SpecValue>::empty());
        assert(spec_decode_elems(elem, spec_encode_elems(elem, items, 0)->Ok_0, 0) == Ok::<
            Seq<SpecValue>,
            SpecError,
        >(Seq::empty()));
    } else {
        let s = spec_size(elem) as int;
        lemma_round_trip_elems(elem, items, (n - 1) as nat);
        lemma_round_trip_exact(elem, items[n - 1]);
        lemma_encode_len(elem, items[n - 1]);
        let prev = spec_encode_elems(elem, items, (n - 1) as nat)->Ok_0;
        let last = spec_encode(elem, items[n - 1])->Ok_0;
        let enc = prev + last;
        assert(spec_encode_elems(elem, items, n)->Ok_0 == enc);
        assert(((n - 1) as nat) * s + s == n * s && ((n - 1) as nat) * s >= 0) by (
        nonlinear_arith)
            requires n >= 1 && s == spec_size(elem);
        assert(enc.len() == n * spec_size(elem));
        // The first n - 1 chunks of `enc` are `prev`, so their decode is
        // settled by the shorter round trip.
        assert(enc.subrange(0, ((n - 1) as nat * spec_size(elem)) as int) =~= prev.subrange(
            0,
            ((n - 1) as nat * spec_size(elem)) as int,
        ));
        lemma_decode_elems_prefix(elem, enc, prev, (n - 1) as nat);
        // The last chunk is exactly the last element's bytes.
        assert(enc.subrange((n - 1) * s, n * s) =~= last);
        assert(items.take(n as int) =~= items.take(n - 1).push(items[n - 1]));
    }
}

/// The round trip of the first `n` structure fields: each field is found
/// by name at its own position, encoded there, and decoded from there.
proof fn lemma_round_trip_fields(
    fields: Seq<(Seq<char>, SpecDescriptor)>,
    fvals: Seq<(Seq<char>, SpecValue)>,
    n: nat,
)
    requires
        n <= fields.len(),
        fvals.len() == fields.len(),
        forall|i: int, j: int|
            0 <= i < j < fields.len() ==> (#[trigger] fields[i]).0 != (#[trigger] fields[j]).0,
        forall|i: int|
            0 <= i < fields.len() ==> wf_desc((#[trigger] fields[i]).1) && fvals[i].0
                == fields[i].0 && spec_valid(fields[i].1, fvals[i].1),
    ensures
        spec_encode_fields(fields, fvals, n) is Ok,
        spec_encode_fields(fields, fvals, n)->Ok_0.len() == spec_size_fields(fields, n as int),
        spec_decode_fields(fields, spec_encode_fields(fields, fvals, n)->Ok_0, n) == Ok::<
            Seq<(Seq<char>, SpecValue)>,
            SpecError,
        >(fvals.take(n as int)),
    decreases fields, n,
{
    if n == 0 {
        assert(fvals.take(0) =~= Seq::<(Seq<char>, SpecValue)>::empty());
    } else {
        let lo = spec_size_fields(fields, n - 1) as int;
        let hi = spec_size_fields(fields, n as int) as int;
        lemma_round_trip_fields(fields, fvals, (n - 1) as nat);
        // The encoded field is the one at position n - 1: names at earlier
        // positions differ, so the lookup lands there.
        let target = fields[n - 1].0;
        assert forall|m: int| 0 <= m < n - 1 implies (#[trigger] fvals[m]).0 != target by {
            assert(fvals[m].0 == fields[m].0);
            assert(fields[m].0 != fields[n - 1].0);
        }
        lemma_lookup_finds(fvals, fields[n - 1].0, 0, n - 1);
        lemma_round_trip_exact(fields[n - 1].1, fvals[n - 1].1);
        lemma_encode_len(fields[n - 1].1, fvals[n - 1].1);
        let prev = spec_encode_fields(fields, fvals, (n - 1) as nat)->Ok_0;
        let last = spec_encode(fields[n - 1].1, fvals[n - 1].1)->Ok_0;
        let enc = prev + last;
        assert(spec_encode_fields(fields, fvals, n)->Ok_0 == enc);
        assert(enc.subrange(0, lo) =~= prev.subrange(0, lo));
        lemma_decode_fields_prefix(fields, enc, prev, (n - 1) as nat);
        assert(enc.subrange(lo, hi) =~= last);
        assert(fvals.take(n as int) =~= fvals.take(n - 1).push(
            (fvals[n - 1].0, fvals[n - 1].1),
        ));
    }
}

/// The round trip: encoding a valid value of a well-formed descriptor
/// succeeds, and decoding the resulting buffer gives the value back.
pub proof fn lemma_round_trip(d: SpecDescriptor, v: SpecValue)
    requires
        wf_desc(d),
        spec_valid(d, v),
    ensures
        spec_encode(d, v) is Ok,
        spec_decode(d, spec_encode(d, v)->Ok_0) == Ok::<SpecValue, SpecError>(v),
{
    lemma_round_trip_exact(d, v);
    lemma_encode_len(d, v);
}

/// A decoded element list has one value per chunk.
proof fn lemma_decode_elems_len(elem: SpecDescriptor, bytes: Seq<u8>, n: nat)
    requires
        spec_decode_elems(elem, bytes, n) is Ok,
    ensures
        spec_decode_elems(elem, bytes, n)->Ok_0.len() == n,
    decreases n,
{
    if n > 0 {
        lemma_decode_elems_len(elem, bytes, (n - 1) as nat);
    }
}

/// The `k`-th decoded array element is the decode of the `k`-th chunk.
proof fn lemma_decode_elems_at(elem: SpecDescriptor, bytes: Seq<u8>, n: nat, k: int)
    requires
        spec_decode_elems(elem, bytes, n) is Ok,
        0 <= k < n,
    ensures
        spec_decode_exact(
            elem,
            bytes.subrange(k * spec_size(elem) as int, (k + 1) * spec_size(elem) as int),
        ) is Ok,
        spec_decode_elems(elem, bytes, n)->Ok_0[k] == spec_decode_exact(
            elem,
            bytes.subrange(k * spec_size(elem) as int, (k + 1) * spec_size(elem) as int),
        )->Ok_0,
    decreases n,
{
    let s = spec_size(elem) as int;
    let prev = spec_decode_elems(elem, bytes, (n - 1) as nat)->Ok_0;
    let whole = spec_decode_elems(elem, bytes, n)->Ok_0;
    let last = bytes.subrange((n - 1) * s, n * s);
    lemma_decode_elems_len(elem, bytes, (n - 1) as nat);
    assert(whole == prev.push(spec_decode_exact(elem, last)->Ok_0));
    if k < n - 1 {
        lemma_decode_elems_at(elem, bytes, (n - 1) as nat, k);
        assert(whole[k] == prev[k]);
    } else {
        assert(whole[k] == spec_decode_exact(elem, last)->Ok_0);
    }
}

/// A decoded field list has one value per declared field.
proof fn lemma_decode_fields_len(
    fields: Seq<(Seq<char>, SpecDescriptor)>,
    bytes: Seq<u8>,
    n: nat,
)
    requires
        n <= fields.len(),
        spec_decode_fields(fields, bytes, n) is Ok,
    ensures
        spec_decode_fields(fields, bytes, n)->Ok_0.len() == n,
    decreases n,
{
    if n > 0 {
        lemma_decode_fields_len(fields, bytes, (n - 1) as nat);
    }
}

/// The `k`-th decoded field carries the declared name and the decode of
/// the field's own chunk.
proof fn lemma_decode_fields_at(
    fields: Seq<(Seq<char>, SpecDescriptor)>,
    bytes: Seq<u8>,
    n: nat,
    k: int,
)
    requires
        n <= fields.len(),
        spec_decode_fields(fields, bytes, n) is Ok,
        0 <= k < n,
    ensures
        spec_decode_fields(fields, bytes, n)->Ok_0[k].0 == fields[k].0,
        spec_decode_exact(
            fields[k].1,
            bytes.subrange(
                spec_size_fields(fields, k) as int,
                spec_size_fields(fields, k + 1) as int,
            ),
        ) is Ok,
        spec_decode_fields(fields, bytes, n)->Ok_0[k].1 == spec_decode_exact(
            fields[k].1,
            bytes.subrange(
                spec_size_fields(fields, k) as int,
                spec_size_fields(fields, k + 1) as int,
            ),
        )->Ok_0,
    decreases n,
{
    let lo = spec_size_fields(fields, n - 1) as int;
    let hi = spec_size_fields(fields, n as int) as int;
    let prev = spec_decode_fields(fields, bytes, (n - 1) as nat)->Ok_0;
    let whole = spec_decode_fields(fields, bytes, n)->Ok_0;
    let last = bytes.subrange(lo, hi);
    lemma_decode_fields_len(fields, bytes, (n - 1) as nat);
    assert(whole == prev.push((fields[n - 1].0, spec_decode_exact(fields[n - 1].1, last)->Ok_0)));
    if k < n - 1 {
        lemma_decode_fields_at(fields, bytes, (n - 1) as nat, k);
        assert(whole[k] == prev[k]);
    } else {
        assert(whole[k] == (fields[n - 1].0, spec_decode_exact(fields[n - 1].1, last)->Ok_0));
    }
}

/// The scalar buffer round trip: re-encoding the scalar read from an
/// exact buffer gives the buffer back.
proof fn lemma_scalar_buffer_round_trip(k: ScalarKind, bytes: Seq<u8>)
    requires
        bytes.len() == scalar_size(k),
    ensures
        spec_encode_scalar(k, spec_decode_scalar(k, bytes)) == Ok::<Seq<u8>, SpecError>(bytes),
{
    match k {
        ScalarKind::I8 | ScalarKind::U8 | ScalarKind::Char => {
            assert(spec_encode_scalar(k, spec_decode_scalar(k, bytes))->Ok_0 =~= bytes);
        },
        ScalarKind::I16 | ScalarKind::U16 => lemma_u16_le_inv(bytes),
        ScalarKind::I32 | ScalarKind::U32 => lemma_u32_le_inv(bytes),
        ScalarKind::I64 | ScalarKind::U64 => lemma_u64_le_inv(bytes),
        ScalarKind::F32 => lemma_u32_le_inv(bytes),
        ScalarKind::F64 => lemma_u64_le_inv(bytes),
    }
}

/// The buffer round trip through a buffer of exactly the descriptor's
/// size: whatever decodes, encodes back to the same bytes.
proof fn lemma_buffer_round_trip_exact(d: SpecDescriptor, bytes: Seq<u8>)
    requires
        wf_desc(d),
        bytes.len() == spec_size(d),
        spec_decode_exact(d, bytes) is Ok,
    ensures
        spec_encode(d, spec_decode_exact(d, bytes)->Ok_0) == Ok::<Seq<u8>, SpecError>(bytes),
    decreases d, 0nat,
{
    match d {
        SpecDescriptor::Scalar(k) => {
            lemma_scalar_buffer_round_trip(k, bytes);
        },
        SpecDescriptor::Pointer32 => {
            let a = spec_u32_from_le_bytes(bytes) as u64;
            assert(a & 0xFFFF_FFFF == a) by (bit_vector)
                requires a < 0x1_0000_0000;
            lemma_u32_le_inv(bytes);
        },
        SpecDescriptor::Pointer64 => {
            lemma_u64_le_inv(bytes);
        },
        SpecDescriptor::Array(elem, count) => {
            assert(spec_size(*elem) * count == count * spec_size(*elem)) by (nonlinear_arith);
            lemma_buffer_round_trip_elems(*elem, bytes, count, count);
            assert(bytes.subrange(0, (count * spec_size(*elem)) as int) =~= bytes);
        },
        SpecDescriptor::Structure(fields) => {
            assert(d->Structure_0 == fields);
            lemma_buffer_round_trip_fields(fields, bytes, fields.len());
            assert(bytes.subrange(0, spec_size_fields(fields, fields.len() as int) as int)
                =~= bytes);
        },
        _ => {},
    }
}

/// The buffer round trip of the first `n` array chunks.
proof fn lemma_buffer_round_trip_elems(
    elem: SpecDescriptor,
    bytes: Seq<u8>,
    count: nat,
    n: nat,
)
    requires
        wf_desc(elem),
        n <= count,
        bytes.len() == count * spec_size(elem),
        spec_decode_elems(elem, bytes, count) is Ok,
    ensures
        spec_encode_elems(elem, spec_decode_elems(elem, bytes, count)->Ok_0, n) == Ok::<
            Seq<u8>,
            SpecError,
        >(bytes.subrange(0, (n * spec_size(elem)) as int)),
    decreases elem, n,
{
    let s = spec_size(elem) as int;
    let vs = spec_decode_elems(elem, bytes, count)->Ok_0;
    lemma_decode_elems_len(elem, bytes, count);
    if n == 0 {
        assert(bytes.subrange(0, 0) =~= Seq::<u8>::empty());
    } else {
        lemma_buffer_round_trip_elems(elem, bytes, count, (n - 1) as nat);
        lemma_decode_elems_at(elem, bytes, count, n - 1);
        let chunk = bytes.subrange((n - 1) * s, n * s);
        assert((n - 1) * s >= 0 && n * s <= count * s && n * s - (n - 1) * s == s) by (
        nonlinear_arith)
            requires s >= 0 && 1 <= n <= count;
        assert(vs[n - 1] == spec_decode_exact(elem, chunk)->Ok_0);
        lemma_buffer_round_trip_exact(elem, chunk);
        assert(spec_encode_elems(elem, vs, n)->Ok_0 =~= bytes.subrange(0, n * s));
    }
}

/// The buffer round trip of the first `n` structure fields: each decoded
/// field is found by its own name and encodes back onto its own chunk.
proof fn lemma_buffer_round_trip_fields(
    fields: Seq<(Seq<char>, SpecDescriptor)>,
    bytes: Seq<u8>,
    n: nat,
)
    requires
        wf_desc(SpecDescriptor::Structure(fields)),
        n <= fields.len(),
        bytes.len() == spec_size_fields(fields, fields.len() as int),
        spec_decode_fields(fields, bytes, fields.len()) is Ok,
    ensures
        spec_encode_fields(fields, spec_decode_fields(fields, bytes, fields.len())->Ok_0, n)
            == Ok::<Seq<u8>, SpecError>(
            bytes.subrange(0, spec_size_fields(fields, n as int) as int),
        ),
    decreases fields, n,
{
    let whole = SpecDescriptor::Structure(fields);
    assert(whole->Structure_0 == fields);
    let fvs = spec_decode_fields(fields, bytes, fields.len())->Ok_0;
    lemma_decode_fields_len(fields, bytes, fields.len());
    if n == 0 {
        assert(bytes.subrange(0, 0) =~= Seq::<u8>::empty());
    } else {
        lemma_buffer_round_trip_fields(fields, bytes, (n - 1) as nat);
        lemma_decode_fields_at(fields, bytes, fields.len(), n - 1);
        let lo = spec_size_fields(fields, n - 1) as int;
        let hi = spec_size_fields(fields, n as int) as int;
        let chunk = bytes.subrange(lo, hi);
        lemma_size_fields_mono(fields, n as int, fields.len() as int);
        let target = fields[n - 1].0;
        assert forall|m: int| 0 <= m < n - 1 implies (#[trigger] fvs[m]).0 != target by {
            lemma_decode_fields_at(fields, bytes, fields.len(), m);
            assert(fvs[m].0 == fields[m].0);
            assert(fields[m].0 != fields[n - 1].0);
        }
        lemma_lookup_finds(fvs, target, 0, n - 1);
        assert(fvs[n - 1].1 == spec_decode_exact(fields[n - 1].1, chunk)->Ok_0);
        lemma_buffer_round_trip_exact(fields[n - 1].1, chunk);
        assert(spec_encode_fields(fields, fvs, n)->Ok_0 =~= bytes.subrange(0, hi));
    }
}

/// The buffer round trip: a buffer of exactly the descriptor's size that
/// decodes at all is reproduced, byte for byte, by encoding the value it
/// holds.
pub proof fn lemma_buffer_round_trip(d: SpecDescriptor, bytes: Seq<u8>)
    requires
        wf_desc(d),
        spec_decode(d, bytes) is Ok,
    ensures
        spec_encode(d, spec_decode(d, bytes)->Ok_0) == Ok::<Seq<u8>, SpecError>(bytes),
{
    lemma_buffer_round_trip_exact(d, bytes);
}

} // verus!
