//! The executable decoder: a packed little-endian buffer in, the host
//! value it holds out.

use vstd::prelude::*;
use vstd::bytes::{u16_from_le_bytes, u32_from_le_bytes, u64_from_le_bytes};
use vstd::slice::{slice_index_get, slice_subrange, slice_to_vec};
use crate::codec::{
    spec_decode, spec_decode_exact, spec_decode_elems, spec_decode_fields, spec_decode_scalar,
    lemma_decode_elems_err, lemma_decode_fields_err,
};
use crate::descriptor::{
    Descriptor, ScalarKind, SpecDescriptor, desc_fields_view, desc_view, lemma_size_fields_mono,
    scalar_size, spec_size, spec_size_fields,
};
use crate::error::{Error, SpecError};
use crate::value::{Value, SpecValue, value_fields_view, values_view};

verus! {

/// Reads the scalar of kind `k` stored at `start`.
fn decode_scalar_at(k: ScalarKind, bytes: &[u8], start: usize) -> (r: Value)
    requires
        start + scalar_size(k) <= bytes@.len(),
        bytes@.len() <= usize::MAX,
    ensures
        r@ == spec_decode_scalar(k, bytes@.subrange(start as int, start + scalar_size(k))),
{
    match k {
        ScalarKind::I8 => {
            let u = *slice_index_get(bytes, start);
            proof {
                assert(bytes@.subrange(start as int, start + 1)[0] == bytes@[start as int]);
            }
            if u < 0x80 {
                Value::Int(u as i128)
            } else {
                Value::Int(u as i128 - 0x100)
            }
        },
        ScalarKind::U8 => {
            let u = *slice_index_get(bytes, start);
            proof {
                assert(bytes@.subrange(start as int, start + 1)[0] == bytes@[start as int]);
            }
            Value::Int(u as i128)
        },
        ScalarKind::Char => {
            let chunk = slice_subrange(bytes, start, start + 1);
            Value::Bytes(slice_to_vec(chunk))
        },
        ScalarKind::I16 => {
            let u = u16_from_le_bytes(slice_subrange(bytes, start, start + 2));
            if u < 0x8000 {
                Value::Int(u as i128)
            } else {
                Value::Int(u as i128 - 0x1_0000)
            }
        },
        ScalarKind::U16 => {
            let u = u16_from_le_bytes(slice_subrange(bytes, start, start + 2));
            Value::Int(u as i128)
        },
        ScalarKind::I32 => {
            let u = u32_from_le_bytes(slice_subrange(bytes, start, start + 4));
            if u < 0x8000_0000 {
                Value::Int(u as i128)
            } else {
                Value::Int(u as i128 - 0x1_0000_0000)
            }
        },
        ScalarKind::U32 => {
            let u = u32_from_le_bytes(slice_subrange(bytes, start, start + 4));
            Value::Int(u as i128)
        },
        ScalarKind::I64 => {
            let u = u64_from_le_bytes(slice_subrange(bytes, start, start + 8));
            if u < 0x8000_0000_0000_0000 {
                Value::Int(u as i128)
            } else {
                Value::Int(u as i128 - 0x1_0000_0000_0000_0000)
            }
        },
        ScalarKind::U64 => {
            let u = u64_from_le_bytes(slice_subrange(bytes, start, start + 8));
            Value::Int(u as i128)
        },
        ScalarKind::F32 => {
            Value::F32Bits(u32_from_le_bytes(slice_subrange(bytes, start, start + 4)))
        },
        ScalarKind::F64 => {
            Value::F64Bits(u64_from_le_bytes(slice_subrange(bytes, start, start + 8)))
        },
    }
}

/// Reads the value laid out as `d` stored at `start`; the buffer holds at
/// least `spec_size(d@)` bytes from there on.
fn decode_at(d: &Descriptor, bytes: &[u8], start: usize) -> (r: Result<Value, Error>)
    requires
        start + spec_size(d@) <= bytes@.len(),
        bytes@.len() <= usize::MAX,
    ensures
        r matches Ok(v) ==> spec_decode_exact(
            d@,
            bytes@.subrange(start as int, start + spec_size(d@)),
        ) == Ok::<SpecValue, SpecError>(v@),
        r matches Err(e) ==> spec_decode_exact(
            d@,
            bytes@.subrange(start as int, start + spec_size(d@)),
        ) == Err::<SpecValue, SpecError>(e@),
    decreases d,
{
    let ghost sub = bytes@.subrange(start as int, start + spec_size(d@));
    match d {
        Descriptor::Scalar(k) => Ok(decode_scalar_at(*k, bytes, start)),
        Descriptor::WideChar => Err(Error::NotImplemented),
        Descriptor::Pointer => Err(Error::NotImplemented),
        Descriptor::Pointer32 => {
            let u = u32_from_le_bytes(slice_subrange(bytes, start, start + 4));
            Ok(Value::Pointer(u as u64))
        },
        Descriptor::Pointer64 => {
            let u = u64_from_le_bytes(slice_subrange(bytes, start, start + 8));
            Ok(Value::Pointer(u))
        },
        Descriptor::Array(elem, count) => {
            let ghost eview = desc_view(**elem);
            let mut items: Vec<Value> = Vec::new();
            if *count == 0 {
                proof {
                    assert(values_view(items@) =~= spec_decode_elems(eview, sub, 0)->Ok_0);
                }
                return Ok(Value::Array(items));
            }
            proof {
                assert(spec_size(d@) == spec_size(eview) * (*count as nat));
                assert(spec_size(eview) <= spec_size(eview) * (*count as nat))
                    by (nonlinear_arith)
                    requires *count >= 1;
            }
            let elem_size = elem.size();
            let mut i: u32 = 0;
            let mut off: usize = start;
            #[verifier::loop_isolation(false)]
            while i < *count
                invariant
                    i <= *count,
                    off == start + i as nat * spec_size(eview),
                    spec_decode_elems(eview, sub, i as nat) is Ok,
                    values_view(items@) == spec_decode_elems(eview, sub, i as nat)->Ok_0,
                    items@.len() == i,
                decreases *count - i,
            {
                proof {
                    assert((i as nat + 1) * spec_size(eview) == i as nat * spec_size(eview)
                        + spec_size(eview)) by (nonlinear_arith);
                    assert((i as nat + 1) * spec_size(eview) <= (*count as nat) * spec_size(
                        eview,
                    )) by (nonlinear_arith)
                        requires i as nat + 1 <= *count as nat;
                    assert((*count as nat) * spec_size(eview) == spec_size(eview) * (
                    *count as nat)) by (nonlinear_arith);
                }
                match decode_at(elem, bytes, off) {
                    Ok(v) => {
                        proof {
                            assert(bytes@.subrange(off as int, off + spec_size(eview)) =~= sub
                                .subrange(
                                i as nat * spec_size(eview) as int,
                                (i as nat + 1) * spec_size(eview) as int,
                            ));
                            assert(values_view(items@.push(v)) =~= values_view(items@).push(v@));
                        }
                        items.push(v);
                    },
                    Err(e) => {
                        proof {
                            assert(bytes@.subrange(off as int, off + spec_size(eview)) =~= sub
                                .subrange(
                                i as nat * spec_size(eview) as int,
                                (i as nat + 1) * spec_size(eview) as int,
                            ));
                            lemma_decode_elems_err(eview, sub, i as nat + 1, *count as nat);
                        }
                        return Err(e);
                    },
                }
                i = i + 1;
                off = off + elem_size;
            }
            Ok(Value::Array(items))
        },
        Descriptor::Structure(fields) => {
            let ghost fview = desc_fields_view(fields@);
            let mut fvals: Vec<(String, Value)> = Vec::new();
            let mut i: usize = 0;
            let mut off: usize = start;
            #[verifier::loop_isolation(false)]
            while i < fields.len()
                invariant
                    i <= fields.len(),
                    off == start + spec_size_fields(fview, i as int),
                    spec_decode_fields(fview, sub, i as nat) is Ok,
                    value_fields_view(fvals@) == spec_decode_fields(fview, sub, i as nat)->Ok_0,
                    fvals@.len() == i,
                decreases fields@.len() - i,
            {
                proof {
                    assert(fview[i as int] == (fields@[i as int].0@, desc_view(fields@[i as int].1)));
                    lemma_size_fields_mono(fview, i as int + 1, fview.len() as int);
                }
                let field_size = fields[i].1.size();
                match decode_at(&fields[i].1, bytes, off) {
                    Ok(v) => {
                        let name = fields[i].0.clone();
                        proof {
                            assert(bytes@.subrange(off as int, off + spec_size(fview[i as int].1))
                                =~= sub.subrange(
                                spec_size_fields(fview, i as int) as int,
                                spec_size_fields(fview, i as int + 1) as int,
                            ));
                            assert(value_fields_view(fvals@.push((name, v))) =~= value_fields_view(
                                fvals@,
                            ).push((name@, v@)));
                        }
                        fvals.push((name, v));
                    },
                    Err(e) => {
                        proof {
                            assert(bytes@.subrange(off as int, off + spec_size(fview[i as int].1))
                                =~= sub.subrange(
                                spec_size_fields(fview, i as int) as int,
                                spec_size_fields(fview, i as int + 1) as int,
                            ));
                            lemma_decode_fields_err(fview, sub, i as nat + 1, fview.len());
                        }
                        return Err(e);
                    },
                }
                i = i + 1;
                off = off + field_size;
            }
            Ok(Value::Structure(fvals))
        },
    }
}

impl Descriptor {
    /// Decodes a buffer of exactly `spec_size(self@)` bytes into the value
    /// it holds; a buffer of any other length fails the byte cast.
    pub fn decode(&self, bytes: &[u8]) -> (r: Result<Value, Error>)
        ensures
            r matches Ok(v) ==> spec_decode(self@, bytes@) == Ok::<SpecValue, SpecError>(v@),
            r matches Err(e) ==> spec_decode(self@, bytes@) == Err::<SpecValue, SpecError>(e@),
    {
        let len = bytes.len();
        match self.checked_size() {
            None => Err(Error::ByteCast),
            Some(size) => {
                if len != size {
                    Err(Error::ByteCast)
                } else {
                    proof {
                        assert(bytes@.subrange(0, spec_size(self@) as int) =~= bytes@);
                    }
                    decode_at(self, bytes, 0)
                }
            },
        }
    }
}

} // verus!
