//! The executable encoder: a host value in, the packed little-endian bytes
//! of the descriptor's layout out.

use vstd::prelude::*;
use crate::codec::{
    spec_encode, spec_encode_elems, spec_encode_fields, spec_encode_scalar, spec_lookup,
    spec_lookup_from, lemma_encode_elems_err, lemma_encode_elems_len, lemma_encode_fields_err,
    lemma_encode_fields_len, lemma_encode_len,
};
use crate::descriptor::{
    Descriptor, ScalarKind, SpecDescriptor, desc_fields_view, lemma_size_fields_mono, size_fits,
    spec_size,
};
use crate::error::{Error, SpecError};
use crate::value::{Value, SpecValue, value_fields_view, values_view, value_view};
use crate::wire::{i8_rep, i16_rep, i32_rep, i64_rep, put_u8, put_u16, put_u32, put_u64};

verus! {

/// Appends the packed bytes of a scalar value, or reports why the value
/// does not fit the kind.
fn encode_scalar_into(k: ScalarKind, v: &Value, out: &mut Vec<u8>) -> (r: Result<(), Error>)
    ensures
        r is Ok ==> spec_encode_scalar(k, v@) is Ok,
        r is Ok ==> final(out)@ == old(out)@ + spec_encode_scalar(k, v@)->Ok_0,
        r matches Err(e) ==> spec_encode_scalar(k, v@) == Err::<Seq<u8>, SpecError>(e@),
        r is Err ==> final(out)@ == old(out)@,
{
    match (k, v) {
        (ScalarKind::I8, Value::Int(n)) => {
            if -0x80 <= *n && *n < 0x80 {
                let rep: u8 = if *n >= 0 {
                    *n as u8
                } else {
                    (*n + 0x100) as u8
                };
                proof {
                    assert(rep == i8_rep(*n as int));
                }
                put_u8(out, rep);
                Ok(())
            } else {
                Err(Error::HostInterop)
            }
        },
        (ScalarKind::U8, Value::Int(n)) => {
            if 0 <= *n && *n < 0x100 {
                put_u8(out, *n as u8);
                Ok(())
            } else {
                Err(Error::HostInterop)
            }
        },
        (ScalarKind::Char, Value::Bytes(b)) => {
            if b.len() == 1 {
                let byte = b[0];
                out.push(byte);
                proof {
                    assert(out@ =~= old(out)@ + b@);
                }
                Ok(())
            } else {
                Err(Error::HostInterop)
            }
        },
        (ScalarKind::I16, Value::Int(n)) => {
            if -0x8000 <= *n && *n < 0x8000 {
                let rep: u16 = if *n >= 0 {
                    *n as u16
                } else {
                    (*n + 0x1_0000) as u16
                };
                proof {
                    assert(rep == i16_rep(*n as int));
                }
                put_u16(out, rep);
                Ok(())
            } else {
                Err(Error::HostInterop)
            }
        },
        (ScalarKind::U16, Value::Int(n)) => {
            if 0 <= *n && *n < 0x1_0000 {
                put_u16(out, *n as u16);
                Ok(())
            } else {
                Err(Error::HostInterop)
            }
        },
        (ScalarKind::I32, Value::Int(n)) => {
            if -0x8000_0000 <= *n && *n < 0x8000_0000 {
                let rep: u32 = if *n >= 0 {
                    *n as u32
                } else {
                    (*n + 0x1_0000_0000) as u32
                };
                proof {
                    assert(rep == i32_rep(*n as int));
                }
                put_u32(out, rep);
                Ok(())
            } else {
                Err(Error::HostInterop)
            }
        },
        (ScalarKind::U32, Value::Int(n)) => {
            if 0 <= *n && *n < 0x1_0000_0000 {
                put_u32(out, *n as u32);
                Ok(())
            } else {
                Err(Error::HostInterop)
            }
        },
        (ScalarKind::I64, Value::Int(n)) => {
            if -0x8000_0000_0000_0000 <= *n && *n < 0x8000_0000_0000_0000 {
                let rep: u64 = if *n >= 0 {
                    *n as u64
                } else {
                    (*n + 0x1_0000_0000_0000_0000) as u64
                };
                proof {
                    assert(rep == i64_rep(*n as int));
                }
                put_u64(out, rep);
                Ok(())
            } else {
                Err(Error::HostInterop)
            }
        },
        (ScalarKind::U64, Value::Int(n)) => {
            if 0 <= *n && *n < 0x1_0000_0000_0000_0000 {
                put_u64(out, *n as u64);
                Ok(())
            } else {
                Err(Error::HostInterop)
            }
        },
        (ScalarKind::F32, Value::F32Bits(b)) => {
            put_u32(out, *b);
            Ok(())
        },
        (ScalarKind::F64, Value::F64Bits(b)) => {
            put_u64(out, *b);
            Ok(())
        },
        _ => Err(Error::HostInterop),
    }
}

/// The first field of `fvals` with the given name, as a structure encode
/// reads an attribute off the host value.
fn find_field<'a>(fvals: &'a Vec<(String, Value)>, name: &String) -> (r: Option<&'a Value>)
    ensures
        r matches Some(fv) ==> spec_lookup(value_fields_view(fvals@), name@) == Some(fv@),
        r is None ==> spec_lookup(value_fields_view(fvals@), name@) is None,
{
    let ghost model = value_fields_view(fvals@);
    let mut j: usize = 0;
    #[verifier::loop_isolation(false)]
    while j < fvals.len()
        invariant
            j <= fvals.len(),
            spec_lookup_from(model, name@, 0) == spec_lookup_from(model, name@, j as int),
        decreases fvals.len() - j,
    {
        proof {
            assert(model[j as int] == (fvals@[j as int].0@, value_view(fvals@[j as int].1)));
        }
        if fvals[j].0.eq(name) {
            return Some(&fvals[j].1);
        }
        j = j + 1;
    }
    None
}

/// Appends the packed bytes of `v` laid out as `d`. On an error nothing is
/// promised of `out`: the caller discards it.
fn encode_into(d: &Descriptor, v: &Value, out: &mut Vec<u8>) -> (r: Result<(), Error>)
    requires
        old(out)@.len() + spec_size(d@) <= usize::MAX,
    ensures
        r is Ok ==> spec_encode(d@, v@) is Ok,
        r is Ok ==> final(out)@ == old(out)@ + spec_encode(d@, v@)->Ok_0,
        r matches Err(e) ==> spec_encode(d@, v@) == Err::<Seq<u8>, SpecError>(e@),
    decreases d,
{
    match d {
        Descriptor::Scalar(k) => encode_scalar_into(*k, v, out),
        Descriptor::WideChar => Err(Error::NotImplemented),
        Descriptor::Pointer => Err(Error::NotImplemented),
        Descriptor::Pointer32 => match v {
            Value::Pointer(a) => {
                let masked: u64 = *a & 0xFFFF_FFFF;
                proof {
                    assert(masked <= 0xFFFF_FFFF) by (bit_vector)
                        requires masked == *a & 0xFFFF_FFFF;
                }
                let low: u32 = masked as u32;
                put_u32(out, low);
                Ok(())
            },
            _ => Err(Error::HostInterop),
        },
        Descriptor::Pointer64 => match v {
            Value::Pointer(a) => {
                put_u64(out, *a);
                Ok(())
            },
            _ => Err(Error::HostInterop),
        },
        Descriptor::Array(elem, count) => match v {
            Value::Array(items) => {
                let ghost eview = desc_view_of_elem(elem);
                let ghost ivals = values_view(items@);
                let ghost base = out@;
                let mut i: u32 = 0;
                #[verifier::loop_isolation(false)]
                while i < *count
                    invariant
                        i <= *count,
                        spec_encode_elems(eview, ivals, i as nat) is Ok,
                        out@ == base + spec_encode_elems(eview, ivals, i as nat)->Ok_0,
                    decreases *count - i,
                {
                    proof {
                        lemma_encode_elems_len(eview, ivals, i as nat);
                        assert(spec_size(d@) == spec_size(eview) * (*count as nat));
                        lemma_size_mul_mono(spec_size(eview), i as nat + 1, *count as nat);
                        assert((i as nat + 1) * spec_size(eview) == i as nat * spec_size(eview)
                            + spec_size(eview)) by (nonlinear_arith);
                    }
                    if (i as usize) >= items.len() {
                        proof {
                            lemma_encode_elems_err(eview, ivals, i as nat + 1, *count as nat);
                        }
                        return Err(Error::HostInterop);
                    }
                    proof {
                        assert(ivals[i as int] == value_view(items@[i as int]));
                    }
                    match encode_into(elem, &items[i as usize], out) {
                        Ok(()) => {},
                        Err(e) => {
                            proof {
                                lemma_encode_elems_err(eview, ivals, i as nat + 1, *count as nat);
                            }
                            return Err(e);
                        },
                    }
                    i = i + 1;
                }
                Ok(())
            },
            _ => Err(Error::HostInterop),
        },
        Descriptor::Structure(fields) => match v {
            Value::Structure(fvals) => {
                let ghost fview = desc_fields_view(fields@);
                let ghost vview = value_fields_view(fvals@);
                let ghost base = out@;
                let mut i: usize = 0;
                #[verifier::loop_isolation(false)]
                while i < fields.len()
                    invariant
                        i <= fields.len(),
                        spec_encode_fields(fview, vview, i as nat) is Ok,
                        out@ == base + spec_encode_fields(fview, vview, i as nat)->Ok_0,
                    decreases fields@.len() - i,
                {
                    proof {
                        assert(fview[i as int] == (
                            fields@[i as int].0@,
                            crate::descriptor::desc_view(fields@[i as int].1),
                        ));
                        lemma_encode_fields_len(fview, vview, i as nat);
                        lemma_size_fields_mono(fview, i as int + 1, fview.len() as int);
                    }
                    match find_field(fvals, &fields[i].0) {
                        None => {
                            let name = fields[i].0.clone();
                            proof {
                                lemma_encode_fields_err(
                                    fview,
                                    vview,
                                    i as nat + 1,
                                    fview.len(),
                                );
                            }
                            return Err(Error::MissingAttribute(name));
                        },
                        Some(fv) => {
                            match encode_into(&fields[i].1, fv, out) {
                                Ok(()) => {},
                                Err(e) => {
                                    proof {
                                        lemma_encode_fields_err(
                                            fview,
                                            vview,
                                            i as nat + 1,
                                            fview.len(),
                                        );
                                    }
                                    return Err(e);
                                },
                            }
                        },
                    }
                    i = i + 1;
                }
                Ok(())
            },
            _ => Err(Error::HostInterop),
        },
    }
}

/// The model of a boxed element descriptor.
spec fn desc_view_of_elem(elem: &Box<Descriptor>) -> SpecDescriptor {
    crate::descriptor::desc_view(**elem)
}

/// A size times a smaller count stays within a size times a larger count.
proof fn lemma_size_mul_mono(s: nat, a: nat, b: nat)
    requires
        a <= b,
    ensures
        a * s <= b * s,
        s * a <= s * b,
{
    assert(a * s <= b * s && s * a <= s * b) by (nonlinear_arith)
        requires a <= b;
}

impl Descriptor {
    /// Encodes `v` into exactly `spec_size(self@)` packed little-endian
    /// bytes, or reports the first reason the value cannot be encoded; on
    /// an error no partial buffer is returned.
    pub fn encode(&self, v: &Value) -> (r: Result<Vec<u8>, Error>)
        requires
            size_fits(self@),
        ensures
            r is Ok ==> spec_encode(self@, v@) is Ok,
            r matches Ok(bytes) ==> bytes@ == spec_encode(self@, v@)->Ok_0,
            r matches Ok(bytes) ==> bytes@.len() == spec_size(self@),
            r matches Err(e) ==> spec_encode(self@, v@) == Err::<Seq<u8>, SpecError>(e@),
    {
        let mut out: Vec<u8> = Vec::new();
        match encode_into(self, v, &mut out) {
            Ok(()) => {
                proof {
                    lemma_encode_len(self@, v@);
                }
                Ok(out)
            },
            Err(e) => Err(e),
        }
    }
}

} // verus!
