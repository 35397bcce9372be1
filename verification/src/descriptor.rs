//! The descriptor model: a tagged union describing a packed binary layout,
//! and its size computation.

use vstd::prelude::*;

verus! {

/// The fixed-width scalar kinds a descriptor can name.
///
/// Floating-point scalars are carried as their IEEE-754 bit patterns, so the
/// codec itself works on integers only; the width of each kind is given by
/// [`scalar_size`].
#[derive(Clone, Copy, PartialEq, Eq, Structural, Debug)]
pub enum ScalarKind {
    /// Signed 8-bit integer.
    I8,
    /// Unsigned 8-bit integer.
    U8,
    /// A single opaque byte, kept as a one-byte sequence rather than an integer.
    Char,
    /// Signed 16-bit integer.
    I16,
    /// Unsigned 16-bit integer.
    U16,
    /// Signed 32-bit integer.
    I32,
    /// Unsigned 32-bit integer.
    U32,
    /// Signed 64-bit integer.
    I64,
    /// Unsigned 64-bit integer.
    U64,
    /// 32-bit IEEE-754 value, carried as its bit pattern.
    F32,
    /// 64-bit IEEE-754 value, carried as its bit pattern.
    F64,
}

/// The byte width of a scalar kind.
pub open spec fn scalar_size(k: ScalarKind) -> nat {
    match k {
        ScalarKind::I8 => 1,
        ScalarKind::U8 => 1,
        ScalarKind::Char => 1,
        ScalarKind::I16 => 2,
        ScalarKind::U16 => 2,
        ScalarKind::I32 => 4,
        ScalarKind::U32 => 4,
        ScalarKind::I64 => 8,
        ScalarKind::U64 => 8,
        ScalarKind::F32 => 4,
        ScalarKind::F64 => 8,
    }
}

/// A layout descriptor: the shape of one packed binary value.
///
/// `Array` and `Structure` own their child descriptors; a descriptor is an
/// immutable tree built once and reused across any number of encode and
/// decode calls. Structure fields keep their declared order, which fixes
/// the byte offset of every field: there is no padding, so field `i` starts
/// at the sum of the sizes of fields `0..i`.
#[derive(Debug, PartialEq)]
pub enum Descriptor {
    /// A fixed-width arithmetic value.
    Scalar(ScalarKind),
    /// A two-byte unicode code unit; its codec paths are not implemented.
    WideChar,
    /// A pointer of the host's native width (eight bytes here); address
    /// storage and retrieval are not implemented.
    Pointer,
    /// A four-byte address-valued scalar.
    Pointer32,
    /// An eight-byte address-valued scalar.
    Pointer64,
    /// A fixed-length homogeneous sequence: element layout and element count.
    Array(Box<Descriptor>, u32),
    /// A record: named fields laid out consecutively in declared order.
    Structure(Vec<(String, Descriptor)>),
}

/// The mathematical model of a [`Descriptor`]: field names become
/// sequences of characters and the field list becomes a `Seq`.
pub enum SpecDescriptor {
    Scalar(ScalarKind),
    WideChar,
    Pointer,
    Pointer32,
    Pointer64,
    Array(Box<SpecDescriptor>, nat),
    Structure(Seq<(Seq<char>, SpecDescriptor)>),
}

/// The model of an exec descriptor, defined by structural recursion.
pub open spec fn desc_view(d: Descriptor) -> SpecDescriptor
    decreases d,
{
    match d {
        Descriptor::Scalar(k) => SpecDescriptor::Scalar(k),
        Descriptor::WideChar => SpecDescriptor::WideChar,
        Descriptor::Pointer => SpecDescriptor::Pointer,
        Descriptor::Pointer32 => SpecDescriptor::Pointer32,
        Descriptor::Pointer64 => SpecDescriptor::Pointer64,
        Descriptor::Array(elem, count) => SpecDescriptor::Array(
            Box::new(desc_view(*elem)),
            count as nat,
        ),
        Descriptor::Structure(fields) => SpecDescriptor::Structure(desc_fields_view(fields@)),
    }
}

/// The model of an exec structure field list.
pub open spec fn desc_fields_view(fields: Seq<(String, Descriptor)>) -> Seq<
    (Seq<char>, SpecDescriptor),
>
    decreases fields,
{
    Seq::new(
        fields.len(),
        |i: int|
            if 0 <= i < fields.len() {
                (fields[i].0@, desc_view(fields[i].1))
            } else {
                vstd::pervasive::arbitrary()
            },
    )
}

impl View for Descriptor {
    type V = SpecDescriptor;

    open spec fn view(&self) -> SpecDescriptor {
        desc_view(*self)
    }
}

/// The size in bytes of a value laid out as `d`: scalar sizes are fixed per
/// kind, an array is `count` copies of its element, and a structure is the
/// sum of its fields in declared order.
pub open spec fn spec_size(d: SpecDescriptor) -> nat
    decreases d,
{
    match d {
        SpecDescriptor::Scalar(k) => scalar_size(k),
        SpecDescriptor::WideChar => 2,
        SpecDescriptor::Pointer => 8,
        SpecDescriptor::Pointer32 => 4,
        SpecDescriptor::Pointer64 => 8,
        SpecDescriptor::Array(elem, count) => spec_size(*elem) * count,
        SpecDescriptor::Structure(fields) => spec_size_fields(fields, fields.len() as int),
    }
}

/// The summed size of the first `n` fields of a structure.
pub open spec fn spec_size_fields(fields: Seq<(Seq<char>, SpecDescriptor)>, n: int) -> nat
    decreases fields, n,
{
    if n <= 0 || n > fields.len() {
        0
    } else {
        spec_size_fields(fields, n - 1) + spec_size(fields[n - 1].1)
    }
}

/// Whether the size of `d` fits the machine's address space, so that a byte
/// buffer of that size can exist.
pub open spec fn size_fits(d: SpecDescriptor) -> bool {
    spec_size(d) <= usize::MAX
}

/// Well-formedness of a descriptor: every structure in the tree names each
/// of its fields once. The builder only produces such descriptors, since a
/// host type's repeated field name replaces the earlier field's layout.
pub open spec fn wf_desc(d: SpecDescriptor) -> bool
    decreases d,
{
    match d {
        SpecDescriptor::Array(elem, _) => wf_desc(*elem),
        SpecDescriptor::Structure(fields) => (forall|i: int, j: int|
            0 <= i < j < fields.len() ==> (#[trigger] fields[i]).0 != (#[trigger] fields[j]).0)
            && (forall|i: int| 0 <= i < fields.len() ==> wf_desc((#[trigger] fields[i]).1)),
        _ => true,
    }
}

/// Taking more fields of a structure never shrinks the summed size.
pub proof fn lemma_size_fields_mono(fields: Seq<(Seq<char>, SpecDescriptor)>, k: int, n: int)
    requires
        0 <= k <= n <= fields.len(),
    ensures
        spec_size_fields(fields, k) <= spec_size_fields(fields, n),
    decreases n - k,
{
    if k < n {
        lemma_size_fields_mono(fields, k, n - 1);
    }
}

/// The byte width of a scalar kind, as an executable value.
pub fn scalar_width(k: ScalarKind) -> (r: usize)
    ensures
        r == scalar_size(k),
{
    match k {
        ScalarKind::I8 => 1,
        ScalarKind::U8 => 1,
        ScalarKind::Char => 1,
        ScalarKind::I16 => 2,
        ScalarKind::U16 => 2,
        ScalarKind::I32 => 4,
        ScalarKind::U32 => 4,
        ScalarKind::I64 => 8,
        ScalarKind::U64 => 8,
        ScalarKind::F32 => 4,
        ScalarKind::F64 => 8,
    }
}

impl Descriptor {
    /// The size in bytes of any value laid out as `self`, or `None` when
    /// that size exceeds what a byte buffer on this machine can hold.
    #[verifier::rlimit(30)]
    pub fn checked_size(&self) -> (r: Option<usize>)
        ensures
            r matches Some(s) ==> s == spec_size(self@),
            r is None ==> !size_fits(self@),
        decreases self,
    {
        match self {
            Descriptor::Scalar(k) => Some(scalar_width(*k)),
            Descriptor::WideChar => Some(2),
            Descriptor::Pointer => Some(8),
            Descriptor::Pointer32 => Some(4),
            Descriptor::Pointer64 => Some(8),
            Descriptor::Array(elem, count) => {
                if *count == 0 {
                    Some(0)
                } else {
                    match elem.checked_size() {
                        Some(elem_size) => match elem_size.checked_mul(*count as usize) {
                            Some(total) => {
                                proof {
                                    assert(total == spec_size(self@));
                                }
                                Some(total)
                            },
                            None => {
                                proof {
                                    assert(!size_fits(self@));
                                }
                                None
                            },
                        },
                        None => {
                            proof {
                                let es = spec_size(desc_view(**elem));
                                assert(es * (*count as nat) >= es) by (nonlinear_arith)
                                    requires *count >= 1;
                            }
                            None
                        },
                    }
                }
            },
            Descriptor::Structure(fields) => {
                let ghost sfields = desc_fields_view(fields@);
                proof {
                    assert(self@ == SpecDescriptor::Structure(sfields));
                }
                let mut total: usize = 0;
                let mut i: usize = 0;
                #[verifier::loop_isolation(false)]
                while i < fields.len()
                    invariant
                        i <= fields.len(),
                        total == spec_size_fields(sfields, i as int),
                    decreases fields@.len() - i,
                {
                    proof {
                        assert(sfields[i as int].1 == desc_view(fields@[i as int].1));
                    }
                    match fields[i].1.checked_size() {
                        Some(field_size) => {
                            match total.checked_add(field_size) {
                                Some(new_total) => {
                                    total = new_total;
                                },
                                None => {
                                    proof {
                                        lemma_size_fields_mono(
                                            sfields,
                                            i + 1,
                                            sfields.len() as int,
                                        );
                                    }
                                    return None;
                                },
                            }
                        },
                        None => {
                            proof {
                                lemma_size_fields_mono(sfields, i + 1, sfields.len() as int);
                            }
                            return None;
                        },
                    }
                    i = i + 1;
                }
                proof {
                    assert(total == spec_size_fields(sfields, sfields.len() as int));
                    assert(spec_size(self@) == spec_size_fields(sfields, sfields.len() as int));
                }
                Some(total)
            },
        }
    }

    /// The size in bytes of any value laid out as `self`: a pure function
    /// of the descriptor's shape alone.
    pub fn size(&self) -> (r: usize)
        requires
            size_fits(self@),
        ensures
            r == spec_size(self@),
    {
        match self.checked_size() {
            Some(s) => s,
            None => vstd::pervasive::unreached(),
        }
    }
}

} // verus!
