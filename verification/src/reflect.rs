//! The descriptor builder: reflection over a host type object, reduced to a
//! pure function of the plain data the host reports.
//!
//! The embedding reads a host type object through a narrow capability
//! surface — its base category name, its own type name, its declared field
//! list, its element type and length — into a [`TypeObject`], and the
//! builder turns that into a [`Descriptor`], fail-fast and all-or-nothing.

use vstd::prelude::*;
use crate::descriptor::{Descriptor, ScalarKind, SpecDescriptor, desc_fields_view, desc_view, wf_desc};
use crate::error::{Error, SpecError};

verus! {

/// One declared field of a record type: a name, and the field's type if
/// the entry carries one.
pub struct FieldEntry {
    pub name: String,
    pub ty: Option<TypeObject>,
}

/// What the builder reads off a host type object, as plain data.
///
/// `fields` is meaningful for record types, `element` and `length` for
/// array types; the other categories use only the two names.
pub struct TypeObject {
    /// The name of the type's declared base category.
    pub base_category: String,
    /// The type's own name; for simple scalars it selects the scalar kind.
    pub own_name: String,
    /// The declared fields, in order, for a record type.
    pub fields: Vec<FieldEntry>,
    /// The element type, for an array type.
    pub element: Option<Box<TypeObject>>,
    /// The element count, for an array type.
    pub length: u32,
}

/// The mathematical model of a [`FieldEntry`].
pub struct SpecFieldEntry {
    pub name: Seq<char>,
    pub ty: Option<SpecTypeObject>,
}

/// The mathematical model of a [`TypeObject`].
pub struct SpecTypeObject {
    pub base_category: Seq<char>,
    pub own_name: Seq<char>,
    pub fields: Seq<SpecFieldEntry>,
    pub element: Option<Box<SpecTypeObject>>,
    pub length: nat,
}

/// The model of an exec type object, defined by structural recursion.
pub open spec fn type_view(t: TypeObject) -> SpecTypeObject
    decreases t,
{
    SpecTypeObject {
        base_category: t.base_category@,
        own_name: t.own_name@,
        fields: Seq::new(
            t.fields@.len(),
            |i: int|
                if 0 <= i < t.fields@.len() {
                    entry_view_at(t.fields@[i])
                } else {
                    vstd::pervasive::arbitrary()
                },
        ),
        element: match t.element {
            None => None,
            Some(elem) => Some(Box::new(type_view(*elem))),
        },
        length: t.length as nat,
    }
}

/// The model of one exec field entry.
pub open spec fn entry_view_at(entry: FieldEntry) -> SpecFieldEntry
    decreases entry,
{
    SpecFieldEntry {
        name: entry.name@,
        ty: match entry.ty {
            None => None,
            Some(ft) => Some(type_view(ft)),
        },
    }
}

impl View for TypeObject {
    type V = SpecTypeObject;

    open spec fn view(&self) -> SpecTypeObject {
        type_view(*self)
    }
}

/// The scalar lookup table: which layout a simple scalar's type name
/// selects. Widths follow a 64-bit host: the plain `int` is four bytes,
/// `long` and `long long` are eight, and `long double` is an alias of the
/// eight-byte float.
pub open spec fn spec_scalar_of_name(name: Seq<char>) -> Result<SpecDescriptor, SpecError> {
    if name == "c_byte"@ {
        Ok(SpecDescriptor::Scalar(ScalarKind::I8))
    } else if name == "c_ubyte"@ || name == "c_bool"@ {
        Ok(SpecDescriptor::Scalar(ScalarKind::U8))
    } else if name == "c_char"@ {
        Ok(SpecDescriptor::Scalar(ScalarKind::Char))
    } else if name == "c_wchar"@ {
        Ok(SpecDescriptor::WideChar)
    } else if name == "c_double"@ || name == "c_longdouble"@ {
        Ok(SpecDescriptor::Scalar(ScalarKind::F64))
    } else if name == "c_float"@ {
        Ok(SpecDescriptor::Scalar(ScalarKind::F32))
    } else if name == "c_short"@ {
        Ok(SpecDescriptor::Scalar(ScalarKind::I16))
    } else if name == "c_ushort"@ {
        Ok(SpecDescriptor::Scalar(ScalarKind::U16))
    } else if name == "c_int"@ {
        Ok(SpecDescriptor::Scalar(ScalarKind::I32))
    } else if name == "c_uint"@ {
        Ok(SpecDescriptor::Scalar(ScalarKind::U32))
    } else if name == "c_long"@ || name == "c_longlong"@ {
        Ok(SpecDescriptor::Scalar(ScalarKind::I64))
    } else if name == "c_ulong"@ || name == "c_ulonglong"@ {
        Ok(SpecDescriptor::Scalar(ScalarKind::U64))
    } else {
        Err(SpecError::UnknownScalarName(name))
    }
}

/// The position of the first built field named `name`, searching from `i`.
pub open spec fn spec_field_index_from(
    fields: Seq<(Seq<char>, SpecDescriptor)>,
    name: Seq<char>,
    i: int,
) -> Option<int>
    decreases fields.len() - i,
{
    if i < 0 || i >= fields.len() {
        None
    } else if fields[i].0 == name {
        Some(i)
    } else {
        spec_field_index_from(fields, name, i + 1)
    }
}

/// Adding a built field keeps one entry per name: a repeated name replaces
/// the earlier field's layout in place, a new name goes to the end.
pub open spec fn spec_insert_field(
    fields: Seq<(Seq<char>, SpecDescriptor)>,
    name: Seq<char>,
    fd: SpecDescriptor,
) -> Seq<(Seq<char>, SpecDescriptor)> {
    match spec_field_index_from(fields, name, 0) {
        Some(j) => fields.update(j, (name, fd)),
        None => fields.push((name, fd)),
    }
}

/// The descriptor built from a host type object, or the first error the
/// fail-fast traversal meets.
pub open spec fn spec_build(t: SpecTypeObject) -> Result<SpecDescriptor, SpecError>
    decreases t, 0nat,
{
    if t.base_category == "_SimpleCData"@ {
        spec_scalar_of_name(t.own_name)
    } else if t.base_category == "_Pointer"@ {
        Ok(SpecDescriptor::Pointer)
    } else if t.base_category == "Pointer32"@ {
        Ok(SpecDescriptor::Pointer32)
    } else if t.base_category == "Pointer64"@ {
        Ok(SpecDescriptor::Pointer64)
    } else if t.base_category == "Array"@ {
        match t.element {
            None => Err(SpecError::HostInterop),
            Some(elem) => match spec_build(*elem) {
                Err(e) => Err(e),
                Ok(ed) => Ok(SpecDescriptor::Array(Box::new(ed), t.length)),
            },
        }
    } else if t.base_category == "Structure"@ {
        match spec_build_fields(t.fields, t.fields.len()) {
            Err(e) => Err(e),
            Ok(fds) => Ok(SpecDescriptor::Structure(fds)),
        }
    } else {
        Err(SpecError::InvalidType(t.base_category))
    }
}

/// The built field list of the first `n` declared entries: each entry
/// needs a field type, whose descriptor is built recursively and inserted.
pub open spec fn spec_build_fields(entries: Seq<SpecFieldEntry>, n: nat) -> Result<
    Seq<(Seq<char>, SpecDescriptor)>,
    SpecError,
>
    decreases entries, n,
{
    if n == 0 || n > entries.len() {
        Ok(Seq::empty())
    } else {
        match spec_build_fields(entries, (n - 1) as nat) {
            Err(e) => Err(e),
            Ok(acc) => match entries[n - 1].ty {
                None => Err(SpecError::MissingFieldType(entries[n - 1].name)),
                Some(ft) => match spec_build(ft) {
                    Err(e) => Err(e),
                    Ok(fd) => Ok(spec_insert_field(acc, entries[n - 1].name, fd)),
                },
            },
        }
    }
}

/// Whether `s` reads as the string literal `lit`.
fn str_matches(s: &String, lit: &str) -> (r: bool)
    ensures
        r == (s@ == lit@),
{
    let owned = lit.to_owned();
    s.eq(&owned)
}

/// Adds a built field to the list, replacing the layout of an
/// equally-named earlier field in place.
fn insert_field(fields: &mut Vec<(String, Descriptor)>, name: String, fd: Descriptor)
    ensures
        desc_fields_view(final(fields)@) == spec_insert_field(
            desc_fields_view(old(fields)@),
            name@,
            desc_view(fd),
        ),
{
    let ghost model = desc_fields_view(fields@);
    let mut j: usize = 0;
    #[verifier::loop_isolation(false)]
    while j < fields.len()
        invariant
            j <= fields.len(),
            fields@ == old(fields)@,
            spec_field_index_from(model, name@, 0) == spec_field_index_from(
                model,
                name@,
                j as int,
            ),
        decreases fields@.len() - j,
    {
        proof {
            assert(model[j as int] == (fields@[j as int].0@, desc_view(fields@[j as int].1)));
        }
        if fields[j].0.eq(&name) {
            fields[j] = (name, fd);
            proof {
                assert(desc_fields_view(fields@) =~= model.update(
                    j as int,
                    (name@, desc_view(fd)),
                ));
            }
            return ;
        }
        j = j + 1;
    }
    fields.push((name, fd));
    proof {
        assert(desc_fields_view(fields@) =~= model.push((name@, desc_view(fd))));
    }
}

/// Builds the layout descriptor of a host type object: the dispatch on the
/// type's base category described by the reflection contract.
pub fn build_descriptor(t: &TypeObject) -> (r: Result<Descriptor, Error>)
    ensures
        r matches Ok(d) ==> spec_build(t@) == Ok::<SpecDescriptor, SpecError>(d@),
        r matches Err(e) ==> spec_build(t@) == Err::<SpecDescriptor, SpecError>(e@),
    decreases t,
{
    if str_matches(&t.base_category, "_SimpleCData") {
        build_scalar(&t.own_name)
    } else if str_matches(&t.base_category, "_Pointer") {
        Ok(Descriptor::Pointer)
    } else if str_matches(&t.base_category, "Pointer32") {
        Ok(Descriptor::Pointer32)
    } else if str_matches(&t.base_category, "Pointer64") {
        Ok(Descriptor::Pointer64)
    } else if str_matches(&t.base_category, "Array") {
        match &t.element {
            None => Err(Error::HostInterop),
            Some(elem) => match build_descriptor(elem) {
                Err(e) => Err(e),
                Ok(ed) => Ok(Descriptor::Array(Box::new(ed), t.length)),
            },
        }
    } else if str_matches(&t.base_category, "Structure") {
        let ghost entries = t@.fields;
        let mut built: Vec<(String, Descriptor)> = Vec::new();
        let mut i: usize = 0;
        #[verifier::loop_isolation(false)]
        while i < t.fields.len()
            invariant
                i <= t.fields.len(),
                spec_build_fields(entries, i as nat) is Ok,
                desc_fields_view(built@) == spec_build_fields(entries, i as nat)->Ok_0,
            decreases t.fields@.len() - i,
        {
            proof {
                assert(entries[i as int] == entry_view_at(t.fields@[i as int]));
            }
            match &t.fields[i].ty {
                None => {
                    proof {
                        lemma_build_fields_err(entries, i as nat + 1, entries.len());
                    }
                    return Err(Error::MissingFieldType(t.fields[i].name.clone()));
                },
                Some(ft) => {
                    match build_descriptor(ft) {
                        Err(e) => {
                            proof {
                                lemma_build_fields_err(entries, i as nat + 1, entries.len());
                            }
                            return Err(e);
                        },
                        Ok(fd) => {
                            let name = t.fields[i].name.clone();
                            insert_field(&mut built, name, fd);
                        },
                    }
                },
            }
            i = i + 1;
        }
        Ok(Descriptor::Structure(built))
    } else {
        Err(Error::InvalidType(t.base_category.clone()))
    }
}

/// Builds the scalar layout a simple scalar's type name selects.
fn build_scalar(name: &String) -> (r: Result<Descriptor, Error>)
    ensures
        r matches Ok(d) ==> spec_scalar_of_name(name@) == Ok::<SpecDescriptor, SpecError>(d@),
        r matches Err(e) ==> spec_scalar_of_name(name@) == Err::<SpecDescriptor, SpecError>(e@),
{
    if str_matches(name, "c_byte") {
        Ok(Descriptor::Scalar(ScalarKind::I8))
    } else if str_matches(name, "c_ubyte") || str_matches(name, "c_bool") {
        Ok(Descriptor::Scalar(ScalarKind::U8))
    } else if str_matches(name, "c_char") {
        Ok(Descriptor::Scalar(ScalarKind::Char))
    } else if str_matches(name, "c_wchar") {
        Ok(Descriptor::WideChar)
    } else if str_matches(name, "c_double") || str_matches(name, "c_longdouble") {
        Ok(Descriptor::Scalar(ScalarKind::F64))
    } else if str_matches(name, "c_float") {
        Ok(Descriptor::Scalar(ScalarKind::F32))
    } else if str_matches(name, "c_short") {
        Ok(Descriptor::Scalar(ScalarKind::I16))
    } else if str_matches(name, "c_ushort") {
        Ok(Descriptor::Scalar(ScalarKind::U16))
    } else if str_matches(name, "c_int") {
        Ok(Descriptor::Scalar(ScalarKind::I32))
    } else if str_matches(name, "c_uint") {
        Ok(Descriptor::Scalar(ScalarKind::U32))
    } else if str_matches(name, "c_long") || str_matches(name, "c_longlong") {
        Ok(Descriptor::Scalar(ScalarKind::I64))
    } else if str_matches(name, "c_ulong") || str_matches(name, "c_ulonglong") {
        Ok(Descriptor::Scalar(ScalarKind::U64))
    } else {
        Err(Error::UnknownScalarName(name.clone()))
    }
}

/// A search that found no field of this name means no field has it.
proof fn lemma_field_index_none(
    fields: Seq<(Seq<char>, SpecDescriptor)>,
    name: Seq<char>,
    k: int,
)
    requires
        0 <= k,
        spec_field_index_from(fields, name, k) is None,
    ensures
        forall|m: int| k <= m < fields.len() ==> (#[trigger] fields[m]).0 != name,
    decreases fields.len() - k,
{
    if k < fields.len() {
        lemma_field_index_none(fields, name, k + 1);
    }
}

/// A found field position carries the name searched for.
proof fn lemma_field_index_some(
    fields: Seq<(Seq<char>, SpecDescriptor)>,
    name: Seq<char>,
    k: int,
    j: int,
)
    requires
        0 <= k,
        spec_field_index_from(fields, name, k) == Some(j),
    ensures
        k <= j < fields.len(),
        fields[j].0 == name,
    decreases fields.len() - k,
{
    if k < fields.len() && fields[k].0 != name {
        lemma_field_index_some(fields, name, k + 1, j);
    }
}

/// Inserting a well-formed field into a well-formed field list keeps the
/// list well-formed: names stay unique either way the insert goes.
proof fn lemma_insert_field_wf(
    fields: Seq<(Seq<char>, SpecDescriptor)>,
    name: Seq<char>,
    fd: SpecDescriptor,
)
    requires
        wf_desc(SpecDescriptor::Structure(fields)),
        wf_desc(fd),
    ensures
        wf_desc(SpecDescriptor::Structure(spec_insert_field(fields, name, fd))),
        spec_insert_field(fields, name, fd).len() <= fields.len() + 1,
{
    let before = SpecDescriptor::Structure(fields);
    assert(before->Structure_0 == fields);
    let after = SpecDescriptor::Structure(spec_insert_field(fields, name, fd));
    assert(after->Structure_0 == spec_insert_field(fields, name, fd));
    match spec_field_index_from(fields, name, 0) {
        Some(j) => {
            lemma_field_index_some(fields, name, 0, j);
            let updated = fields.update(j, (name, fd));
            assert(updated.len() == fields.len());
            assert forall|m: int| 0 <= m < updated.len() implies (#[trigger] updated[m]).0
                == fields[m].0 && wf_desc(updated[m].1) by {
                if m == j {
                    assert(updated[m] == (name, fd));
                    assert(updated[m].0 == fields[m].0);
                    assert(wf_desc(updated[m].1));
                } else {
                    assert(updated[m] == fields[m]);
                    assert(wf_desc(fields[m].1));
                }
            }
        },
        None => {
            lemma_field_index_none(fields, name, 0);
            let pushed = fields.push((name, fd));
            assert forall|m: int| 0 <= m < pushed.len() implies wf_desc(
                (#[trigger] pushed[m]).1,
            ) by {
                if m < fields.len() {
                    assert(pushed[m] == fields[m]);
                }
            }
            assert forall|i: int, j: int| 0 <= i < j < pushed.len() implies (
            #[trigger] pushed[i]).0 != (#[trigger] pushed[j]).0 by {
                if j < fields.len() {
                    assert(pushed[i] == fields[i] && pushed[j] == fields[j]);
                } else {
                    assert(pushed[i] == fields[i] && pushed[j].0 == name);
                }
            }
        },
    }
}

/// The field list built from the first `n` declared entries is
/// well-formed: every name appears once and every field layout is.
proof fn lemma_build_fields_wf(entries: Seq<SpecFieldEntry>, n: nat)
    requires
        n <= entries.len(),
        spec_build_fields(entries, n) is Ok,
    ensures
        wf_desc(SpecDescriptor::Structure(spec_build_fields(entries, n)->Ok_0)),
    decreases entries, n,
{
    if n > 0 {
        lemma_build_fields_wf(entries, (n - 1) as nat);
        let acc = spec_build_fields(entries, (n - 1) as nat)->Ok_0;
        let ft = entries[n - 1].ty->Some_0;
        lemma_build_wf(ft);
        lemma_insert_field_wf(acc, entries[n - 1].name, spec_build(ft)->Ok_0);
    }
}

/// Whatever the builder accepts is well-formed: a built descriptor's
/// structures name each field once, down the whole tree.
pub proof fn lemma_build_wf(t: SpecTypeObject)
    requires
        spec_build(t) is Ok,
    ensures
        wf_desc(spec_build(t)->Ok_0),
    decreases t, 0nat,
{
    if t.base_category == "_SimpleCData"@ {
    } else if t.base_category == "_Pointer"@ {
    } else if t.base_category == "Pointer32"@ {
    } else if t.base_category == "Pointer64"@ {
    } else if t.base_category == "Array"@ {
        if let Some(elem) = t.element {
            if spec_build(*elem) is Ok {
                lemma_build_wf(*elem);
            }
        }
    } else if t.base_category == "Structure"@ {
        lemma_build_fields_wf(t.fields, t.fields.len());
    } else {
    }
}

/// A build error met among the first `j` declared fields settles every
/// longer prefix the same way.
pub proof fn lemma_build_fields_err(entries: Seq<SpecFieldEntry>, j: nat, n: nat)
    requires
        j <= n <= entries.len(),
        spec_build_fields(entries, j) is Err,
    ensures
        spec_build_fields(entries, n) == spec_build_fields(entries, j),
    decreases n,
{
    if n > j {
        lemma_build_fields_err(entries, j, (n - 1) as nat);
    }
}

} // verus!
