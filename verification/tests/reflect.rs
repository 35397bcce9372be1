use ctypes_codec::error::Error;
use ctypes_codec::reflect::{FieldEntry, TypeObject, build_descriptor};
use ctypes_codec::value::Value;

fn leaf(base: &str, name: &str) -> TypeObject {
    TypeObject {
        base_category: base.to_string(),
        own_name: name.to_string(),
        fields: Vec::new(),
        element: None,
        length: 0,
    }
}

fn simple(name: &str) -> TypeObject {
    leaf("_SimpleCData", name)
}

fn array_of(elem: TypeObject, length: u32) -> TypeObject {
    TypeObject {
        base_category: "Array".to_string(),
        own_name: "array".to_string(),
        fields: Vec::new(),
        element: Some(Box::new(elem)),
        length,
    }
}

fn record(fields: Vec<(&str, Option<TypeObject>)>) -> TypeObject {
    TypeObject {
        base_category: "Structure".to_string(),
        own_name: "record".to_string(),
        fields: fields
            .into_iter()
            .map(|(n, ty)| FieldEntry { name: n.to_string(), ty })
            .collect(),
        element: None,
        length: 0,
    }
}

#[test]
fn build_simple_scalar_sizes() {
    let cases = vec![
        ("c_byte", 1),
        ("c_ubyte", 1),
        ("c_bool", 1),
        ("c_char", 1),
        ("c_wchar", 2),
        ("c_short", 2),
        ("c_ushort", 2),
        ("c_int", 4),
        ("c_uint", 4),
        ("c_float", 4),
        ("c_long", 8),
        ("c_ulong", 8),
        ("c_longlong", 8),
        ("c_ulonglong", 8),
        ("c_double", 8),
        ("c_longdouble", 8),
    ];
    for (name, size) in cases {
        let d = build_descriptor(&simple(name)).unwrap();
        assert_eq!(d.size(), size, "size of {}", name);
    }
}

#[test]
fn build_unknown_scalar_name() {
    assert_eq!(
        build_descriptor(&simple("c_char_p")),
        Err(Error::UnknownScalarName("c_char_p".to_string()))
    );
}

#[test]
fn build_invalid_type() {
    assert_eq!(
        build_descriptor(&leaf("Union", "u")),
        Err(Error::InvalidType("Union".to_string()))
    );
}

#[test]
fn build_pointer_categories() {
    assert_eq!(build_descriptor(&leaf("_Pointer", "p")).unwrap().size(), 8);
    assert_eq!(build_descriptor(&leaf("Pointer32", "p")).unwrap().size(), 4);
    assert_eq!(build_descriptor(&leaf("Pointer64", "p")).unwrap().size(), 8);
}

#[test]
fn build_array_of_ushort() {
    let d = build_descriptor(&array_of(simple("c_ushort"), 3)).unwrap();
    assert_eq!(d.size(), 6);
}

#[test]
fn build_array_missing_element() {
    let t = TypeObject {
        base_category: "Array".to_string(),
        own_name: "array".to_string(),
        fields: Vec::new(),
        element: None,
        length: 3,
    };
    assert_eq!(build_descriptor(&t), Err(Error::HostInterop));
}

#[test]
fn build_structure_round_trip() {
    let t = record(vec![
        ("a", Some(simple("c_ubyte"))),
        ("b", Some(array_of(simple("c_short"), 2))),
    ]);
    let d = build_descriptor(&t).unwrap();
    assert_eq!(d.size(), 5);
    let v = Value::Structure(vec![
        ("a".to_string(), Value::Int(9)),
        ("b".to_string(), Value::Array(vec![Value::Int(-2), Value::Int(515)])),
    ]);
    let bytes = d.encode(&v).unwrap();
    assert_eq!(bytes, vec![9, 0xFE, 0xFF, 0x03, 0x02]);
    assert_eq!(d.decode(&bytes).unwrap(), v);
}

#[test]
fn build_missing_field_type() {
    let t = record(vec![("a", Some(simple("c_int"))), ("b", None)]);
    assert_eq!(build_descriptor(&t), Err(Error::MissingFieldType("b".to_string())));
}

#[test]
fn build_duplicate_field_replaces_in_place() {
    let t = record(vec![
        ("x", Some(simple("c_ubyte"))),
        ("y", Some(simple("c_ubyte"))),
        ("x", Some(simple("c_uint"))),
    ]);
    let d = build_descriptor(&t).unwrap();
    // The repeated "x" replaces the first field's layout in place, so the
    // record keeps two fields with "x" first.
    assert_eq!(d.size(), 5);
    let v = Value::Structure(vec![
        ("x".to_string(), Value::Int(0x01020304)),
        ("y".to_string(), Value::Int(7)),
    ]);
    assert_eq!(d.encode(&v).unwrap(), vec![0x04, 0x03, 0x02, 0x01, 7]);
}

#[test]
fn build_nested_structure_fails_fast() {
    let inner = record(vec![("bad", Some(simple("no_such")))]);
    let t = record(vec![("first", Some(simple("c_int"))), ("second", Some(inner))]);
    assert_eq!(
        build_descriptor(&t),
        Err(Error::UnknownScalarName("no_such".to_string()))
    );
}
