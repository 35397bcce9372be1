use ctypes_codec::descriptor::{Descriptor, ScalarKind};
use ctypes_codec::error::Error;
use ctypes_codec::value::Value;

fn scalar(k: ScalarKind) -> Descriptor {
    Descriptor::Scalar(k)
}

fn structure(fields: Vec<(&str, Descriptor)>) -> Descriptor {
    Descriptor::Structure(fields.into_iter().map(|(n, d)| (n.to_string(), d)).collect())
}

fn struct_value(fields: Vec<(&str, Value)>) -> Value {
    Value::Structure(fields.into_iter().map(|(n, v)| (n.to_string(), v)).collect())
}

#[test]
fn i32_minus_one_bytes() {
    let d = scalar(ScalarKind::I32);
    let bytes = d.encode(&Value::Int(-1)).unwrap();
    assert_eq!(bytes, vec![0xFF, 0xFF, 0xFF, 0xFF]);
    let back = d.decode(&bytes).unwrap();
    assert_eq!(back, Value::Int(-1));
}

#[test]
fn struct_u8_u32_layout() {
    let d = structure(vec![("a", scalar(ScalarKind::U8)), ("b", scalar(ScalarKind::U32))]);
    assert_eq!(d.size(), 5);
    let v = struct_value(vec![("a", Value::Int(1)), ("b", Value::Int(2))]);
    let bytes = d.encode(&v).unwrap();
    assert_eq!(bytes, vec![0x01, 0x02, 0x00, 0x00, 0x00]);
}

#[test]
fn array_u16_layout() {
    let d = Descriptor::Array(Box::new(scalar(ScalarKind::U16)), 3);
    assert_eq!(d.size(), 6);
    let v = Value::Array(vec![Value::Int(1), Value::Int(2), Value::Int(3)]);
    let bytes = d.encode(&v).unwrap();
    assert_eq!(bytes, vec![0x01, 0x00, 0x02, 0x00, 0x03, 0x00]);
}

#[test]
fn pointer64_decode_address() {
    let d = Descriptor::Pointer64;
    let bytes = [0x10, 0, 0, 0, 0, 0, 0, 0];
    assert_eq!(d.decode(&bytes).unwrap(), Value::Pointer(16));
}

#[test]
fn pointer32_round_trip() {
    let d = Descriptor::Pointer32;
    let bytes = d.encode(&Value::Pointer(0xDEAD)).unwrap();
    assert_eq!(bytes, vec![0xAD, 0xDE, 0x00, 0x00]);
    assert_eq!(d.decode(&bytes).unwrap(), Value::Pointer(0xDEAD));
}

#[test]
fn pointer32_truncates_wide_address() {
    let d = Descriptor::Pointer32;
    let bytes = d.encode(&Value::Pointer(0x1_0000_0010)).unwrap();
    assert_eq!(bytes, vec![0x10, 0x00, 0x00, 0x00]);
}

#[test]
fn short_buffer_byte_cast() {
    let d = scalar(ScalarKind::U32);
    assert_eq!(d.decode(&[1, 2, 3]), Err(Error::ByteCast));
}

#[test]
fn long_buffer_byte_cast() {
    let d = scalar(ScalarKind::U32);
    assert_eq!(d.decode(&[1, 2, 3, 4, 5]), Err(Error::ByteCast));
}

#[test]
fn missing_attribute_no_partial() {
    let d = structure(vec![("a", scalar(ScalarKind::U8)), ("b", scalar(ScalarKind::U32))]);
    let v = struct_value(vec![("a", Value::Int(1))]);
    assert_eq!(d.encode(&v), Err(Error::MissingAttribute("b".to_string())));
}

#[test]
fn earlier_error_wins_over_later_field() {
    let d = structure(vec![("a", scalar(ScalarKind::U8)), ("b", scalar(ScalarKind::U32))]);
    let v = struct_value(vec![("b", Value::Int(2))]);
    assert_eq!(d.encode(&v), Err(Error::MissingAttribute("a".to_string())));
}

#[test]
fn round_trip_signed_scalars() {
    let cases = vec![
        (ScalarKind::I8, -5i128),
        (ScalarKind::I8, -128),
        (ScalarKind::I16, -300),
        (ScalarKind::I32, -2147483648),
        (ScalarKind::I64, -9223372036854775808),
        (ScalarKind::I64, 9223372036854775807),
    ];
    for (k, n) in cases {
        let d = scalar(k);
        let bytes = d.encode(&Value::Int(n)).unwrap();
        assert_eq!(bytes.len(), d.size());
        assert_eq!(d.decode(&bytes).unwrap(), Value::Int(n));
    }
}

#[test]
fn round_trip_unsigned_scalars() {
    let cases = vec![
        (ScalarKind::U8, 200u128),
        (ScalarKind::U16, 60000),
        (ScalarKind::U32, 4294967295),
        (ScalarKind::U64, 18446744073709551615),
    ];
    for (k, n) in cases {
        let d = scalar(k);
        let bytes = d.encode(&Value::Int(n as i128)).unwrap();
        assert_eq!(bytes.len(), d.size());
        assert_eq!(d.decode(&bytes).unwrap(), Value::Int(n as i128));
    }
}

#[test]
fn round_trip_float_bits() {
    let d32 = scalar(ScalarKind::F32);
    let bits32 = (1.5f32).to_bits();
    let bytes = d32.encode(&Value::F32Bits(bits32)).unwrap();
    assert_eq!(bytes, (1.5f32).to_le_bytes().to_vec());
    assert_eq!(d32.decode(&bytes).unwrap(), Value::F32Bits(bits32));

    let d64 = scalar(ScalarKind::F64);
    let bits64 = (-2.25f64).to_bits();
    let bytes = d64.encode(&Value::F64Bits(bits64)).unwrap();
    assert_eq!(bytes, (-2.25f64).to_le_bytes().to_vec());
    assert_eq!(d64.decode(&bytes).unwrap(), Value::F64Bits(bits64));
}

#[test]
fn round_trip_char() {
    let d = scalar(ScalarKind::Char);
    let bytes = d.encode(&Value::Bytes(vec![0x41])).unwrap();
    assert_eq!(bytes, vec![0x41]);
    assert_eq!(d.decode(&bytes).unwrap(), Value::Bytes(vec![0x41]));
}

#[test]
fn round_trip_nested_structure() {
    let d = structure(vec![
        ("arr", Descriptor::Array(Box::new(scalar(ScalarKind::I16)), 2)),
        ("p", Descriptor::Pointer32),
        ("c", scalar(ScalarKind::Char)),
    ]);
    assert_eq!(d.size(), 9);
    let v = struct_value(vec![
        ("arr", Value::Array(vec![Value::Int(-1), Value::Int(2)])),
        ("p", Value::Pointer(0x1000)),
        ("c", Value::Bytes(vec![0x7F])),
    ]);
    let bytes = d.encode(&v).unwrap();
    assert_eq!(bytes.len(), 9);
    assert_eq!(d.decode(&bytes).unwrap(), v);
}

#[test]
fn widechar_not_implemented() {
    let d = Descriptor::WideChar;
    assert_eq!(d.size(), 2);
    assert_eq!(d.encode(&Value::Int(65)), Err(Error::NotImplemented));
    assert_eq!(d.decode(&[0x41, 0x00]), Err(Error::NotImplemented));
}

#[test]
fn native_pointer_not_implemented() {
    let d = Descriptor::Pointer;
    assert_eq!(d.size(), 8);
    assert_eq!(d.encode(&Value::Pointer(16)), Err(Error::NotImplemented));
    assert_eq!(d.decode(&[0; 8]), Err(Error::NotImplemented));
}

#[test]
fn int_out_of_range_host_interop() {
    assert_eq!(scalar(ScalarKind::U8).encode(&Value::Int(256)), Err(Error::HostInterop));
    assert_eq!(scalar(ScalarKind::U8).encode(&Value::Int(-1)), Err(Error::HostInterop));
    assert_eq!(scalar(ScalarKind::I16).encode(&Value::Int(40000)), Err(Error::HostInterop));
}

#[test]
fn wrong_shape_host_interop() {
    assert_eq!(
        scalar(ScalarKind::I32).encode(&Value::Bytes(vec![1, 2, 3, 4])),
        Err(Error::HostInterop)
    );
    assert_eq!(
        Descriptor::Pointer64.encode(&Value::Int(16)),
        Err(Error::HostInterop)
    );
}

#[test]
fn char_wrong_length_host_interop() {
    let d = scalar(ScalarKind::Char);
    assert_eq!(d.encode(&Value::Bytes(vec![])), Err(Error::HostInterop));
    assert_eq!(d.encode(&Value::Bytes(vec![1, 2])), Err(Error::HostInterop));
}

#[test]
fn array_under_length_host_interop() {
    let d = Descriptor::Array(Box::new(scalar(ScalarKind::U8)), 3);
    let v = Value::Array(vec![Value::Int(1), Value::Int(2)]);
    assert_eq!(d.encode(&v), Err(Error::HostInterop));
}

#[test]
fn array_over_length_ignores_extra() {
    let d = Descriptor::Array(Box::new(scalar(ScalarKind::U8)), 2);
    let v = Value::Array(vec![Value::Int(1), Value::Int(2), Value::Int(3)]);
    assert_eq!(d.encode(&v).unwrap(), vec![1, 2]);
}

#[test]
fn empty_structure_degenerate() {
    let d = structure(vec![]);
    assert_eq!(d.size(), 0);
    let v = struct_value(vec![]);
    assert_eq!(d.encode(&v).unwrap(), Vec::<u8>::new());
    assert_eq!(d.decode(&[]).unwrap(), v);
}

#[test]
fn size_deterministic() {
    let d = structure(vec![
        ("a", Descriptor::Array(Box::new(scalar(ScalarKind::U64)), 4)),
        ("b", scalar(ScalarKind::I8)),
    ]);
    let first = d.size();
    let second = d.size();
    assert_eq!(first, 33);
    assert_eq!(first, second);
}

#[test]
fn checked_size_matches_size() {
    let d = Descriptor::Array(Box::new(scalar(ScalarKind::U16)), 10);
    assert_eq!(d.checked_size(), Some(20));
}

#[test]
fn field_order_defines_offsets() {
    let d = structure(vec![("b", scalar(ScalarKind::U16)), ("a", scalar(ScalarKind::U8))]);
    let v = struct_value(vec![("a", Value::Int(0xAA)), ("b", Value::Int(0x0102))]);
    // Declared order rules the layout: "b" is first even though the value
    // lists "a" first.
    assert_eq!(d.encode(&v).unwrap(), vec![0x02, 0x01, 0xAA]);
}

#[test]
fn decode_then_encode_reproduces_buffer() {
    let d = structure(vec![
        ("head", scalar(ScalarKind::U8)),
        ("body", Descriptor::Array(Box::new(scalar(ScalarKind::I16)), 2)),
        ("tail", Descriptor::Pointer32),
    ]);
    let bytes: Vec<u8> = vec![0x7B, 0xFE, 0xFF, 0x2A, 0x00, 0x10, 0x20, 0x30, 0x40];
    assert_eq!(bytes.len(), d.size());
    let v = d.decode(&bytes).unwrap();
    assert_eq!(d.encode(&v).unwrap(), bytes);
}

#[test]
fn array_of_empty_structures() {
    let d = Descriptor::Array(Box::new(structure(vec![])), 5);
    assert_eq!(d.size(), 0);
    let decoded = d.decode(&[]).unwrap();
    let expected = Value::Array(vec![
        struct_value(vec![]),
        struct_value(vec![]),
        struct_value(vec![]),
        struct_value(vec![]),
        struct_value(vec![]),
    ]);
    assert_eq!(decoded, expected);
    assert_eq!(d.encode(&expected).unwrap(), Vec::<u8>::new());
}

#[test]
fn structure_extra_value_fields_ignored() {
    let d = structure(vec![("a", scalar(ScalarKind::U8))]);
    let v = struct_value(vec![("z", Value::Int(9)), ("a", Value::Int(7))]);
    assert_eq!(d.encode(&v).unwrap(), vec![7]);
}
