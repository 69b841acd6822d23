//! Parser tests on hand-built binary property lists.

use plutil_rs::{parse, ParseError, Value};

/// Builds a minimal bplist00 file from raw object payloads and the index of
/// the root object, with 1-byte offsets and 1-byte object references
/// (enough while every object starts below offset 256).
fn make_data(objects: &[&[u8]], top_object: usize) -> Vec<u8> {
    let mut data = b"bplist00".to_vec();

    let mut offsets: Vec<u8> = Vec::new();
    for &obj in objects {
        offsets.push(data.len() as u8);
        data.extend_from_slice(obj);
    }

    let ot_offset = data.len() as u64;
    data.extend_from_slice(&offsets);

    // Trailer (32 bytes).
    data.extend_from_slice(&[0u8; 5]); // 5 unused
    data.push(0); // sort_version
    data.push(1); // offset_int_size = 1
    data.push(1); // object_ref_size = 1
    data.extend_from_slice(&(objects.len() as u64).to_be_bytes()); // num_objects
    data.extend_from_slice(&(top_object as u64).to_be_bytes()); // top_object
    data.extend_from_slice(&ot_offset.to_be_bytes()); // offset_table_offset

    data
}

// ── Singleton types ───────────────────────────────────────────────────

#[test]
fn test_null() {
    assert_eq!(parse(&make_data(&[b"\x00"], 0)).unwrap(), Value::Null);
}

#[test]
fn test_bool_false() {
    assert_eq!(
        parse(&make_data(&[b"\x08"], 0)).unwrap(),
        Value::Bool(false)
    );
}

#[test]
fn test_bool_true() {
    assert_eq!(
        parse(&make_data(&[b"\x09"], 0)).unwrap(),
        Value::Bool(true)
    );
}

// ── Integers ─────────────────────────────────────────────────────────

#[test]
fn test_integer_one_byte() {
    // 0x10 0x2A  →  int(1 byte) = 42
    assert_eq!(
        parse(&make_data(&[b"\x10\x2A"], 0)).unwrap(),
        Value::Integer(42)
    );
}

#[test]
fn test_integer_two_bytes() {
    // 0x11 0x01 0x00  →  int(2 bytes) = 256
    assert_eq!(
        parse(&make_data(&[b"\x11\x01\x00"], 0)).unwrap(),
        Value::Integer(256)
    );
}

#[test]
fn test_integer_four_bytes() {
    // 0x12 + big-endian 0x0001_0000  →  65536
    assert_eq!(
        parse(&make_data(&[b"\x12\x00\x01\x00\x00"], 0)).unwrap(),
        Value::Integer(65536)
    );
}

// ── Reals ─────────────────────────────────────────────────────────────

#[test]
fn test_real_float32() {
    let mut obj = vec![0x22u8];
    obj.extend_from_slice(&1.5f32.to_be_bytes());
    match parse(&make_data(&[&obj], 0)).unwrap() {
        Value::Real(v) => assert!((f64::from_bits(v) - 1.5).abs() < 1e-6),
        other => panic!("expected Real, got {other:?}"),
    }
}

#[test]
fn test_real_float64() {
    let mut obj = vec![0x23u8];
    obj.extend_from_slice(&1.23456789f64.to_be_bytes());
    match parse(&make_data(&[&obj], 0)).unwrap() {
        Value::Real(v) => assert!((f64::from_bits(v) - 1.23456789).abs() < 1e-10),
        other => panic!("expected Real, got {other:?}"),
    }
}

// ── Date ──────────────────────────────────────────────────────────────

#[test]
fn test_date() {
    let mut obj = vec![0x33u8];
    obj.extend_from_slice(&0.0f64.to_be_bytes());
    assert_eq!(
        parse(&make_data(&[&obj], 0)).unwrap(),
        Value::Date(0.0f64.to_bits())
    );
}

// ── Binary data ───────────────────────────────────────────────────────

#[test]
fn test_data() {
    assert_eq!(
        parse(&make_data(&[b"\x43\xde\xad\xbe"], 0)).unwrap(),
        Value::Data(vec![0xde, 0xad, 0xbe])
    );
}

#[test]
fn test_data_empty() {
    assert_eq!(
        parse(&make_data(&[b"\x40"], 0)).unwrap(),
        Value::Data(vec![])
    );
}

// ── Strings ───────────────────────────────────────────────────────────

#[test]
fn test_ascii_string() {
    assert_eq!(
        parse(&make_data(&[b"\x55hello"], 0)).unwrap(),
        Value::String("hello".to_string())
    );
}

#[test]
fn test_ascii_string_empty() {
    assert_eq!(
        parse(&make_data(&[b"\x50"], 0)).unwrap(),
        Value::String(String::new())
    );
}

#[test]
fn test_unicode_string_latin() {
    // U+00E9 'é' as UTF-16 BE
    assert_eq!(
        parse(&make_data(&[b"\x61\x00\xe9"], 0)).unwrap(),
        Value::String("é".to_string())
    );
}

#[test]
fn test_unicode_string_cjk() {
    // U+4E2D '中' as UTF-16 BE
    assert_eq!(
        parse(&make_data(&[b"\x61\x4e\x2d"], 0)).unwrap(),
        Value::String("中".to_string())
    );
}

// ── UID ───────────────────────────────────────────────────────────────

#[test]
fn test_uid() {
    assert_eq!(
        parse(&make_data(&[b"\x80\x07"], 0)).unwrap(),
        Value::Uid(7)
    );
}

// ── Collections ───────────────────────────────────────────────────────

#[test]
fn test_array_empty() {
    assert_eq!(
        parse(&make_data(&[b"\xA0"], 0)).unwrap(),
        Value::Array(vec![])
    );
}

#[test]
fn test_array_of_booleans() {
    let c = make_data(&[b"\x09", b"\x08", b"\xA2\x00\x01"], 2);
    assert_eq!(
        parse(&c).unwrap(),
        Value::Array(vec![Value::Bool(true), Value::Bool(false)])
    );
}

#[test]
fn test_array_of_integers() {
    let c = make_data(
        &[b"\x10\x01", b"\x10\x02", b"\x10\x03", b"\xA3\x00\x01\x02"],
        3,
    );
    assert_eq!(
        parse(&c).unwrap(),
        Value::Array(vec![
            Value::Integer(1),
            Value::Integer(2),
            Value::Integer(3)
        ])
    );
}

#[test]
fn test_dict_single_pair() {
    let c = make_data(&[b"\x51\x61", b"\x09", b"\xD1\x00\x01"], 2);
    assert_eq!(
        parse(&c).unwrap(),
        Value::Dictionary(vec![(Value::String("a".to_string()), Value::Bool(true))])
    );
}

#[test]
fn test_dict_two_pairs() {
    let c = make_data(
        &[
            b"\x51\x78",             // "x"
            b"\x51\x79",             // "y"
            b"\x10\x2a",             // 42
            b"\x10\x63",             // 99
            b"\xD2\x00\x01\x02\x03", // dict{x→42, y→99}
        ],
        4,
    );
    assert_eq!(
        parse(&c).unwrap(),
        Value::Dictionary(vec![
            (Value::String("x".to_string()), Value::Integer(42)),
            (Value::String("y".to_string()), Value::Integer(99)),
        ])
    );
}

#[test]
fn test_nested_array_in_dict() {
    let c = make_data(
        &[
            b"\x55items",    // "items" (5 chars)
            b"\x10\x01",     // 1
            b"\x10\x02",     // 2
            b"\xA2\x01\x02", // array[obj1, obj2]
            b"\xD1\x00\x03", // dict{obj0 → obj3}
        ],
        4,
    );
    assert_eq!(
        parse(&c).unwrap(),
        Value::Dictionary(vec![(
            Value::String("items".to_string()),
            Value::Array(vec![Value::Integer(1), Value::Integer(2)])
        )])
    );
}

// ── Error cases ───────────────────────────────────────────────────────

#[test]
fn test_error_too_short() {
    let c = b"bplist0".to_vec();
    assert!(matches!(parse(&c), Err(ParseError::FileTooShort)));
}

#[test]
fn test_error_invalid_magic() {
    let mut data = vec![0u8; 64];
    data[..8].copy_from_slice(b"NOTPLIST");
    assert!(matches!(
        parse(&data),
        Err(ParseError::InvalidMagic)
    ));
}

#[test]
fn test_error_unsupported_version() {
    let mut data = vec![0u8; 64];
    data[..8].copy_from_slice(b"bplist01");
    assert!(matches!(
        parse(&data),
        Err(ParseError::UnsupportedVersion)
    ));
}
