//! Writer tests: the header, the smallest file, and the width helpers.

use plutil_rs::bplist::writer::{int_width_exp, uid_byte_count};
use plutil_rs::{parse, Value};

fn roundtrip(v: &Value) -> Value {
    let mut buf = Vec::new();
    plutil_rs::bplist::writer::write(v, &mut buf).expect("write failed");
    parse(&buf).expect("parse failed")
}

#[test]
fn test_header_magic() {
    let mut buf = Vec::new();
    plutil_rs::bplist::writer::write(&Value::Null, &mut buf).unwrap();
    assert_eq!(&buf[..8], b"bplist00");
}

#[test]
fn test_minimum_file_size() {
    // Smallest possible file: header(8) + object(1) + OT(1) + trailer(32) = 42
    let mut buf = Vec::new();
    plutil_rs::bplist::writer::write(&Value::Null, &mut buf).unwrap();
    assert!(buf.len() >= 42);
}

#[test]
fn test_encode_count_inline_max() {
    // count=14 is the largest inline value (14 < 15).
    let v = Value::Array((0..14).map(Value::Integer).collect());
    assert_eq!(roundtrip(&v), v);
}

#[test]
fn test_encode_count_extended_boundary() {
    // count=15 is the smallest extended value.
    let v = Value::Array((0..15).map(Value::Integer).collect());
    assert_eq!(roundtrip(&v), v);
}

#[test]
fn test_uid_byte_count_boundaries() {
    assert_eq!(uid_byte_count(0), 1);
    assert_eq!(uid_byte_count(0xFF), 1);
    assert_eq!(uid_byte_count(0x100), 2);
    assert_eq!(uid_byte_count(u64::MAX), 8);
}

#[test]
fn test_int_width_exp_boundaries() {
    assert_eq!(int_width_exp(0), 0);
    assert_eq!(int_width_exp(255), 0);
    assert_eq!(int_width_exp(256), 1);
    assert_eq!(int_width_exp(65535), 1);
    assert_eq!(int_width_exp(65536), 2);
    assert_eq!(int_width_exp(-1), 3);
}
