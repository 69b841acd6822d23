//! Tests of the library's own helpers, error cases and the `plutil`
//! logic, on concrete values.

use plutil_rs::bplist::parser::{read_be_uint, read_byte, read_count, read_refs};
use plutil_rs::bplist::writer::{append_be_uint, encode_count, int_width_exp_u64, min_bytes_pow2};
use plutil_rs::float_bits::{f32_to_f64, f64_bits_to_i64, i64_to_f64};
use plutil_rs::plutil::{
    destination, get_at_keypath, is_standard_stream, plan, pp_string, pretty_print, run_convert, run_extract,
    run_lint, run_print, run_type, shares_output, value_type_name, Destination, Operation, Options,
    PlistFormat, PlutilError,
};
use plutil_rs::text::{parse_integer, parse_usize, trim_bounds};
use plutil_rs::unicode::{decode_utf16, encode_utf16};
use plutil_rs::xplist::date::{
    apple_epoch_to_iso8601, calendar_to_unix, days_in_month, is_leap, iso8601_to_apple_epoch, unix_to_calendar,
};
use plutil_rs::xplist::parser::ParseError as XmlParseError;
use plutil_rs::xplist::writer::{write_escaped, WriteError as XmlWriteError};
use plutil_rs::{parse, ParseError, Value};

fn real_text(bits: u64) -> String {
    f64::from_bits(bits).to_string()
}

fn real_value(text: &str) -> Option<u64> {
    text.parse::<f64>().ok().map(f64::to_bits)
}

fn bplist_bytes(v: &Value) -> Vec<u8> {
    let mut buf = Vec::new();
    plutil_rs::bplist::writer::write(v, &mut buf).unwrap();
    buf
}

fn xml_bytes(v: &Value) -> Vec<u8> {
    let mut buf = Vec::new();
    plutil_rs::xplist::writer::write(v, &mut buf, &real_text).unwrap();
    buf
}

fn xml_parse(text: &str) -> Result<Value, XmlParseError> {
    plutil_rs::xplist::parser::parse(text.as_bytes(), &real_value)
}

fn sample() -> Value {
    Value::Dictionary(vec![
        (Value::String("name".into()), Value::String("plutil".into())),
        (Value::String("count".into()), Value::Integer(-7)),
        (Value::String("ratio".into()), Value::Real(0.25f64.to_bits())),
        (Value::String("on".into()), Value::Bool(true)),
        (Value::String("blob".into()), Value::Data(vec![1, 2, 0xff])),
        (
            Value::String("list".into()),
            Value::Array(vec![Value::Integer(10), Value::Dictionary(vec![(Value::String("deep".into()), Value::Bool(false))])]),
        ),
        (Value::String("when".into()), Value::Date(0.0f64.to_bits())),
    ])
}

// ── Binary format helpers ───────────────────────────────────────────────────

#[test]
fn be_uint_reads_big_endian() {
    let data = [0x01u8, 0x02, 0x03, 0x04, 0x05];
    assert_eq!(read_be_uint(&data, 1, 2), 0x0203);
    assert_eq!(read_be_uint(&data, 0, 5), 0x0102030405);
    assert_eq!(read_be_uint(&data, 2, 0), 0);
}

#[test]
fn byte_reads_past_end_fail() {
    let data = [7u8];
    assert_eq!(read_byte(&data, 0).unwrap(), 7);
    assert!(matches!(read_byte(&data, 1), Err(ParseError::Io(_))));
}

#[test]
fn counts_inline_and_extended() {
    // Inline count.
    assert_eq!(read_count(&[0u8], 0, 5).unwrap(), (5, 0));
    // Extended count: an integer marker with one byte, 200.
    assert_eq!(read_count(&[0x10u8, 200], 0, 15).unwrap(), (200, 2));
    // Extended count without its integer marker.
    assert!(matches!(read_count(&[0x20u8, 1], 0, 15), Err(ParseError::NomError(_))));
}

#[test]
fn refs_read_in_order() {
    let data = [0x00u8, 0x01, 0x00, 0x02];
    assert_eq!(read_refs(&data, 0, 2, 2).unwrap(), vec![1, 2]);
    assert!(read_refs(&data, 2, 2, 2).is_err());
}

#[test]
fn width_helpers() {
    assert_eq!(int_width_exp_u64(0xFFFF_FFFF), 2);
    assert_eq!(int_width_exp_u64(0x1_0000_0000), 3);
    assert_eq!(min_bytes_pow2(0), 1);
    assert_eq!(min_bytes_pow2(0x100), 2);
    assert_eq!(min_bytes_pow2(0x1_0000), 4);
    assert_eq!(min_bytes_pow2(0x1_0000_0000), 8);
    let mut buf = Vec::new();
    append_be_uint(&mut buf, 0x0102, 4);
    assert_eq!(buf, vec![0, 0, 1, 2]);
    let mut buf = Vec::new();
    encode_count(&mut buf, 0xA, 3);
    assert_eq!(buf, vec![0xA3]);
    let mut buf = Vec::new();
    encode_count(&mut buf, 0x5, 300);
    assert_eq!(buf, vec![0x5F, 0x11, 0x01, 0x2C]);
}

#[test]
fn float_bits_conversions() {
    assert_eq!(f64::from_bits(f32_to_f64(1.5f32.to_bits())), 1.5);
    assert_eq!(f64::from_bits(f32_to_f64(f32::INFINITY.to_bits())), f64::INFINITY);
    assert_eq!(f64::from_bits(f32_to_f64((-0.0f32).to_bits())).to_bits(), (-0.0f64).to_bits());
    assert_eq!(f64_bits_to_i64(700_000_000.75f64.to_bits()), 700_000_000);
    assert_eq!(f64_bits_to_i64((-2.5f64).to_bits()), -2);
    assert_eq!(f64::from_bits(i64_to_f64(-86_400)), -86_400.0);
    assert_eq!(i64_to_f64(0), 0.0f64.to_bits());
}

#[test]
fn bplist_error_variants() {
    let good = bplist_bytes(&Value::Bool(true));
    // offset_int_size of 0.
    let mut bad = good.clone();
    let n = bad.len();
    bad[n - 26] = 0;
    assert!(matches!(parse(&bad), Err(ParseError::InvalidOffsetIntSize(0))));
    // object_ref_size of 9.
    let mut bad = good.clone();
    bad[n - 25] = 9;
    assert!(matches!(parse(&bad), Err(ParseError::InvalidObjectRefSize(9))));
    // Top object outside the offset table.
    let mut bad = good.clone();
    bad[n - 9] = 5;
    assert!(matches!(parse(&bad), Err(ParseError::IndexOutOfBounds(5))));
    // An unknown marker.
    let mut bad = good.clone();
    bad[8] = 0x70;
    assert!(matches!(parse(&bad), Err(ParseError::UnknownType(0x70))));
}

#[test]
fn bplist_string_errors() {
    let mut data = bplist_bytes(&Value::String("ab".into()));
    data[9] = 0xff;
    assert!(matches!(parse(&data), Err(ParseError::InvalidUtf8)));
    let mut data = bplist_bytes(&Value::String("é".into()));
    // A lone low surrogate.
    data[9] = 0xDC;
    data[10] = 0x00;
    assert!(matches!(parse(&data), Err(ParseError::InvalidUtf16)));
}

#[test]
fn bplist_depth_limit() {
    let mut v = Value::Integer(1);
    for _ in 0..600 {
        v = Value::Array(vec![v]);
    }
    let data = bplist_bytes(&v);
    assert!(matches!(parse(&data), Err(ParseError::MaxDepthExceeded)));
}

#[test]
fn clone_keeps_the_value() {
    let v = sample();
    let c = v.clone();
    assert_eq!(c, v);
    assert_eq!(bplist_bytes(&c), bplist_bytes(&v));
}

#[test]
fn bplist_roundtrip_law_sample() {
    let v = sample();
    assert_eq!(parse(&bplist_bytes(&v)).unwrap(), v);
}

// ── UTF-16 ──────────────────────────────────────────────────────────────────

#[test]
fn utf16_roundtrip() {
    for s in ["", "plain", "café", "中文", "🦀 rust 🎉"] {
        let units = encode_utf16(s);
        assert_eq!(units, s.encode_utf16().collect::<Vec<u16>>());
        assert_eq!(decode_utf16(&units).unwrap(), s);
    }
    assert_eq!(encode_utf16("🦀"), vec![0xD83E, 0xDD80]);
    assert!(decode_utf16(&[0xD800]).is_none());
    assert!(decode_utf16(&[0xDC00, 0x0041]).is_none());
}

// ── Text helpers ────────────────────────────────────────────────────────────

#[test]
fn integer_text_parsing() {
    let b = b"x-42y";
    assert_eq!(parse_integer(b, 1, 4, true, i64::MIN, i64::MAX), Some(-42));
    assert_eq!(parse_integer(b, 1, 4, false, 0, 255), None);
    assert_eq!(parse_integer(b"300", 0, 3, false, 0, 255), None);
    assert_eq!(parse_integer(b"+7", 0, 2, true, -10, 10), Some(7));
    assert_eq!(parse_usize(b"0012", 0, 4), Some(12));
    assert_eq!(parse_usize(b"1a", 0, 2), None);
    let cs: Vec<char> = "  ab \n".chars().collect();
    assert_eq!(trim_bounds(&cs), (2, 4));
}

// ── Dates ───────────────────────────────────────────────────────────────────

#[test]
fn calendar_roundtrip_law_samples() {
    for t in [0i64, 978_307_200, 951_782_400, 4_102_444_799, 1_720_094_400] {
        let (y, mo, d, h, mi, s) = unix_to_calendar(t);
        assert_eq!(calendar_to_unix(y, mo, d, h, mi, s), t);
    }
    assert_eq!(unix_to_calendar(951_782_400), (2000, 2, 29, 0, 0, 0));
    assert_eq!(unix_to_calendar(978_307_200), (2001, 1, 1, 0, 0, 0));
}

#[test]
fn leap_years_and_month_lengths() {
    assert!(is_leap(2000));
    assert!(!is_leap(1900));
    assert!(is_leap(2024));
    assert!(!is_leap(2023));
    assert_eq!(days_in_month(2024, 2), 29);
    assert_eq!(days_in_month(2023, 2), 28);
    assert_eq!(days_in_month(2023, 4), 30);
    assert_eq!(days_in_month(2023, 12), 31);
    assert_eq!(days_in_month(2023, 13), 0);
}

#[test]
fn dates_before_unix_epoch() {
    assert_eq!(calendar_to_unix(1969, 12, 31, 23, 59, 59), -1);
    assert_eq!(unix_to_calendar(-1), (1969, 12, 31, 23, 59, 59));
    assert_eq!(unix_to_calendar(-62_135_596_800), (1, 1, 1, 0, 0, 0));
    assert_eq!(unix_to_calendar(-62_135_596_801), (0, 12, 31, 23, 59, 59));
    assert_eq!(unix_to_calendar(-951_782_400 - 86_400 * 366), (1938, 11, 3, 0, 0, 0));
    for t in [-1i64, -86_400, -62_135_596_800, -100_000_000_000] {
        let (y, mo, d, h, mi, s) = unix_to_calendar(t);
        assert_eq!(calendar_to_unix(y, mo, d, h, mi, s), t);
    }
}

#[test]
fn early_years_in_iso_text() {
    let first = -62_135_596_800i64 - 978_307_200;
    assert_eq!(apple_epoch_to_iso8601((first as f64).to_bits()), "0001-01-01T00:00:00Z");
    assert_eq!(f64::from_bits(iso8601_to_apple_epoch("0001-01-01T00:00:00Z").unwrap()), first as f64);
    assert_eq!(apple_epoch_to_iso8601(((first - 86_400 * 366) as f64).to_bits()), "0000-01-01T00:00:00Z");
    assert_eq!(apple_epoch_to_iso8601(((first - 86_400 * (366 + 365)) as f64).to_bits()), "-001-01-01T00:00:00Z");
}

#[test]
fn iso_text_reads_back_whole_seconds() {
    for secs in [86_400.7f64, -0.5, 700_000_000.5, -978_307_200.0, 250_000_000_000.0] {
        let text = apple_epoch_to_iso8601(secs.to_bits());
        let back = iso8601_to_apple_epoch(&text).unwrap();
        assert_eq!(f64::from_bits(back), secs.trunc(), "{text}");
    }
}

#[test]
fn iso_dates_with_variants() {
    let z = iso8601_to_apple_epoch("2001-01-02T00:00:00Z").unwrap();
    assert_eq!(f64::from_bits(z), 86_400.0);
    assert_eq!(iso8601_to_apple_epoch("  2001-01-02 00:00:00 ").unwrap(), z);
    assert_eq!(iso8601_to_apple_epoch("2001-01-02t00:00:00").unwrap(), z);
    assert!(iso8601_to_apple_epoch("2001-13-02T00:00:00Z").is_err());
    assert!(iso8601_to_apple_epoch("2001/01/02T00:00:00Z").is_err());
    // A fixed field range that would split a character.
    assert!(iso8601_to_apple_epoch("200é-01-01T00:00:00Z").is_err());
    assert!(iso8601_to_apple_epoch("2001-0é-01T00:00:00Z").is_err());
}

#[test]
fn iso_text_round_trip_through_seconds() {
    for text in ["2024-07-04T12:00:00Z", "1970-01-01T00:00:00Z", "9999-12-31T23:59:59Z", "0001-03-01T01:02:03Z", "2000-02-29T00:00:00Z"] {
        let secs = iso8601_to_apple_epoch(text).unwrap();
        assert_eq!(apple_epoch_to_iso8601(secs), text);
    }
}

#[test]
fn count_and_big_endian_read_back() {
    for count in [0usize, 14, 15, 255, 256, 70_000, 5_000_000_000] {
        let mut buf = Vec::new();
        encode_count(&mut buf, 0xA, count);
        assert_eq!(buf[0] >> 4, 0xA);
        assert_eq!(read_count(&buf, 1, buf[0] & 0x0F).unwrap(), (count, buf.len()));
    }
    for (val, size) in [(0u64, 1usize), (0xAB, 1), (0x1234, 2), (0xDEAD_BEEF, 4), (u64::MAX, 8)] {
        let mut buf = vec![7u8];
        append_be_uint(&mut buf, val, size);
        assert_eq!(read_be_uint(&buf, 1, size), val);
    }
}

// ── XML format ──────────────────────────────────────────────────────────────

#[test]
fn escaping_writes_entities() {
    let mut w = Vec::new();
    write_escaped(&mut w, "a<b>&\"'").unwrap();
    assert_eq!(String::from_utf8(w).unwrap(), "a&lt;b&gt;&amp;&quot;&apos;");
}

#[test]
fn xml_write_names_unsupported_type() {
    let mut buf = Vec::new();
    let r = plutil_rs::xplist::writer::write(&Value::Array(vec![Value::Uid(3)]), &mut buf, &real_text);
    assert!(matches!(r, Err(XmlWriteError::UnsupportedType("Uid"))));
}

#[test]
fn xml_document_layout() {
    let text = String::from_utf8(xml_bytes(&Value::Array(vec![Value::Integer(1), Value::Real(2.5f64.to_bits())]))).unwrap();
    assert!(text.contains("<array>\n\t<integer>1</integer>\n\t<real>2.5</real>\n</array>\n</plist>"));
}

#[test]
fn xml_sample_roundtrip() {
    let v = sample();
    assert_eq!(plutil_rs::xplist::parser::parse(&xml_bytes(&v), &real_value).unwrap(), v);
}

#[test]
fn xml_error_variants() {
    assert!(matches!(xml_parse("<dict/>"), Err(XmlParseError::MissingPlistRoot)));
    assert!(matches!(xml_parse("<plist><foo/></plist>"), Err(XmlParseError::UnexpectedTag(t)) if t == "foo"));
    assert!(matches!(xml_parse("<plist><integer>x1</integer></plist>"), Err(XmlParseError::InvalidInteger(t)) if t == "x1"));
    assert!(matches!(xml_parse("<plist><real>abc</real></plist>"), Err(XmlParseError::InvalidReal(t)) if t == "abc"));
    assert!(matches!(xml_parse("<plist><data>!!</data></plist>"), Err(XmlParseError::InvalidBase64(_))));
    assert!(matches!(xml_parse("<plist><date>soon</date></plist>"), Err(XmlParseError::InvalidDate(t)) if t == "soon"));
    assert!(matches!(xml_parse("<plist><array><integer>1</integer>"), Err(XmlParseError::UnexpectedEvent)));
    assert!(matches!(xml_parse("<plist><array></dict></plist>"), Err(XmlParseError::Xml(_))));
}

#[test]
fn xml_text_keeps_its_spaces() {
    let v = Value::Dictionary(vec![
        (Value::String(" key ".into()), Value::String("  padded\t".into())),
        (Value::String("blank".into()), Value::Array(vec![Value::String(" ".into()), Value::String(String::new())])),
    ]);
    let back = plutil_rs::xplist::parser::parse(&xml_bytes(&v), &real_value).unwrap();
    assert_eq!(back, v);
}

#[test]
fn xml_depth_limit() {
    let deep = |n: usize| {
        format!("<plist>{}<true/>{}</plist>", "<dict><key>k</key>".repeat(n), "</dict>".repeat(n))
    };
    assert!(matches!(xml_parse(&deep(300)), Err(XmlParseError::MaxDepthExceeded)));
    let mut v = Value::Bool(true);
    for _ in 0..200 {
        v = Value::Dictionary(vec![(Value::String("k".into()), v)]);
    }
    assert_eq!(xml_parse(&deep(200)).unwrap(), v);
}

#[test]
fn xml_values_read() {
    assert_eq!(xml_parse("<plist><integer> 12 </integer></plist>").unwrap(), Value::Integer(12));
    assert_eq!(xml_parse("<plist><string>a &amp; b</string></plist>").unwrap(), Value::String("a & b".into()));
    assert_eq!(xml_parse("<plist><data>AAEC\n/w==</data></plist>").unwrap(), Value::Data(vec![0, 1, 2, 0xff]));
    assert_eq!(xml_parse("<plist><true></true></plist>").unwrap(), Value::Bool(true));
    assert_eq!(
        xml_parse("<plist><dict><key>k</key><false/></dict></plist>").unwrap(),
        Value::Dictionary(vec![(Value::String("k".into()), Value::Bool(false))])
    );
}

// ── Display ─────────────────────────────────────────────────────────────────

#[test]
fn one_line_rendering() {
    let v = Value::Dictionary(vec![
        (Value::String("a\"b".into()), Value::Array(vec![Value::Integer(1), Value::Null, Value::Uid(2)])),
        (Value::Integer(3), Value::UnorderedSet(vec![Value::Bool(false), Value::Data(vec![0xab])])),
        (Value::Date(1.5f64.to_bits()), Value::Real(0.5f64.to_bits())),
    ]);
    assert_eq!(
        v.to_display_string(&real_text),
        "{\"a\\\"b\": [1, <null>, <uid: 2>], 3: {false, <ab>}, <date: 1.5>: 0.5}"
    );
}

// ── plutil ──────────────────────────────────────────────────────────────────

#[test]
fn format_detection_and_names() {
    assert_eq!(PlistFormat::detect(b"bplist00rest"), PlistFormat::Binary);
    assert_eq!(PlistFormat::detect(b"<?xml"), PlistFormat::Xml);
    assert_eq!(PlistFormat::detect(b"bplis"), PlistFormat::Xml);
    assert_eq!(PlistFormat::from_name("xml1").unwrap(), PlistFormat::Xml);
    assert_eq!(PlistFormat::from_name("binary1").unwrap(), PlistFormat::Binary);
    assert!(matches!(PlistFormat::from_name("json"), Err(PlutilError::UnknownFormat(s)) if s == "json"));
}

#[test]
fn type_names() {
    assert_eq!(value_type_name(&Value::Null), "null");
    assert_eq!(value_type_name(&Value::Real(0)), "real");
    assert_eq!(value_type_name(&Value::UnorderedSet(vec![])), "set");
    assert_eq!(value_type_name(&Value::Dictionary(vec![])), "dictionary");
}

#[test]
fn quoted_strings() {
    assert_eq!(pp_string("a\"b\\c\nd\re\tf"), "\"a\\\"b\\\\c\\nd\\re\\tf\"");
    assert_eq!(pp_string(""), "\"\"");
}

#[test]
fn keypaths() {
    let v = sample();
    assert_eq!(get_at_keypath(&v, "").unwrap(), &v);
    assert_eq!(get_at_keypath(&v, "count").unwrap(), &Value::Integer(-7));
    assert_eq!(get_at_keypath(&v, "list.1.deep").unwrap(), &Value::Bool(false));
    assert!(matches!(get_at_keypath(&v, "list.9"), Err(PlutilError::KeypathNotFound(c)) if c == "9"));
    assert!(matches!(get_at_keypath(&v, "missing"), Err(PlutilError::KeypathNotFound(c)) if c == "missing"));
    assert!(matches!(
        get_at_keypath(&v, "list.x"),
        Err(PlutilError::KeypathIndexError { component, msg }) if component == "x" && msg == "not a valid array index"
    ));
    assert!(matches!(get_at_keypath(&v, "count.a"), Err(PlutilError::KeypathNotFound(c)) if c == "a"));
}

#[test]
fn pretty_printing() {
    let v = Value::Dictionary(vec![
        (Value::String("a".into()), Value::Array(vec![Value::Bool(true), Value::Data(vec![0x0f])])),
        (Value::String("s".into()), Value::UnorderedSet(vec![Value::Null])),
        (Value::Integer(5), Value::Date(0.0f64.to_bits())),
    ]);
    let mut out = String::new();
    pretty_print(&v, &mut out, &String::new(), &real_text);
    assert_eq!(
        out,
        "{\n    \"a\" => [\n        0 => 1\n        1 => <0f>\n    ]\n    \"s\" => Set {\n        <null>\n    }\n    5 => 2001-01-01T00:00:00Z\n}"
    );
}

#[test]
fn print_operation() {
    let bytes = bplist_bytes(&Value::Array(vec![Value::Uid(4)]));
    let out = run_print(&bytes, &real_value, &real_text).unwrap();
    assert_eq!(String::from_utf8(out).unwrap(), "[\n    0 => <uid: 4>\n]\n");
}

#[test]
fn lint_operation() {
    assert!(run_lint(&bplist_bytes(&sample()), &real_value).is_ok());
    assert!(matches!(run_lint(b"bplist00", &real_value), Err(PlutilError::BplistParse(ParseError::FileTooShort))));
    assert!(matches!(run_lint(b"<nope/>", &real_value), Err(PlutilError::XplistParse(XmlParseError::MissingPlistRoot))));
}

#[test]
fn convert_operation() {
    let v = sample();
    let xml = run_convert(&bplist_bytes(&v), "xml1", &real_value, &real_text).unwrap();
    assert_eq!(xml, xml_bytes(&v));
    let bin = run_convert(&xml, "binary1", &real_value, &real_text).unwrap();
    assert_eq!(bin, bplist_bytes(&v));
    assert_eq!(parse(&bin).unwrap(), v);
    assert!(matches!(run_convert(&xml, "yaml", &real_value, &real_text), Err(PlutilError::UnknownFormat(_))));
    let null = bplist_bytes(&Value::Null);
    assert!(matches!(
        run_convert(&null, "xml1", &real_value, &real_text),
        Err(PlutilError::XplistWrite(XmlWriteError::UnsupportedType("Null")))
    ));
}

#[test]
fn extract_operation() {
    let bytes = bplist_bytes(&sample());
    let raw = |k: &str| run_extract(&bytes, k, "raw", &real_value, &real_text);
    assert_eq!(raw("name").unwrap(), b"plutil".to_vec());
    assert_eq!(raw("count").unwrap(), b"-7".to_vec());
    assert_eq!(raw("ratio").unwrap(), b"0.25".to_vec());
    assert_eq!(raw("on").unwrap(), b"true".to_vec());
    assert_eq!(raw("list.1.deep").unwrap(), b"false".to_vec());
    assert_eq!(raw("blob").unwrap(), vec![1, 2, 0xff]);
    assert!(matches!(raw("list"), Err(PlutilError::UnsupportedRaw("array"))));
    assert!(matches!(raw("when"), Err(PlutilError::UnsupportedRaw("date"))));
    let xml = run_extract(&bytes, "list.0", "xml1", &real_value, &real_text).unwrap();
    assert_eq!(xml, xml_bytes(&Value::Integer(10)));
    let bin = run_extract(&bytes, "list.1", "binary1", &real_value, &real_text).unwrap();
    assert_eq!(parse(&bin).unwrap(), Value::Dictionary(vec![(Value::String("deep".into()), Value::Bool(false))]));
    assert!(matches!(run_extract(&bytes, "nope", "raw", &real_value, &real_text), Err(PlutilError::KeypathNotFound(_))));
    assert!(matches!(run_extract(&bytes, "name", "text", &real_value, &real_text), Err(PlutilError::UnknownFormat(_))));
}

#[test]
fn type_operation() {
    let bytes = xml_bytes(&sample());
    assert_eq!(run_type(&bytes, "", &real_value).unwrap(), "dictionary");
    assert_eq!(run_type(&bytes, "ratio", &real_value).unwrap(), "real");
    assert_eq!(run_type(&bytes, "list.1", &real_value).unwrap(), "dictionary");
    assert!(matches!(run_type(&bytes, "list.2", &real_value), Err(PlutilError::KeypathNotFound(c)) if c == "2"));
}

fn options() -> Options {
    Options {
        lint: false,
        convert: None,
        print: false,
        short_print: false,
        extract: vec![],
        get_type: None,
        output: None,
        files: vec!["in.plist".to_string()],
    }
}

#[test]
fn planning() {
    assert!(matches!(plan(&options()), Err(PlutilError::NoOperation)));
    let mut o = options();
    o.lint = true;
    o.short_print = true;
    assert!(matches!(plan(&o), Err(PlutilError::MultipleOperations)));
    let mut o = options();
    o.print = true;
    o.files = vec![];
    assert!(matches!(plan(&o), Err(PlutilError::NoInputFiles)));
    let mut o = options();
    o.short_print = true;
    assert!(matches!(plan(&o), Ok(Operation::Print)));
    let mut o = options();
    o.convert = Some("xml1".to_string());
    assert!(matches!(plan(&o), Ok(Operation::Convert(f)) if f == "xml1"));
    let mut o = options();
    o.extract = vec!["a.b".to_string(), "raw".to_string()];
    let op = plan(&o).unwrap();
    assert_eq!(op.single_file_flag(), Some("--extract"));
    assert!(matches!(op, Operation::Extract { keypath, format } if keypath == "a.b" && format == "raw"));
    let mut o = options();
    o.get_type = Some("k".to_string());
    let op = plan(&o).unwrap();
    assert_eq!(op.single_file_flag(), Some("--type"));
    assert!(Operation::Lint.single_file_flag().is_none());
}

#[test]
fn destinations() {
    assert!(is_standard_stream("-"));
    assert!(!is_standard_stream("--"));
    assert!(matches!(destination(None, "-"), Destination::Stdout));
    assert!(matches!(destination(None, "a.plist"), Destination::File(p) if p == "a.plist"));
    assert!(matches!(destination(Some("-"), "a.plist"), Destination::Stdout));
    assert!(matches!(destination(Some("o.plist"), "-"), Destination::File(p) if p == "o.plist"));
    assert!(shares_output(Some("o.plist"), 2));
    assert!(!shares_output(Some("-"), 2));
    assert!(!shares_output(Some("o.plist"), 1));
    assert!(!shares_output(None, 3));
}
