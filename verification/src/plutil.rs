//! The logic of the `plutil` tool: format detection, key paths, type
//! names, the `-p` pretty-printer, and the computing part of each
//! operation (the tool's file and console I/O stands outside).
use vstd::prelude::*;
use vstd::string::*;
use vstd::utf8::encode_utf8;

use crate::display::{display_text, hex_bytes, int_text, push_hex, push_int};
use crate::bplist::layout::height;
use crate::bplist::parser::spec_parse;
use crate::bplist::roundtrip::lemma_parse_write;
use crate::bplist::writer::spec_write;
use crate::reals::{deterministic_parse, deterministic_text, real_text, text_of};
use crate::xplist::parser::spec_parse_xml;
use crate::xplist::writer::{tabs, xml_document, xml_value};
use crate::text::{chars_of, decimal, parse_int, parse_usize, push_decimal, string_of};
use crate::xplist::date::{apple_epoch_to_iso8601, apple_to_unix, calendar_of, iso_text};
use crate::unicode::push_char;
use crate::value::{pair_views, views, SpecValue, Value};

verus! {

// ── Errors ──────────────────────────────────────────────────────────────────

/// Why a `plutil` operation failed.
#[derive(Debug)]
pub enum PlutilError {
    /// The binary property list could not be parsed.
    BplistParse(crate::bplist::parser::ParseError),
    /// The binary property list could not be written.
    BplistWrite(crate::bplist::writer::WriteError),
    /// The XML property list could not be parsed.
    XplistParse(crate::xplist::parser::ParseError),
    /// The XML property list could not be written.
    XplistWrite(crate::xplist::writer::WriteError),
    /// A format name other than `xml1` and `binary1`.
    UnknownFormat(String),
    /// A key path component that names nothing.
    KeypathNotFound(String),
    /// A key path component that is not an array index.
    KeypathIndexError { component: String, msg: String },
    /// A value that `raw` output cannot hold, by type name.
    UnsupportedRaw(&'static str),
    /// No operation was given.
    NoOperation,
    /// More than one operation was given.
    MultipleOperations,
    /// No input file was given.
    NoInputFiles,
}

// ── Formats ─────────────────────────────────────────────────────────────────

/// A property list format.
#[derive(Debug, Clone, Copy, PartialEq, Eq, Structural)]
pub enum PlistFormat {
    Xml,
    Binary,
}

/// Whether `bytes` starts with `bplist`.
pub open spec fn starts_with_bplist(bytes: Seq<u8>) -> bool {
    bytes.len() >= 6 && bytes[0] == 0x62 && bytes[1] == 0x70 && bytes[2] == 0x6C && bytes[3] == 0x69 && bytes[4]
        == 0x73 && bytes[5] == 0x74
}

impl PlistFormat {
    /// Binary when the bytes start with `bplist`, else XML.
    pub fn detect(bytes: &[u8]) -> (f: Self)
        ensures
            f == (if starts_with_bplist(bytes@) { PlistFormat::Binary } else { PlistFormat::Xml }),
    {
        if bytes.len() >= 6 && bytes[0] == 0x62 && bytes[1] == 0x70 && bytes[2] == 0x6C && bytes[3] == 0x69
            && bytes[4] == 0x73 && bytes[5] == 0x74 {
            PlistFormat::Binary
        } else {
            PlistFormat::Xml
        }
    }

    /// The format named `xml1` or `binary1`.
    pub fn from_name(s: &str) -> (r: Result<Self, PlutilError>)
        ensures
            s@ == "xml1"@ ==> r matches Ok(PlistFormat::Xml),
            s@ == "binary1"@ ==> r matches Ok(PlistFormat::Binary),
            s@ != "xml1"@ && s@ != "binary1"@ ==> (r matches Err(PlutilError::UnknownFormat(n)) && n@ == s@),
    {
        proof {
            reveal_strlit("xml1");
            reveal_strlit("binary1");
            assert("xml1"@.len() == 4);
            assert("binary1"@.len() == 7);
        }
        if str_eq(s, "xml1") {
            Ok(PlistFormat::Xml)
        } else if str_eq(s, "binary1") {
            Ok(PlistFormat::Binary)
        } else {
            Err(PlutilError::UnknownFormat(s.to_owned()))
        }
    }
}

/// Whether two strings hold the same characters.
pub fn str_eq(a: &str, b: &str) -> (r: bool)
    ensures
        r == (a@ == b@),
{
    let ac = chars_of(a);
    let bc = chars_of(b);
    if ac.len() != bc.len() {
        return false;
    }
    let mut k: usize = 0;
    while k < ac.len()
        invariant
            k <= ac@.len(),
            ac@.len() == bc@.len(),
            ac@ == a@,
            bc@ == b@,
            forall|j: int| 0 <= j < k ==> ac@[j] == bc@[j],
        decreases ac@.len() - k,
    {
        if ac[k] != bc[k] {
            return false;
        }
        k = k + 1;
    }
    assert(ac@ =~= bc@);
    true
}

// ── Type names ──────────────────────────────────────────────────────────────

/// The type name of a value.
pub open spec fn type_name_of(v: SpecValue) -> Seq<char> {
    match v {
        SpecValue::Null => "null"@,
        SpecValue::Bool(_) => "bool"@,
        SpecValue::Integer(_) => "integer"@,
        SpecValue::Real(_) => "real"@,
        SpecValue::Date(_) => "date"@,
        SpecValue::Data(_) => "data"@,
        SpecValue::String(_) => "string"@,
        SpecValue::Uid(_) => "uid"@,
        SpecValue::Array(_) => "array"@,
        SpecValue::UnorderedSet(_) => "set"@,
        SpecValue::Dictionary(_) => "dictionary"@,
    }
}

/// The type name of a value (`null`, `bool`, `integer`, `real`, `date`,
/// `data`, `string`, `uid`, `array`, `set`, `dictionary`).
pub fn value_type_name(value: &Value) -> (r: &'static str)
    ensures
        r@ == type_name_of(value@),
{
    match value {
        Value::Null => "null",
        Value::Bool(_) => "bool",
        Value::Integer(_) => "integer",
        Value::Real(_) => "real",
        Value::Date(_) => "date",
        Value::Data(_) => "data",
        Value::String(_) => "string",
        Value::Uid(_) => "uid",
        Value::Array(_) => "array",
        Value::UnorderedSet(_) => "set",
        Value::Dictionary(_) => "dictionary",
    }
}

/// Whether `v` and `w` are values of the same kind (the same variant).
pub open spec fn same_kind(v: SpecValue, w: SpecValue) -> bool {
    ||| v is Null && w is Null
    ||| v is Bool && w is Bool
    ||| v is Integer && w is Integer
    ||| v is Real && w is Real
    ||| v is Date && w is Date
    ||| v is Data && w is Data
    ||| v is String && w is String
    ||| v is Uid && w is Uid
    ||| v is Array && w is Array
    ||| v is UnorderedSet && w is UnorderedSet
    ||| v is Dictionary && w is Dictionary
}

/// The literal type names, character by character as far as they differ.
proof fn lemma_name_literals()
    ensures
        "null"@.len() == 4 && "null"@[0] == 'n',
        "bool"@.len() == 4 && "bool"@[0] == 'b',
        "integer"@.len() == 7,
        "real"@.len() == 4 && "real"@[0] == 'r',
        "date"@.len() == 4 && "date"@[0] == 'd' && "date"@[3] == 'e',
        "data"@.len() == 4 && "data"@[0] == 'd' && "data"@[3] == 'a',
        "string"@.len() == 6,
        "uid"@.len() == 3 && "uid"@[0] == 'u',
        "array"@.len() == 5,
        "set"@.len() == 3 && "set"@[0] == 's',
        "dictionary"@.len() == 10,
{
    reveal_strlit("null");
    reveal_strlit("bool");
    reveal_strlit("integer");
    reveal_strlit("real");
    reveal_strlit("date");
    reveal_strlit("data");
    reveal_strlit("string");
    reveal_strlit("uid");
    reveal_strlit("array");
    reveal_strlit("set");
    reveal_strlit("dictionary");
}

/// Type names tell the kinds of values apart: two values have the same
/// type name exactly when they are of the same kind.
pub proof fn lemma_type_names_distinct(v: SpecValue, w: SpecValue)
    ensures
        (type_name_of(v) == type_name_of(w)) == same_kind(v, w),
{
    lemma_name_literals();
    let a = type_name_of(v);
    let b = type_name_of(w);
    if a == b {
        assert(a.len() == b.len());
        if a.len() == 4 || a.len() == 3 {
            assert(a[0] == b[0]);
        }
        if a.len() == 4 {
            assert(a[3] == b[3]);
        }
    }
}

/// The type name of a string, integer, real, date, data or array value is
/// the name of the element that the XML writer writes for it.
pub proof fn lemma_type_name_is_tag<F: Fn(u64) -> String>(v: SpecValue, indent: nat, f: F)
    requires
        v is String || v is Integer || v is Real || v is Date || v is Data || v is Array,
    ensures
        (tabs(indent) + "<"@ + type_name_of(v) + ">"@).is_prefix_of(xml_value(v, indent, f).0),
{
    reveal_strlit("<");
    reveal_strlit(">");
    reveal_strlit("string");
    reveal_strlit("<string>");
    reveal_strlit("integer");
    reveal_strlit("<integer>");
    reveal_strlit("real");
    reveal_strlit("<real>");
    reveal_strlit("date");
    reveal_strlit("<date>");
    reveal_strlit("data");
    reveal_strlit("<data>");
    reveal_strlit("array");
    reveal_strlit("<array>");
    let pre = tabs(indent) + "<"@ + type_name_of(v) + ">"@;
    let tag = "<"@ + type_name_of(v) + ">"@;
    let t = xml_value(v, indent, f).0;
    let rest = t.subrange((tabs(indent).len() + tag.len()) as int, t.len() as int);
    let start_tag: Seq<char> = match v {
        SpecValue::String(_) => "<string>"@,
        SpecValue::Integer(_) => "<integer>"@,
        SpecValue::Real(_) => "<real>"@,
        SpecValue::Date(_) => "<date>"@,
        SpecValue::Data(_) => "<data>"@,
        _ => "<array>"@,
    };
    assert(tag =~= start_tag);
    assert(t =~= tabs(indent) + start_tag + rest);
    assert(pre =~= t.subrange(0, pre.len() as int));
}

// ── Quoted strings ──────────────────────────────────────────────────────────

/// A character as the pretty-printer quotes it.
pub open spec fn pp_char(c: char) -> Seq<char> {
    if c == '"' {
        seq!['\\', '"']
    } else if c == '\\' {
        seq!['\\', '\\']
    } else if c == '\n' {
        seq!['\\', 'n']
    } else if c == '\r' {
        seq!['\\', 'r']
    } else if c == '\t' {
        seq!['\\', 't']
    } else {
        seq![c]
    }
}

/// The characters of `s` as the pretty-printer quotes them.
pub open spec fn pp_chars(s: Seq<char>) -> Seq<char>
    decreases s.len(),
{
    if s.len() == 0 {
        Seq::empty()
    } else {
        pp_chars(s.drop_last()) + pp_char(s.last())
    }
}

/// `s` in double quotes, with `"`, `\\`, line feed, carriage return and tab
/// escaped by a backslash.
pub fn pp_string(s: &str) -> (r: String)
    ensures
        r@ == seq!['"'] + pp_chars(s@) + seq!['"'],
{
    let cs = chars_of(s);
    let mut out = String::new();
    push_char(&mut out, '"');
    let mut k: usize = 0;
    while k < cs.len()
        invariant
            k <= cs@.len(),
            cs@ == s@,
            out@ == seq!['"'] + pp_chars(cs@.take(k as int)),
        decreases cs@.len() - k,
    {
        assert(cs@.take(k + 1).drop_last() =~= cs@.take(k as int));
        let c = cs[k];
        if c == '"' {
            push_char(&mut out, '\\');
            push_char(&mut out, '"');
        } else if c == '\\' {
            push_char(&mut out, '\\');
            push_char(&mut out, '\\');
        } else if c == '\n' {
            push_char(&mut out, '\\');
            push_char(&mut out, 'n');
        } else if c == '\r' {
            push_char(&mut out, '\\');
            push_char(&mut out, 'r');
        } else if c == '\t' {
            push_char(&mut out, '\\');
            push_char(&mut out, 't');
        } else {
            push_char(&mut out, c);
        }
        assert(out@ =~= seq!['"'] + pp_chars(cs@.take(k + 1)));
        k = k + 1;
    }
    assert(cs@.take(k as int) =~= s@);
    push_char(&mut out, '"');
    out
}

// ── Key paths ───────────────────────────────────────────────────────────────

/// The components of a key path: the texts between its dots.
pub open spec fn split_dots(s: Seq<char>) -> Seq<Seq<char>>
    decreases s.len(),
{
    if s.len() == 0 {
        seq![Seq::empty()]
    } else {
        let r = split_dots(s.drop_last());
        if s.last() == '.' {
            r.push(Seq::empty())
        } else {
            r.update(r.len() - 1, r[r.len() - 1].push(s.last()))
        }
    }
}

/// Why a key path names nothing.
pub enum SpecKeypathError {
    /// A component that names no key or index.
    NotFound(Seq<char>),
    /// A component of an array path that is not an index.
    BadIndex(Seq<char>),
}

/// Whether the pair's key is the string `c`.
pub open spec fn key_is(p: (SpecValue, SpecValue), c: Seq<char>) -> bool {
    p.0 == SpecValue::String(c)
}

/// The index of the first pair whose key is the string `c`.
pub open spec fn first_key(ps: Seq<(SpecValue, SpecValue)>, c: Seq<char>) -> int {
    choose|i: int| 0 <= i < ps.len() && key_is(#[trigger] ps[i], c) && forall|j: int| 0 <= j < i ==> !key_is(#[trigger] ps[j], c)
}

/// The value that component `c` names inside `v`: the value of the first
/// pair whose key is the string `c`, or the item at index `c`.
pub open spec fn step_into(v: SpecValue, c: Seq<char>) -> Result<SpecValue, SpecKeypathError> {
    match v {
        SpecValue::Dictionary(ps) => if 0 <= first_key(ps, c) < ps.len() && key_is(ps[first_key(ps, c)], c) {
            Ok(ps[first_key(ps, c)].1)
        } else {
            Err(SpecKeypathError::NotFound(c))
        },
        SpecValue::Array(items) => match parse_int(encode_utf8(c), false, 0, usize::MAX as int) {
            None => Err(SpecKeypathError::BadIndex(c)),
            Some(idx) => if idx < items.len() {
                Ok(items[idx])
            } else {
                Err(SpecKeypathError::NotFound(c))
            },
        },
        _ => Err(SpecKeypathError::NotFound(c)),
    }
}

/// Following the components `comps` from `v`.
pub open spec fn walk(v: SpecValue, comps: Seq<Seq<char>>) -> Result<SpecValue, SpecKeypathError>
    decreases comps.len(),
{
    if comps.len() == 0 {
        Ok(v)
    } else {
        match step_into(v, comps[0]) {
            Ok(w) => walk(w, comps.skip(1)),
            Err(e) => Err(e),
        }
    }
}

/// The value at the dot-separated key path `k` inside `v` (the whole value
/// for an empty path).
pub open spec fn keypath_lookup(v: SpecValue, k: Seq<char>) -> Result<SpecValue, SpecKeypathError> {
    if k.len() == 0 {
        Ok(v)
    } else {
        walk(v, split_dots(k))
    }
}

/// The error for a key path failure.
pub open spec fn keypath_error_is(e: PlutilError, se: SpecKeypathError) -> bool {
    match se {
        SpecKeypathError::NotFound(c) => e matches PlutilError::KeypathNotFound(s) && s@ == c,
        SpecKeypathError::BadIndex(c) => e matches PlutilError::KeypathIndexError { component, msg } && component@
            == c && msg@ == "not a valid array index"@,
    }
}

/// The components of a key path.
fn split_keypath(k: &str) -> (comps: Vec<Vec<char>>)
    ensures
        comps@.len() == split_dots(k@).len(),
        forall|i: int| 0 <= i < comps@.len() ==> (#[trigger] comps@[i])@ == split_dots(k@)[i],
{
    let cs = chars_of(k);
    let mut comps: Vec<Vec<char>> = Vec::new();
    comps.push(Vec::new());
    assert(cs@.take(0) =~= Seq::<char>::empty());
    let mut j: usize = 0;
    while j < cs.len()
        invariant
            j <= cs@.len(),
            cs@ == k@,
            comps@.len() == split_dots(cs@.take(j as int)).len(),
            comps@.len() >= 1,
            forall|i: int| 0 <= i < comps@.len() ==> (#[trigger] comps@[i])@ == split_dots(cs@.take(j as int))[i],
        decreases cs@.len() - j,
    {
        assert(cs@.take(j + 1).drop_last() =~= cs@.take(j as int));
        let c = cs[j];
        let ghost before = comps@;
        if c == '.' {
            comps.push(Vec::new());
        } else {
            let last = comps.len() - 1;
            let mut cur = comps.pop().unwrap();
            cur.push(c);
            comps.push(cur);
        }
        proof {
            let r = split_dots(cs@.take(j as int));
            let r2 = split_dots(cs@.take(j + 1));
            assert forall|i: int| 0 <= i < comps@.len() implies (#[trigger] comps@[i])@ == r2[i] by {
                if i < before.len() - 1 {
                    assert(comps@[i] == before[i]);
                }
            }
        }
        j = j + 1;
    }
    assert(cs@.take(j as int) =~= k@);
    comps
}

/// Whether `comps` are the spec components, from index `i` on.
pub open spec fn comps_from(comps: Seq<Vec<char>>, i: int) -> Seq<Seq<char>> {
    Seq::new((comps.len() - i) as nat, |j: int| comps[i + j]@)
}

/// The value that component `c` names inside `v`.
fn step_into_exec<'a>(v: &'a Value, c: &Vec<char>) -> (r: Result<&'a Value, PlutilError>)
    ensures
        match (r, step_into(v@, c@)) {
            (Ok(w), Ok(sw)) => w@ == sw,
            (Err(e), Err(se)) => keypath_error_is(e, se),
            _ => false,
        },
{
    let cstr = string_of(c, 0, c.len());
    assert(c@.subrange(0, c@.len() as int) =~= c@);
    match v {
        Value::Dictionary(pairs) => {
            proof {
                crate::value::lemma_pairs_views(*pairs);
            }
            let ghost ps = pair_views(pairs@);
            let mut i: usize = 0;
            while i < pairs.len()
                invariant
                    i <= pairs@.len(),
                    ps == pair_views(pairs@),
                    v@ == SpecValue::Dictionary(ps),
                    cstr@ == c@,
                    forall|j: int| 0 <= j < i ==> !key_is(#[trigger] ps[j], c@),
                decreases pairs@.len() - i,
            {
                let found = match &pairs[i].0 {
                    Value::String(s) => str_eq(s.as_str(), cstr.as_str()),
                    _ => false,
                };
                assert(found == key_is(ps[i as int], c@));
                if found {
                    proof {
                        assert(exists|k: int| 0 <= k < ps.len() && key_is(#[trigger] ps[k], c@));
                        assert(0 <= i < ps.len() && key_is(ps[i as int], c@) && forall|j: int| 0 <= j < i ==> !key_is(#[trigger] ps[j], c@));
                        let k = first_key(ps, c@);
                        assert(0 <= k < ps.len() && key_is(ps[k], c@));
                        if k < i {
                            assert(!key_is(ps[k], c@));
                        }
                        if k > i {
                            assert(!key_is(ps[i as int], c@));
                        }
                        assert(k == i);
                        assert(ps[i as int].1 == pairs@[i as int].1@);
                        assert(first_key(ps, c@) == i);
                        assert(step_into(SpecValue::Dictionary(ps), c@) == Ok::<SpecValue, SpecKeypathError>(ps[i as int].1));
                        assert(step_into(v@, c@) == Ok::<SpecValue, SpecKeypathError>(ps[i as int].1));
                    }
                    return Ok(&pairs[i].1);
                }
                i = i + 1;
            }
            Err(PlutilError::KeypathNotFound(cstr))
        },
        Value::Array(items) => {
            proof {
                crate::value::lemma_items_views(*items);
            }
            let b = cstr.as_str().as_bytes();
            assert(b@.subrange(0, b@.len() as int) =~= b@);
            match parse_usize(b, 0, b.len()) {
                None => {
                    let mut msg = String::new();
                    msg.append("not a valid array index");
                    Err(PlutilError::KeypathIndexError { component: cstr, msg })
                },
                Some(idx) => {
                    if idx < items.len() {
                        Ok(&items[idx])
                    } else {
                        Err(PlutilError::KeypathNotFound(cstr))
                    }
                },
            }
        },
        _ => Err(PlutilError::KeypathNotFound(cstr)),
    }
}

/// The value at the dot-separated key path `keypath` inside `value` (the
/// whole value for an empty path).  Each component names the value of the
/// first pair with that string key in a dictionary, or the item at that
/// index in an array.
pub fn get_at_keypath<'a>(value: &'a Value, keypath: &str) -> (r: Result<&'a Value, PlutilError>)
    ensures
        match (r, keypath_lookup(value@, keypath@)) {
            (Ok(w), Ok(sw)) => w@ == sw,
            (Err(e), Err(se)) => keypath_error_is(e, se),
            _ => false,
        },
{
    if keypath.is_empty() {
        return Ok(value);
    }
    let comps = split_keypath(keypath);
    let ghost all = split_dots(keypath@);
    assert(comps_from(comps@, 0) =~= all);
    let mut cur: &'a Value = value;
    let mut i: usize = 0;
    while i < comps.len()
        invariant
            i <= comps@.len(),
            comps@.len() == all.len(),
            forall|j: int| 0 <= j < comps@.len() ==> (#[trigger] comps@[j])@ == all[j],
            keypath_lookup(value@, keypath@) == walk(cur@, comps_from(comps@, i as int)),
            all == split_dots(keypath@),
            keypath@.len() > 0,
        decreases comps@.len() - i,
    {
        let ghost rest = comps_from(comps@, i as int);
        assert(rest[0] == comps@[i as int]@);
        assert(rest.skip(1) =~= comps_from(comps@, i + 1));
        match step_into_exec(cur, &comps[i]) {
            Ok(w) => {
                cur = w;
            },
            Err(e) => {
                return Err(e);
            },
        }
        i = i + 1;
    }
    assert(comps_from(comps@, i as int) =~= Seq::<Seq<char>>::empty());
    Ok(cur)
}

// ── Pretty-printing ─────────────────────────────────────────────────────────

/// A quoted string as the pretty-printer writes it.
pub open spec fn pp_quoted(s: Seq<char>) -> Seq<char> {
    seq!['"'] + pp_chars(s) + seq!['"']
}

/// The text of a dictionary key: a string quoted, any other value in its
/// one-line rendering.
pub open spec fn pp_key<F: Fn(u64) -> String>(k: SpecValue, f: F) -> Seq<char> {
    match k {
        SpecValue::String(s) => pp_quoted(s),
        _ => display_text(k, f),
    }
}

/// The pretty-printed text of `v` whose lines are indented by `pad`: four
/// spaces per level, `N => value` per array item, `key => value` per pair.
pub open spec fn pp_text<F: Fn(u64) -> String>(v: SpecValue, pad: Seq<char>, f: F) -> Seq<char>
    decreases v, 1nat,
{
    match v {
        SpecValue::String(s) => pp_quoted(s),
        SpecValue::Integer(i) => int_text(i),
        SpecValue::Real(r) => text_of(f, r),
        SpecValue::Bool(b) => if b { "1"@ } else { "0"@ },
        SpecValue::Data(b) => "<"@ + hex_bytes(b) + ">"@,
        SpecValue::Date(d) => iso_text(calendar_of(apple_to_unix(d) as int)),
        SpecValue::Null => "<null>"@,
        SpecValue::Uid(u) => "<uid: "@ + decimal(u as nat) + ">"@,
        SpecValue::Array(items) => "[\n"@ + pp_items(items, pad, f) + pad + "]"@,
        SpecValue::UnorderedSet(items) => "Set {\n"@ + pp_set_items(items, pad, f) + pad + "}"@,
        SpecValue::Dictionary(ps) => "{\n"@ + pp_pairs(ps, pad, f) + pad + "}"@,
    }
}

/// The lines `N => item` of an array.
pub open spec fn pp_items<F: Fn(u64) -> String>(items: Seq<SpecValue>, pad: Seq<char>, f: F) -> Seq<char>
    decreases items, 0nat,
{
    if items.len() == 0 {
        Seq::empty()
    } else {
        let n = items.len() - 1;
        pp_items(items.subrange(0, n), pad, f) + pad + "    "@ + decimal(n as nat) + " => "@ + pp_text(
            items[n],
            pad + "    "@,
            f,
        ) + "\n"@
    }
}

/// The lines of a set, one item each.
pub open spec fn pp_set_items<F: Fn(u64) -> String>(items: Seq<SpecValue>, pad: Seq<char>, f: F) -> Seq<char>
    decreases items, 0nat,
{
    if items.len() == 0 {
        Seq::empty()
    } else {
        let n = items.len() - 1;
        pp_set_items(items.subrange(0, n), pad, f) + pad + "    "@ + pp_text(items[n], pad + "    "@, f) + "\n"@
    }
}

/// The lines `key => value` of a dictionary.
pub open spec fn pp_pairs<F: Fn(u64) -> String>(ps: Seq<(SpecValue, SpecValue)>, pad: Seq<char>, f: F) -> Seq<char>
    decreases ps, 0nat,
{
    if ps.len() == 0 {
        Seq::empty()
    } else {
        let n = ps.len() - 1;
        pp_pairs(ps.subrange(0, n), pad, f) + pad + "    "@ + pp_key(ps[n].0, f) + " => "@ + pp_text(
            ps[n].1,
            pad + "    "@,
            f,
        ) + "\n"@
    }
}

/// The pretty-printer prints a boolean as the integer it stands for, `1`
/// for true and `0` for false, so that true and false print differently.
pub proof fn lemma_pp_bool<F: Fn(u64) -> String>(b: bool, pad: Seq<char>, f: F)
    ensures
        pp_text(SpecValue::Bool(b), pad, f) == pp_text(SpecValue::Integer(if b { 1 } else { 0 }), pad, f),
        pp_text(SpecValue::Bool(true), pad, f) != pp_text(SpecValue::Bool(false), pad, f),
{
    reveal_strlit("1");
    reveal_strlit("0");
    assert(int_text(1) =~= "1"@);
    assert(int_text(0) =~= "0"@);
    assert("1"@[0] != "0"@[0]);
}

/// Appends the lines of an array's items.
fn pp_items_into<F: Fn(u64) -> String>(items: &Vec<Value>, out: &mut String, pad: &String, inner: &String, real_text_fn: &F)
    requires
        forall|b: u64| #[trigger] real_text_fn.requires((b,)),
        inner@ == pad@ + "    "@,
    ensures
        deterministic_text(*real_text_fn) ==> final(out)@ == old(out)@ + pp_items(views(items@), pad@, *real_text_fn),
    decreases items, 0nat,
{
    let ghost f = *real_text_fn;
    let mut i: usize = 0;
    assert(views(items@).take(0) =~= Seq::<SpecValue>::empty());
    while i < items.len()
        invariant
            i <= items@.len(),
            forall|b: u64| #[trigger] real_text_fn.requires((b,)),
            f == *real_text_fn,
            inner@ == pad@ + "    "@,
            deterministic_text(f) ==> out@ == old(out)@ + pp_items(views(items@).take(i as int), pad@, f),
        decreases items@.len() - i,
    {
        out.append(pad.as_str());
        out.append("    ");
        push_decimal(out, i as u64);
        out.append(" => ");
        assert(decreases_to!(items => items@[i as int]));
        pretty_print(&items[i], out, inner, real_text_fn);
        out.append("\n");
        let ghost t = views(items@).take(i + 1);
        assert(t.subrange(0, t.len() - 1) =~= views(items@).take(i as int));
        proof {
            if deterministic_text(f) {
                assert(out@ =~= old(out)@ + pp_items(t, pad@, f));
            }
        }
        i = i + 1;
    }
    assert(views(items@).take(i as int) =~= views(items@));
}

/// Appends the lines of a set's items.
fn pp_set_into<F: Fn(u64) -> String>(items: &Vec<Value>, out: &mut String, pad: &String, inner: &String, real_text_fn: &F)
    requires
        forall|b: u64| #[trigger] real_text_fn.requires((b,)),
        inner@ == pad@ + "    "@,
    ensures
        deterministic_text(*real_text_fn) ==> final(out)@ == old(out)@ + pp_set_items(views(items@), pad@, *real_text_fn),
    decreases items, 0nat,
{
    let ghost f = *real_text_fn;
    let mut i: usize = 0;
    assert(views(items@).take(0) =~= Seq::<SpecValue>::empty());
    while i < items.len()
        invariant
            i <= items@.len(),
            forall|b: u64| #[trigger] real_text_fn.requires((b,)),
            f == *real_text_fn,
            inner@ == pad@ + "    "@,
            deterministic_text(f) ==> out@ == old(out)@ + pp_set_items(views(items@).take(i as int), pad@, f),
        decreases items@.len() - i,
    {
        out.append(pad.as_str());
        out.append("    ");
        assert(decreases_to!(items => items@[i as int]));
        pretty_print(&items[i], out, inner, real_text_fn);
        out.append("\n");
        let ghost t = views(items@).take(i + 1);
        assert(t.subrange(0, t.len() - 1) =~= views(items@).take(i as int));
        proof {
            if deterministic_text(f) {
                assert(out@ =~= old(out)@ + pp_set_items(t, pad@, f));
            }
        }
        i = i + 1;
    }
    assert(views(items@).take(i as int) =~= views(items@));
}

/// Appends the lines of a dictionary's pairs.
fn pp_pairs_into<F: Fn(u64) -> String>(
    pairs: &Vec<(Value, Value)>,
    out: &mut String,
    pad: &String,
    inner: &String,
    real_text_fn: &F,
)
    requires
        forall|b: u64| #[trigger] real_text_fn.requires((b,)),
        inner@ == pad@ + "    "@,
    ensures
        deterministic_text(*real_text_fn) ==> final(out)@ == old(out)@ + pp_pairs(pair_views(pairs@), pad@, *real_text_fn),
    decreases pairs, 0nat,
{
    let ghost f = *real_text_fn;
    let mut i: usize = 0;
    assert(pair_views(pairs@).take(0) =~= Seq::<(SpecValue, SpecValue)>::empty());
    while i < pairs.len()
        invariant
            i <= pairs@.len(),
            forall|b: u64| #[trigger] real_text_fn.requires((b,)),
            f == *real_text_fn,
            inner@ == pad@ + "    "@,
            deterministic_text(f) ==> out@ == old(out)@ + pp_pairs(pair_views(pairs@).take(i as int), pad@, f),
        decreases pairs@.len() - i,
    {
        out.append(pad.as_str());
        out.append("    ");
        match &pairs[i].0 {
            Value::String(s) => {
                let q = pp_string(s.as_str());
                out.append(q.as_str());
            },
            other => other.display_into(out, real_text_fn),
        }
        out.append(" => ");
        assert(decreases_to!(pairs => pairs@[i as int]));
        assert(decreases_to!(pairs@[i as int] => pairs@[i as int].1));
        pretty_print(&pairs[i].1, out, inner, real_text_fn);
        out.append("\n");
        let ghost t = pair_views(pairs@).take(i + 1);
        assert(t.subrange(0, t.len() - 1) =~= pair_views(pairs@).take(i as int));
        proof {
            if deterministic_text(f) {
                assert(out@ =~= old(out)@ + pp_pairs(t, pad@, f));
            }
        }
        i = i + 1;
    }
    assert(pair_views(pairs@).take(i as int) =~= pair_views(pairs@));
}

/// Appends the pretty-printed text of `value`, whose lines are indented by
/// `pad`; reals are written by `real_text` (from their bit pattern).
#[verifier::spinoff_prover]
#[verifier::rlimit(40)]
pub fn pretty_print<F: Fn(u64) -> String>(value: &Value, out: &mut String, pad: &String, real_text_fn: &F)
    requires
        forall|b: u64| #[trigger] real_text_fn.requires((b,)),
    ensures
        deterministic_text(*real_text_fn) ==> final(out)@ == old(out)@ + pp_text(value@, pad@, *real_text_fn),
    decreases value, 1nat,
{
    match value {
        Value::String(s) => {
            let q = pp_string(s.as_str());
            out.append(q.as_str());
        },
        Value::Integer(i) => push_int(out, *i),
        Value::Real(r) => {
            let t = real_text(real_text_fn, *r);
            out.append(t.as_str());
        },
        Value::Bool(b) => {
            if *b {
                out.append("1");
            } else {
                out.append("0");
            }
        },
        Value::Data(bytes) => {
            out.append("<");
            push_hex(out, bytes);
            out.append(">");
        },
        Value::Date(d) => {
            let iso = apple_epoch_to_iso8601(*d);
            out.append(iso.as_str());
        },
        Value::Null => out.append("<null>"),
        Value::Uid(u) => {
            out.append("<uid: ");
            push_decimal(out, *u);
            out.append(">");
        },
        Value::Array(items) => {
            proof {
                crate::value::lemma_items_views(*items);
            }
            let mut inner = pad.clone();
            inner.append("    ");
            out.append("[\n");
            assert(decreases_to!(*value => value->Array_0));
            pp_items_into(items, out, pad, &inner, real_text_fn);
            out.append(pad.as_str());
            out.append("]");
        },
        Value::UnorderedSet(items) => {
            proof {
                crate::value::lemma_items_views(*items);
            }
            let mut inner = pad.clone();
            inner.append("    ");
            out.append("Set {\n");
            assert(decreases_to!(*value => value->UnorderedSet_0));
            pp_set_into(items, out, pad, &inner, real_text_fn);
            out.append(pad.as_str());
            out.append("}");
        },
        Value::Dictionary(pairs) => {
            proof {
                crate::value::lemma_pairs_views(*pairs);
            }
            let mut inner = pad.clone();
            inner.append("    ");
            out.append("{\n");
            assert(decreases_to!(*value => value->Dictionary_0));
            pp_pairs_into(pairs, out, pad, &inner, real_text_fn);
            out.append(pad.as_str());
            out.append("}");
        },
    }
}

// ── Operations ──────────────────────────────────────────────────────────────

/// The model of a [`PlutilError`].
pub enum SpecPlutilError {
    BplistParse(crate::bplist::parser::SpecParseError),
    BplistWrite,
    XplistParse(crate::xplist::parser::SpecXmlError),
    XplistWrite(Option<Seq<char>>),
    UnknownFormat(Seq<char>),
    KeypathNotFound(Seq<char>),
    KeypathIndexError(Seq<char>, Seq<char>),
    UnsupportedRaw(Seq<char>),
    NoOperation,
    MultipleOperations,
    NoInputFiles,
}

impl PlutilError {
    pub open spec fn view(self) -> SpecPlutilError {
        match self {
            PlutilError::BplistParse(e) => SpecPlutilError::BplistParse(e@),
            PlutilError::BplistWrite(_) => SpecPlutilError::BplistWrite,
            PlutilError::XplistParse(e) => SpecPlutilError::XplistParse(e@),
            PlutilError::XplistWrite(crate::xplist::writer::WriteError::UnsupportedType(n)) => SpecPlutilError::XplistWrite(Some(n@)),
            PlutilError::XplistWrite(_) => SpecPlutilError::XplistWrite(None),
            PlutilError::UnknownFormat(s) => SpecPlutilError::UnknownFormat(s@),
            PlutilError::KeypathNotFound(s) => SpecPlutilError::KeypathNotFound(s@),
            PlutilError::KeypathIndexError { component, msg } => SpecPlutilError::KeypathIndexError(component@, msg@),
            PlutilError::UnsupportedRaw(s) => SpecPlutilError::UnsupportedRaw(s@),
            PlutilError::NoOperation => SpecPlutilError::NoOperation,
            PlutilError::MultipleOperations => SpecPlutilError::MultipleOperations,
            PlutilError::NoInputFiles => SpecPlutilError::NoInputFiles,
        }
    }
}

/// The model of an outcome.
pub open spec fn outcome<T, V>(r: Result<T, PlutilError>, view: spec_fn(T) -> V) -> Result<V, SpecPlutilError> {
    match r {
        Ok(t) => Ok(view(t)),
        Err(e) => Err(e@),
    }
}

/// What parsing `bytes` gives: as a binary property list when they start
/// with `bplist`, else as an XML one (reals read by `f`).
#[verifier::opaque]
pub open spec fn plist_value<F: Fn(&str) -> Option<u64>>(bytes: Seq<u8>, f: F) -> Result<SpecValue, SpecPlutilError> {
    if starts_with_bplist(bytes) {
        match spec_parse(bytes) {
            Ok(v) => Ok(v),
            Err(e) => Err(SpecPlutilError::BplistParse(e)),
        }
    } else {
        match spec_parse_xml(bytes, f) {
            Ok(v) => Ok(v),
            Err(e) => Err(SpecPlutilError::XplistParse(e)),
        }
    }
}

/// Parses a property list, binary when `bytes` start with `bplist`, else
/// XML; the text of each XML `<real>` is read by `parse_real`.
pub fn parse_plist<F: Fn(&str) -> Option<u64>>(bytes: &[u8], parse_real_fn: &F) -> (r: Result<Value, PlutilError>)
    requires
        forall|s: &str| #[trigger] parse_real_fn.requires((s,)),
    ensures
        starts_with_bplist(bytes@) || deterministic_parse(*parse_real_fn) ==> outcome(r, |v: Value| v@) == plist_value(bytes@, *parse_real_fn),
{
    reveal(plist_value);
    match PlistFormat::detect(bytes) {
        PlistFormat::Binary => match crate::bplist::parser::parse(bytes) {
            Ok(v) => Ok(v),
            Err(e) => Err(PlutilError::BplistParse(e)),
        },
        PlistFormat::Xml => match crate::xplist::parser::parse(bytes, parse_real_fn) {
            Ok(v) => Ok(v),
            Err(e) => Err(PlutilError::XplistParse(e)),
        },
    }
}

/// What serialising `v` in `fmt` gives (reals written by `f`).
#[verifier::opaque]
pub open spec fn plist_bytes<F: Fn(u64) -> String>(v: SpecValue, fmt: PlistFormat, f: F) -> Result<Seq<u8>, SpecPlutilError> {
    match fmt {
        PlistFormat::Binary => Ok(spec_write(v)),
        PlistFormat::Xml => match xml_document(v, f).1 {
            None => Ok(encode_utf8(xml_document(v, f).0)),
            Some(m) => Err(SpecPlutilError::XplistWrite(Some(m))),
        },
    }
}

/// Serialises `value` in `fmt`; reals are written by `real_text`.
pub fn serialize_plist<F: Fn(u64) -> String>(value: &Value, fmt: PlistFormat, real_text_fn: &F) -> (r: Result<Vec<u8>, PlutilError>)
    requires
        forall|b: u64| #[trigger] real_text_fn.requires((b,)),
    ensures
        fmt == PlistFormat::Binary || deterministic_text(*real_text_fn) ==> outcome(r, |b: Vec<u8>| b@) == plist_bytes(value@, fmt, *real_text_fn),
{
    reveal(plist_bytes);
    let mut buf: Vec<u8> = Vec::new();
    match fmt {
        PlistFormat::Binary => match crate::bplist::writer::write(value, &mut buf) {
            Ok(()) => {
                assert(buf@ =~= spec_write(value@));
                Ok(buf)
            },
            Err(e) => Err(PlutilError::BplistWrite(e)),
        },
        PlistFormat::Xml => match crate::xplist::writer::write(value, &mut buf, real_text_fn) {
            Ok(()) => {
                proof {
                    if deterministic_text(*real_text_fn) {
                        assert(buf@ =~= encode_utf8(xml_document(value@, *real_text_fn).0));
                    }
                }
                Ok(buf)
            },
            Err(e) => Err(PlutilError::XplistWrite(e)),
        },
    }
}

/// What checking the syntax of `bytes` gives.
pub open spec fn lint_outcome<F: Fn(&str) -> Option<u64>>(bytes: Seq<u8>, f: F) -> Result<(), SpecPlutilError> {
    match plist_value(bytes, f) {
        Ok(_) => Ok(()),
        Err(e) => Err(e),
    }
}

/// Checks the syntax of one file's contents: `Ok` when it parses.
pub fn run_lint<F: Fn(&str) -> Option<u64>>(bytes: &[u8], parse_real_fn: &F) -> (r: Result<(), PlutilError>)
    requires
        forall|s: &str| #[trigger] parse_real_fn.requires((s,)),
    ensures
        starts_with_bplist(bytes@) || deterministic_parse(*parse_real_fn) ==> outcome(r, |u: ()| u) == lint_outcome(bytes@, *parse_real_fn),
{
    match parse_plist(bytes, parse_real_fn) {
        Ok(_) => Ok(()),
        Err(e) => Err(e),
    }
}

/// The format named `n`.
pub open spec fn format_named(n: Seq<char>) -> Result<PlistFormat, SpecPlutilError> {
    if n == "xml1"@ {
        Ok(PlistFormat::Xml)
    } else if n == "binary1"@ {
        Ok(PlistFormat::Binary)
    } else {
        Err(SpecPlutilError::UnknownFormat(n))
    }
}

/// What converting `bytes` to the format named `name` gives.
pub open spec fn convert_outcome<F: Fn(&str) -> Option<u64>, G: Fn(u64) -> String>(bytes: Seq<u8>, name: Seq<char>, pf: F, rf: G) -> Result<Seq<u8>, SpecPlutilError> {
    match format_named(name) {
        Err(e) => Err(e),
        Ok(fmt) => match plist_value(bytes, pf) {
            Err(e) => Err(e),
            Ok(v) => plist_bytes(v, fmt, rf),
        },
    }
}

/// Converts one file's contents to the format named `format_name`
/// (`xml1` or `binary1`): the bytes to write.
pub fn run_convert<F: Fn(&str) -> Option<u64>, G: Fn(u64) -> String>(
    bytes: &[u8],
    format_name: &str,
    parse_real_fn: &F,
    real_text_fn: &G,
) -> (r: Result<Vec<u8>, PlutilError>)
    requires
        forall|s: &str| #[trigger] parse_real_fn.requires((s,)),
        forall|b: u64| #[trigger] real_text_fn.requires((b,)),
    ensures
        deterministic_parse(*parse_real_fn) && deterministic_text(*real_text_fn) ==> outcome(r, |b: Vec<u8>| b@)
            == convert_outcome(bytes@, format_name@, *parse_real_fn, *real_text_fn),
{
    let fmt = match PlistFormat::from_name(format_name) {
        Ok(f) => f,
        Err(e) => return Err(e),
    };
    let value = match parse_plist(bytes, parse_real_fn) {
        Ok(v) => v,
        Err(e) => return Err(e),
    };
    serialize_plist(&value, fmt, real_text_fn)
}

/// Converting to `binary1` keeps the value: when `bytes` hold a property
/// list (of either format) whose value is nested within the binary
/// parser's limit and whose binary file fits in memory, the converted
/// bytes are a binary property list holding the same value.
pub proof fn lemma_convert_binary_keeps_value<F: Fn(&str) -> Option<u64>, G: Fn(u64) -> String>(
    bytes: Seq<u8>,
    pf: F,
    rf: G,
)
    requires
        plist_value(bytes, pf) is Ok,
        height(plist_value(bytes, pf)->Ok_0) <= crate::bplist::parser::MAX_DEPTH,
        spec_write(plist_value(bytes, pf)->Ok_0).len() <= usize::MAX,
    ensures
        convert_outcome(bytes, "binary1"@, pf, rf) matches Ok(out) && starts_with_bplist(out) && plist_value(out, pf)
            == plist_value(bytes, pf),
{
    let v = plist_value(bytes, pf)->Ok_0;
    let out = spec_write(v);
    assert(format_named("binary1"@) == Ok::<PlistFormat, SpecPlutilError>(PlistFormat::Binary)) by {
        reveal_strlit("binary1");
        reveal_strlit("xml1");
        assert("binary1"@.len() != "xml1"@.len());
    }
    assert(plist_bytes(v, PlistFormat::Binary, rf) == Ok::<Seq<u8>, SpecPlutilError>(out)) by {
        reveal(plist_bytes);
    }
    lemma_write_magic(v);
    lemma_parse_write(v);
    assert(plist_value(out, pf) == Ok::<SpecValue, SpecPlutilError>(v)) by {
        reveal(plist_value);
    }
}

/// A binary property list starts with `bplist`.
proof fn lemma_write_magic(v: SpecValue)
    ensures
        starts_with_bplist(spec_write(v)),
{
    let w = spec_write(v);
    assert(w.subrange(0, 8) =~= crate::bplist::writer::magic());
    assert(w[0] == w.subrange(0, 8)[0] && w[1] == w.subrange(0, 8)[1] && w[2] == w.subrange(0, 8)[2]);
    assert(w[3] == w.subrange(0, 8)[3] && w[4] == w.subrange(0, 8)[4] && w[5] == w.subrange(0, 8)[5]);
}

/// What pretty-printing `bytes` gives.
pub open spec fn print_outcome<F: Fn(&str) -> Option<u64>, G: Fn(u64) -> String>(bytes: Seq<u8>, pf: F, rf: G) -> Result<Seq<u8>, SpecPlutilError> {
    match plist_value(bytes, pf) {
        Err(e) => Err(e),
        Ok(v) => Ok(encode_utf8(pp_text(v, Seq::empty(), rf) + seq!['\n'])),
    }
}

/// Pretty-prints one file's contents: the text to write, ending in a line
/// feed.
pub fn run_print<F: Fn(&str) -> Option<u64>, G: Fn(u64) -> String>(bytes: &[u8], parse_real_fn: &F, real_text_fn: &G) -> (r: Result<Vec<u8>, PlutilError>)
    requires
        forall|s: &str| #[trigger] parse_real_fn.requires((s,)),
        forall|b: u64| #[trigger] real_text_fn.requires((b,)),
    ensures
        deterministic_parse(*parse_real_fn) && deterministic_text(*real_text_fn) ==> outcome(r, |b: Vec<u8>| b@)
            == print_outcome(bytes@, *parse_real_fn, *real_text_fn),
{
    let value = match parse_plist(bytes, parse_real_fn) {
        Ok(v) => v,
        Err(e) => return Err(e),
    };
    let mut out = String::new();
    let pad = String::new();
    assert(pad@ =~= Seq::<char>::empty());
    pretty_print(&value, &mut out, &pad, real_text_fn);
    push_char(&mut out, '\n');
    proof {
        if deterministic_text(*real_text_fn) {
            assert(out@ =~= pp_text(value@, Seq::empty(), *real_text_fn) + seq!['\n']);
        }
    }
    let mut buf: Vec<u8> = Vec::new();
    crate::bplist::writer::extend_bytes(&mut buf, out.as_str().as_bytes());
    proof {
        if deterministic_parse(*parse_real_fn) && deterministic_text(*real_text_fn) {
            assert(buf@ =~= encode_utf8(pp_text(value@, Seq::empty(), *real_text_fn) + seq!['\n']));
        }
    }
    Ok(buf)
}


/// The model of the error that a failed key path lookup gives.
pub open spec fn keypath_error(se: SpecKeypathError) -> SpecPlutilError {
    match se {
        SpecKeypathError::NotFound(c) => SpecPlutilError::KeypathNotFound(c),
        SpecKeypathError::BadIndex(c) => SpecPlutilError::KeypathIndexError(c, "not a valid array index"@),
    }
}

/// The value at `keypath` inside the property list in `bytes`.
pub open spec fn located<F: Fn(&str) -> Option<u64>>(bytes: Seq<u8>, keypath: Seq<char>, pf: F) -> Result<SpecValue, SpecPlutilError> {
    match plist_value(bytes, pf) {
        Err(e) => Err(e),
        Ok(v) => match keypath_lookup(v, keypath) {
            Err(se) => Err(keypath_error(se)),
            Ok(w) => Ok(w),
        },
    }
}

/// The bytes of a value in `raw` output: a string's UTF-8 text, an
/// integer's or a real's decimal text, `true` or `false`, or data as it is.
/// Other values have no raw form.
pub open spec fn raw_bytes<G: Fn(u64) -> String>(v: SpecValue, rf: G) -> Result<Seq<u8>, SpecPlutilError> {
    match v {
        SpecValue::String(s) => Ok(encode_utf8(s)),
        SpecValue::Integer(i) => Ok(encode_utf8(int_text(i))),
        SpecValue::Real(b) => Ok(encode_utf8(text_of(rf, b))),
        SpecValue::Bool(b) => Ok(encode_utf8(if b { "true"@ } else { "false"@ })),
        SpecValue::Data(d) => Ok(d),
        other => Err(SpecPlutilError::UnsupportedRaw(type_name_of(other))),
    }
}

/// What extracting the value at `keypath` in the format named `name`
/// (`raw`, `xml1` or `binary1`) gives.
pub open spec fn extract_outcome<F: Fn(&str) -> Option<u64>, G: Fn(u64) -> String>(
    bytes: Seq<u8>,
    keypath: Seq<char>,
    name: Seq<char>,
    pf: F,
    rf: G,
) -> Result<Seq<u8>, SpecPlutilError> {
    match located(bytes, keypath, pf) {
        Err(e) => Err(e),
        Ok(w) => if name == "raw"@ {
            raw_bytes(w, rf)
        } else {
            match format_named(name) {
                Err(e) => Err(e),
                Ok(fmt) => plist_bytes(w, fmt, rf),
            }
        },
    }
}

/// The bytes of `value` in `raw` output.
fn raw_output<G: Fn(u64) -> String>(value: &Value, real_text_fn: &G) -> (r: Result<Vec<u8>, PlutilError>)
    requires
        forall|b: u64| #[trigger] real_text_fn.requires((b,)),
    ensures
        deterministic_text(*real_text_fn) ==> outcome(r, |b: Vec<u8>| b@) == raw_bytes(value@, *real_text_fn),
{
    let mut text = String::new();
    match value {
        Value::String(s) => {
            text.append(s.as_str());
        },
        Value::Integer(i) => {
            push_int(&mut text, *i);
        },
        Value::Real(b) => {
            let t = real_text(real_text_fn, *b);
            text.append(t.as_str());
        },
        Value::Bool(b) => {
            if *b {
                text.append("true");
            } else {
                text.append("false");
            }
        },
        Value::Data(d) => {
            let mut buf: Vec<u8> = Vec::new();
            crate::bplist::writer::extend_bytes(&mut buf, d.as_slice());
            assert(buf@ =~= d@);
            return Ok(buf);
        },
        other => {
            return Err(PlutilError::UnsupportedRaw(value_type_name(other)));
        },
    }
    proof {
        reveal_strlit("true");
        reveal_strlit("false");
    }
    let mut buf: Vec<u8> = Vec::new();
    crate::bplist::writer::extend_bytes(&mut buf, text.as_str().as_bytes());
    proof {
        if deterministic_text(*real_text_fn) {
            assert(buf@ =~= encode_utf8(text@));
        }
    }
    Ok(buf)
}

/// Extracts the value at the dot-separated `keypath` from one file's
/// contents, in the format named `format_name`: `raw` (the value's own
/// text or bytes), `xml1` or `binary1`.  The bytes to write.
pub fn run_extract<F: Fn(&str) -> Option<u64>, G: Fn(u64) -> String>(
    bytes: &[u8],
    keypath: &str,
    format_name: &str,
    parse_real_fn: &F,
    real_text_fn: &G,
) -> (r: Result<Vec<u8>, PlutilError>)
    requires
        forall|s: &str| #[trigger] parse_real_fn.requires((s,)),
        forall|b: u64| #[trigger] real_text_fn.requires((b,)),
    ensures
        deterministic_parse(*parse_real_fn) && deterministic_text(*real_text_fn) ==> outcome(r, |b: Vec<u8>| b@)
            == extract_outcome(bytes@, keypath@, format_name@, *parse_real_fn, *real_text_fn),
{
    let value = match parse_plist(bytes, parse_real_fn) {
        Ok(v) => v,
        Err(e) => return Err(e),
    };
    let extracted = match get_at_keypath(&value, keypath) {
        Ok(w) => w,
        Err(e) => return Err(e),
    };
    proof {
        reveal_strlit("raw");
    }
    if str_eq(format_name, "raw") {
        raw_output(extracted, real_text_fn)
    } else {
        let fmt = match PlistFormat::from_name(format_name) {
            Ok(f) => f,
            Err(e) => return Err(e),
        };
        serialize_plist(extracted, fmt, real_text_fn)
    }
}

/// What asking for the type of the value at `keypath` gives.
pub open spec fn type_outcome<F: Fn(&str) -> Option<u64>>(bytes: Seq<u8>, keypath: Seq<char>, pf: F) -> Result<Seq<char>, SpecPlutilError> {
    match located(bytes, keypath, pf) {
        Err(e) => Err(e),
        Ok(w) => Ok(type_name_of(w)),
    }
}

/// The type name of the value at the dot-separated `keypath` in one
/// file's contents.
pub fn run_type<F: Fn(&str) -> Option<u64>>(bytes: &[u8], keypath: &str, parse_real_fn: &F) -> (r: Result<&'static str, PlutilError>)
    requires
        forall|s: &str| #[trigger] parse_real_fn.requires((s,)),
    ensures
        starts_with_bplist(bytes@) || deterministic_parse(*parse_real_fn) ==> outcome(r, |t: &'static str| t@)
            == type_outcome(bytes@, keypath@, *parse_real_fn),
{
    let value = match parse_plist(bytes, parse_real_fn) {
        Ok(v) => v,
        Err(e) => return Err(e),
    };
    match get_at_keypath(&value, keypath) {
        Ok(w) => Ok(value_type_name(w)),
        Err(e) => Err(e),
    }
}

// ── Invocations ─────────────────────────────────────────────────────────────

/// The operation flags, output option and input files of one invocation.
pub struct Options {
    /// Check each file's syntax.
    pub lint: bool,
    /// Convert each file to the named format.
    pub convert: Option<String>,
    /// Pretty-print (long form).
    pub print: bool,
    /// Pretty-print (short form).
    pub short_print: bool,
    /// Key path and format to extract; empty when not asked for.
    pub extract: Vec<String>,
    /// Key path whose type to print.
    pub get_type: Option<String>,
    /// Where to write output instead of the input file.
    pub output: Option<String>,
    /// Input files.
    pub files: Vec<String>,
}

/// The one operation that an invocation asks for.
pub enum Operation {
    Lint,
    Convert(String),
    Print,
    Extract { keypath: String, format: String },
    Type(String),
}

/// The model of an [`Operation`].
pub enum SpecOperation {
    Lint,
    Convert(Seq<char>),
    Print,
    Extract(Seq<char>, Seq<char>),
    Type(Seq<char>),
}

impl Operation {
    pub open spec fn view(self) -> SpecOperation {
        match self {
            Operation::Lint => SpecOperation::Lint,
            Operation::Convert(f) => SpecOperation::Convert(f@),
            Operation::Print => SpecOperation::Print,
            Operation::Extract { keypath, format } => SpecOperation::Extract(keypath@, format@),
            Operation::Type(k) => SpecOperation::Type(k@),
        }
    }

    /// The flag of an operation that works on exactly one file.
    pub fn single_file_flag(&self) -> (r: Option<&'static str>)
        ensures
            match self@ {
                SpecOperation::Extract(_, _) => r matches Some(f) && f@ == "--extract"@,
                SpecOperation::Type(_) => r matches Some(f) && f@ == "--type"@,
                _ => r is None,
            },
    {
        proof {
            reveal_strlit("--extract");
            reveal_strlit("--type");
        }
        match self {
            Operation::Extract { .. } => Some("--extract"),
            Operation::Type(_) => Some("--type"),
            _ => None,
        }
    }
}

/// How many operations `o` asks for.
pub open spec fn operation_count(o: Options) -> nat {
    (if o.lint { 1nat } else { 0nat }) + (if o.convert is Some { 1nat } else { 0nat }) + (if o.print { 1nat } else { 0nat })
        + (if o.short_print { 1nat } else { 0nat }) + (if o.extract@.len() > 0 { 1nat } else { 0nat }) + (if o.get_type is Some {
        1nat
    } else {
        0nat
    })
}

/// The operation that `o` asks for, or why it asks for none.
pub open spec fn planned(o: Options) -> Result<SpecOperation, SpecPlutilError> {
    if operation_count(o) == 0 {
        Err(SpecPlutilError::NoOperation)
    } else if operation_count(o) > 1 {
        Err(SpecPlutilError::MultipleOperations)
    } else if o.files@.len() == 0 {
        Err(SpecPlutilError::NoInputFiles)
    } else if o.lint {
        Ok(SpecOperation::Lint)
    } else if o.convert is Some {
        Ok(SpecOperation::Convert(o.convert->0@))
    } else if o.print || o.short_print {
        Ok(SpecOperation::Print)
    } else if o.extract@.len() > 0 {
        Ok(SpecOperation::Extract(o.extract@[0]@, o.extract@[1]@))
    } else {
        Ok(SpecOperation::Type(o.get_type->0@))
    }
}

/// Decides what an invocation does: exactly one operation must be given,
/// and at least one input file.
pub fn plan(opts: &Options) -> (r: Result<Operation, PlutilError>)
    requires
        opts.extract@.len() != 1,
    ensures
        outcome(r, |op: Operation| op@) == planned(*opts),
{
    let mut count: usize = 0;
    if opts.lint {
        count = count + 1;
    }
    if opts.convert.is_some() {
        count = count + 1;
    }
    if opts.print {
        count = count + 1;
    }
    if opts.short_print {
        count = count + 1;
    }
    if opts.extract.len() > 0 {
        count = count + 1;
    }
    if opts.get_type.is_some() {
        count = count + 1;
    }
    assert(count == operation_count(*opts));
    if count == 0 {
        return Err(PlutilError::NoOperation);
    }
    if count > 1 {
        return Err(PlutilError::MultipleOperations);
    }
    if opts.files.len() == 0 {
        return Err(PlutilError::NoInputFiles);
    }
    if opts.lint {
        Ok(Operation::Lint)
    } else if let Some(f) = &opts.convert {
        Ok(Operation::Convert(f.clone()))
    } else if opts.print || opts.short_print {
        Ok(Operation::Print)
    } else if opts.extract.len() > 0 {
        Ok(Operation::Extract { keypath: opts.extract[0].clone(), format: opts.extract[1].clone() })
    } else {
        match &opts.get_type {
            Some(k) => Ok(Operation::Type(k.clone())),
            None => Err(PlutilError::NoOperation),
        }
    }
}

/// Whether `path` names the standard stream (`-`) rather than a file.
pub fn is_standard_stream(path: &str) -> (r: bool)
    ensures
        r == (path@ == "-"@),
{
    proof {
        reveal_strlit("-");
    }
    str_eq(path, "-")
}

/// Where output goes.
pub enum Destination {
    Stdout,
    File(String),
}

/// Where the output for `input_path` goes: to the `-o` argument when one
/// is given, else back to the input file; `-` means standard output.
pub fn destination(output: Option<&str>, input_path: &str) -> (d: Destination)
    ensures
        ({
            let dest = match output {
                Some(o) => o@,
                None => input_path@,
            };
            if dest == "-"@ {
                d is Stdout
            } else {
                d matches Destination::File(p) && p@ == dest
            }
        }),
{
    let dest: &str = match output {
        Some(o) => o,
        None => input_path,
    };
    if is_standard_stream(dest) {
        Destination::Stdout
    } else {
        Destination::File(dest.to_string())
    }
}

/// Whether converting several files with `-o` naming one file deserves a
/// warning: they would all be written to the same destination.
pub fn shares_output(output: Option<&str>, file_count: usize) -> (r: bool)
    ensures
        r == (output matches Some(o) && o@ != "-"@ && file_count > 1),
{
    match output {
        Some(o) => !is_standard_stream(o) && file_count > 1,
        None => false,
    }
}

} // verus!
