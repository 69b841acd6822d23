//! Reading back what the XML writer writes.  The tokens of a document are
//! `quick_xml`'s to give; given the events that a reader yields for the
//! document written for a value (elements by name, text unescaped, the
//! line breaks and indentation between elements included), the parser
//! gives the value back.
use vstd::prelude::*;
use vstd::string::*;
use vstd::utf8::{encode_utf8, is_ascii_chars};

use crate::bplist::layout::{children, height, lemma_height_child};
use crate::display::int_text;
use crate::float_bits::{f64_trunc, i64_to_f64_bits};
use crate::reals::{parsed_by, text_of};
use crate::text::{
    all_digits, ascii_bytes, decimal, is_digit, is_white, lemma_decimal_digits, parse_int, pow10, trim_end, trim_start,
    trimmed,
};
use crate::value::SpecValue;
use crate::xplist::date::{apple_to_unix, calendar_of, iso_text, lemma_iso_roundtrip, APPLE_EPOCH_UNIX};
use crate::xplist::parser::{
    deliver, enter_value, is_ascii_white, lit, run, spec_parse_xml, spec_step, start_element, strip_ascii_white, text_value,
    xml_event, EventModel, SpecFrame, SpecMode, SpecState, SpecXmlError, TextKind, MAX_DEPTH,
};
use crate::xplist::parser::base64_decoded;
use crate::xplist::writer::{
    base64_char, base64_of, data_lines, escape_char, escaped, tabs, xml_document, xml_header, xml_items, xml_pairs, xml_value,
};

verus! {

// ── Names and text ──────────────────────────────────────────────────────────

/// The UTF-8 of an ASCII literal is its characters, byte for byte.
proof fn lemma_lit(s: &str)
    requires
        is_ascii_chars(s@),
    ensures
        lit(s) == ascii_bytes(s@),
{
    broadcast use vstd::utf8::is_ascii_chars_encode_utf8;

    assert(lit(s) =~= ascii_bytes(s@));
}

/// The element names are told apart.
proof fn lemma_tags()
    ensures
        lit("integer") != lit("string"),
        lit("real") != lit("string"),
        lit("real") != lit("integer"),
        lit("true") != lit("string"),
        lit("true") != lit("integer"),
        lit("true") != lit("real"),
        lit("false") != lit("string"),
        lit("false") != lit("integer"),
        lit("false") != lit("real"),
        lit("false") != lit("true"),
        lit("data") != lit("string"),
        lit("data") != lit("integer"),
        lit("data") != lit("real"),
        lit("data") != lit("true"),
        lit("data") != lit("false"),
        lit("date") != lit("string"),
        lit("date") != lit("integer"),
        lit("date") != lit("real"),
        lit("date") != lit("true"),
        lit("date") != lit("false"),
        lit("date") != lit("data"),
        lit("array") != lit("string"),
        lit("array") != lit("integer"),
        lit("array") != lit("real"),
        lit("array") != lit("true"),
        lit("array") != lit("false"),
        lit("array") != lit("data"),
        lit("array") != lit("date"),
        lit("dict") != lit("string"),
        lit("dict") != lit("integer"),
        lit("dict") != lit("real"),
        lit("dict") != lit("true"),
        lit("dict") != lit("false"),
        lit("dict") != lit("data"),
        lit("dict") != lit("date"),
        lit("dict") != lit("array"),
{
    reveal_strlit("string");
    lemma_lit("string");
    reveal_strlit("integer");
    lemma_lit("integer");
    reveal_strlit("real");
    lemma_lit("real");
    reveal_strlit("true");
    lemma_lit("true");
    reveal_strlit("false");
    lemma_lit("false");
    reveal_strlit("data");
    lemma_lit("data");
    reveal_strlit("date");
    lemma_lit("date");
    reveal_strlit("array");
    lemma_lit("array");
    reveal_strlit("dict");
    lemma_lit("dict");
    reveal_strlit("plist");
    lemma_lit("plist");
    reveal_strlit("key");
    lemma_lit("key");
    assert(lit("integer").len() != lit("string").len());
    assert(lit("real").len() != lit("string").len());
    assert(lit("real").len() != lit("integer").len());
    assert(lit("true").len() != lit("string").len());
    assert(lit("true").len() != lit("integer").len());
    assert(lit("false").len() != lit("string").len());
    assert(lit("false").len() != lit("integer").len());
    assert(lit("false").len() != lit("real").len());
    assert(lit("false").len() != lit("true").len());
    assert(lit("data").len() != lit("string").len());
    assert(lit("data").len() != lit("integer").len());
    assert(lit("data").len() != lit("false").len());
    assert(lit("date").len() != lit("string").len());
    assert(lit("date").len() != lit("integer").len());
    assert(lit("date").len() != lit("false").len());
    assert(lit("array").len() != lit("string").len());
    assert(lit("array").len() != lit("integer").len());
    assert(lit("array").len() != lit("real").len());
    assert(lit("array").len() != lit("true").len());
    assert(lit("array").len() != lit("data").len());
    assert(lit("array").len() != lit("date").len());
    assert(lit("dict").len() != lit("string").len());
    assert(lit("dict").len() != lit("integer").len());
    assert(lit("dict").len() != lit("false").len());
    assert(lit("dict").len() != lit("array").len());
    assert(lit("true")[0] != lit("real")[0]);
    assert(lit("data")[0] != lit("real")[0]);
    assert(lit("data")[0] != lit("true")[0]);
    assert(lit("date")[0] != lit("real")[0]);
    assert(lit("date")[0] != lit("true")[0]);
    assert(lit("date")[3] != lit("data")[3]);
    assert(lit("array")[0] != lit("false")[0]);
    assert(lit("dict")[0] != lit("real")[0]);
    assert(lit("dict")[0] != lit("true")[0]);
    assert(lit("dict")[1] != lit("data")[1]);
    assert(lit("dict")[1] != lit("date")[1]);
}

/// A text whose ends are not white space trims to itself.
proof fn lemma_untrimmed(s: Seq<char>)
    requires
        s.len() == 0 || (!is_white(s[0]) && !is_white(s.last())),
    ensures
        trimmed(s) == s,
{
}

/// The decimal text of an integer: ASCII, with ends that are not white
/// space, read back as the integer.
proof fn lemma_int_text(i: i64)
    ensures
        is_ascii_chars(int_text(i)),
        int_text(i).len() > 0,
        !is_white(int_text(i)[0]),
        !is_white(int_text(i).last()),
        parse_int(ascii_bytes(int_text(i)), true, i64::MIN as int, i64::MAX as int) == Some(i as int),
{
    let a: nat = if i < 0 { (-(i as int)) as nat } else { i as nat };
    assert(pow10(19) == 10_000_000_000_000_000_000) by {
        reveal_with_fuel(pow10, 20);
    }
    lemma_decimal_digits(a, 19);
    let d = decimal(a);
    let t = int_text(i);
    let b = ascii_bytes(t);
    assert forall|k: int| 0 <= k < ascii_bytes(d).len() implies is_digit(#[trigger] ascii_bytes(d)[k]) by {
        assert('0' <= d[k] <= '9');
    }
    if i < 0 {
        assert(t == seq!['-'] + d);
        assert(b.drop_first() =~= ascii_bytes(d));
        assert(b[0] == 45);
    } else {
        assert(t == d);
        assert(is_digit(b[0]));
    }
    assert(t.last() == d.last());
    assert('0' <= d[d.len() - 1] <= '9');
    assert(is_ascii_chars(t)) by {
        assert forall|k: int| 0 <= k < t.len() implies '\0' <= #[trigger] t[k] <= '\u{7f}' by {
            if i < 0 && k == 0 {
            } else if i < 0 {
                assert(t[k] == d[k - 1]);
            } else {
                assert(t[k] == d[k]);
            }
        }
    }
}

// ── Base64 text ─────────────────────────────────────────────────────────────

/// `a + b` stripped of ASCII white space.
proof fn lemma_strip_concat(a: Seq<char>, b: Seq<char>)
    ensures
        strip_ascii_white(a + b) == strip_ascii_white(a) + strip_ascii_white(b),
    decreases b.len(),
{
    if b.len() == 0 {
        assert(a + b =~= a);
        assert(strip_ascii_white(a) + strip_ascii_white(b) =~= strip_ascii_white(a));
    } else {
        assert((a + b).drop_last() =~= a + b.drop_last());
        lemma_strip_concat(a, b.drop_last());
        if is_ascii_white(b.last()) {
        } else {
            assert(strip_ascii_white(a) + strip_ascii_white(b.drop_last()).push(b.last()) =~= (strip_ascii_white(a)
                + strip_ascii_white(b.drop_last())).push(b.last()));
        }
    }
}

/// Text without ASCII white space strips to itself; white space strips
/// to nothing.
proof fn lemma_strip_plain(s: Seq<char>)
    ensures
        (forall|k: int| 0 <= k < s.len() ==> !is_ascii_white(#[trigger] s[k])) ==> strip_ascii_white(s) == s,
        (forall|k: int| 0 <= k < s.len() ==> is_ascii_white(#[trigger] s[k])) ==> strip_ascii_white(s) == Seq::<char>::empty(),
    decreases s.len(),
{
    if s.len() > 0 {
        lemma_strip_plain(s.drop_last());
        assert(s.drop_last().push(s.last()) =~= s);
    }
}

/// The lines of base64 text, stripped of their white space, are the text.
proof fn lemma_strip_data_lines(enc: Seq<char>, pad: Seq<char>)
    requires
        forall|k: int| 0 <= k < enc.len() ==> !is_ascii_white(#[trigger] enc[k]),
        forall|k: int| 0 <= k < pad.len() ==> #[trigger] pad[k] == '\t',
    ensures
        strip_ascii_white(data_lines(enc, pad)) == enc,
    decreases enc.len(),
{
    reveal_strlit("\n");
    reveal_strlit("\t");
    let lead = "\n"@ + pad + "\t"@;
    lemma_strip_plain(lead);
    if enc.len() == 0 {
    } else if enc.len() <= 68 {
        lemma_strip_concat(lead, enc);
        lemma_strip_plain(enc);
        assert(strip_ascii_white(lead) + enc =~= enc);
    } else {
        let head = enc.take(68);
        lemma_strip_data_lines(enc.skip(68), pad);
        lemma_strip_concat(lead, head);
        lemma_strip_concat(lead + head, data_lines(enc.skip(68), pad));
        assert(lead + head + data_lines(enc.skip(68), pad) =~= "\n"@ + pad + "\t"@ + enc.take(68) + data_lines(
            enc.skip(68),
            pad,
        ));
        lemma_strip_plain(head);
        assert(Seq::<char>::empty() + head + enc.skip(68) =~= enc);
    }
}

// ── The events of a written document ────────────────────────────────────────

/// The text event of the text `t`, unescaped: none when it is empty.
pub open spec fn text_events(t: Seq<char>) -> Seq<EventModel> {
    if t.len() == 0 {
        Seq::empty()
    } else {
        seq![EventModel::Text(Some(t))]
    }
}

/// The text between two elements: a line break, then the indentation of
/// the next line.
pub open spec fn break_event(indent: nat) -> Seq<EventModel> {
    seq![EventModel::Text(Some("\n"@ + tabs(indent)))]
}

/// The events of the element `name` whose text, unescaped, is `t`.
pub open spec fn element_events(name: Seq<u8>, t: Seq<char>) -> Seq<EventModel> {
    seq![EventModel::Start(name)] + text_events(t) + seq![EventModel::End(name)]
}

/// The text inside `<data>` written for `d` at nesting `indent`.
pub open spec fn data_text(d: Seq<u8>, indent: nat) -> Seq<char> {
    let enc = base64_of(d);
    let pad = tabs(indent);
    data_lines(enc, pad) + (if enc.len() > 0 { "\n"@ + pad } else { Seq::empty() })
}

/// The text of a dictionary key, unescaped.
pub open spec fn key_chars<F: Fn(u64) -> String>(k: SpecValue, f: F) -> Seq<char> {
    match k {
        SpecValue::String(s) => s,
        _ => crate::display::display_text(k, f),
    }
}

/// The events that a reader yields for the XML written for `v` at nesting
/// `indent` (reals written by `f`), from its start tag on.
pub open spec fn value_events<F: Fn(u64) -> String>(v: SpecValue, indent: nat, f: F) -> Seq<EventModel>
    decreases v, 1nat,
{
    match v {
        SpecValue::String(s) => element_events(lit("string"), s),
        SpecValue::Integer(i) => element_events(lit("integer"), int_text(i)),
        SpecValue::Real(r) => element_events(lit("real"), text_of(f, r)),
        SpecValue::Bool(b) => seq![EventModel::Empty(if b { lit("true") } else { lit("false") })],
        SpecValue::Data(d) => element_events(lit("data"), data_text(d, indent)),
        SpecValue::Date(d) => element_events(lit("date"), iso_text(calendar_of(apple_to_unix(d) as int))),
        SpecValue::Array(items) => seq![EventModel::Start(lit("array"))] + items_events(items, indent + 1, f) + (if items.len()
            > 0 {
            break_event(indent)
        } else {
            Seq::empty()
        }) + seq![EventModel::End(lit("array"))],
        SpecValue::Dictionary(ps) => seq![EventModel::Start(lit("dict"))] + pairs_events(ps, indent, f) + (if ps.len() > 0 {
            break_event(indent)
        } else {
            Seq::empty()
        }) + seq![EventModel::End(lit("dict"))],
        _ => Seq::empty(),
    }
}

/// The events of the items of an array, each on a new line at nesting
/// `indent`.
pub open spec fn items_events<F: Fn(u64) -> String>(items: Seq<SpecValue>, indent: nat, f: F) -> Seq<EventModel>
    decreases items, 0nat,
{
    if items.len() == 0 {
        Seq::empty()
    } else {
        items_events(items.subrange(0, items.len() - 1), indent, f) + break_event(indent) + value_events(
            items[items.len() - 1],
            indent,
            f,
        )
    }
}

/// The events of the pairs of a dictionary at nesting `indent`: each key
/// element on a new line, then the value on the next.
pub open spec fn pairs_events<F: Fn(u64) -> String>(ps: Seq<(SpecValue, SpecValue)>, indent: nat, f: F) -> Seq<EventModel>
    decreases ps, 0nat,
{
    if ps.len() == 0 {
        Seq::empty()
    } else {
        let p = ps[ps.len() - 1];
        pairs_events(ps.subrange(0, ps.len() - 1), indent, f) + break_event(indent + 1) + element_events(
            lit("key"),
            key_chars(p.0, f),
        ) + break_event(indent + 1) + value_events(p.1, indent + 1, f)
    }
}

/// The events that a reader yields for the document written for `v`, up
/// to `</plist>`: the XML declaration, the document type, `<plist>`, the
/// value, each after a line break.
pub open spec fn document_events<F: Fn(u64) -> String>(v: SpecValue, f: F) -> Seq<EventModel> {
    seq![EventModel::Other] + break_event(0) + seq![EventModel::Other] + break_event(0) + seq![
        EventModel::Start(lit("plist")),
    ] + break_event(0) + value_events(v, 0, f) + break_event(0) + seq![EventModel::End(lit("plist"))]
}

// ── What reads back ─────────────────────────────────────────────────────────

/// Whether `pf` reads the text that `rf` writes for the real `b`, trimmed,
/// back as `b`.
pub open spec fn real_reads_back<F: Fn(u64) -> String, G: Fn(&str) -> Option<u64>>(rf: F, pf: G, b: u64) -> bool {
    parsed_by(pf, trimmed(text_of(rf, b))) == Some(b)
}

/// Whether the base64 text of `d` decodes back to `d`.
pub open spec fn data_reads_back(d: Seq<u8>) -> bool {
    base64_decoded(encode_utf8(base64_of(d))) == Some(d)
}

/// Base64 text holds no white space.
proof fn lemma_base64_plain(d: Seq<u8>)
    ensures
        forall|k: int| 0 <= k < base64_of(d).len() ==> !is_ascii_white(#[trigger] base64_of(d)[k]),
    decreases d.len(),
{
    assert forall|v: int| 0 <= v < 64 implies !is_ascii_white(#[trigger] base64_char(v)) by {}
    if d.len() >= 3 {
        lemma_base64_plain(d.skip(3));
        let n = d[0] * 65536 + d[1] * 256 + d[2];
        let head = seq![
            base64_char(n / 262144),
            base64_char((n / 4096) % 64),
            base64_char((n / 64) % 64),
            base64_char(n % 64),
        ];
        assert(base64_of(d) == head + base64_of(d.skip(3)));
        assert forall|k: int| 0 <= k < base64_of(d).len() implies !is_ascii_white(#[trigger] base64_of(d)[k]) by {
            if k < 4 {
                assert(base64_of(d)[k] == head[k]);
            } else {
                assert(base64_of(d)[k] == base64_of(d.skip(3))[k - 4]);
            }
        }
    } else if d.len() > 0 {
        let n: int = if d.len() == 1 { d[0] * 65536 } else { d[0] * 65536 + d[1] * 256 };
        assert(0 <= n / 262144 < 64);
    }
}

/// Whether the date `d` is a whole number of seconds whose year has four
/// characters (-999 to 9999), so that its ISO 8601 text reads back as it.
pub open spec fn date_reads_back(d: u64) -> bool {
    let u = f64_trunc(d) + APPLE_EPOCH_UNIX;
    &&& i64::MIN <= u <= i64::MAX
    &&& -999 <= calendar_of(u).0 <= 9999
    &&& i64_to_f64_bits(f64_trunc(d) as int) == d
}

/// Whether everything in `v` reads back as written: no `Null`, `Uid` or
/// `Set`; keys that are strings; reals, data and dates as above.
pub open spec fn reads_back<F: Fn(u64) -> String, G: Fn(&str) -> Option<u64>>(v: SpecValue, rf: F, pf: G) -> bool
    decreases v,
{
    match v {
        SpecValue::String(_) => true,
        SpecValue::Integer(_) => true,
        SpecValue::Bool(_) => true,
        SpecValue::Real(b) => real_reads_back(rf, pf, b),
        SpecValue::Data(d) => data_reads_back(d),
        SpecValue::Date(d) => date_reads_back(d),
        SpecValue::Array(items) => forall|j: int| 0 <= j < items.len() ==> reads_back(#[trigger] items[j], rf, pf),
        SpecValue::Dictionary(ps) => forall|j: int|
            0 <= j < ps.len() ==> {
                &&& (#[trigger] ps[j]).0 is String
                &&& reads_back(ps[j].1, rf, pf)
            },
        _ => false,
    }
}

// ── Escaped text ────────────────────────────────────────────────────────────

/// `c` before the characters of `r`, if there are any.
pub open spec fn prepend_char(c: char, r: Option<Seq<char>>) -> Option<Seq<char>> {
    match r {
        Some(t) => Some(seq![c] + t),
        None => None,
    }
}

/// The characters that the XML character data `t` stands for: each of the
/// entities `&amp;`, `&lt;`, `&gt;`, `&quot;` and `&apos;` replaced by its
/// character; none where `t` holds a `<`, or an `&` that begins no entity
/// (text that is not well-formed XML).
pub open spec fn xml_unescape(t: Seq<char>) -> Option<Seq<char>>
    decreases t.len(),
{
    if t.len() == 0 {
        Some(Seq::empty())
    } else if t[0] == '<' {
        None
    } else if t[0] == '&' {
        if t.len() >= 5 && t.take(5) == "&amp;"@ {
            prepend_char('&', xml_unescape(t.skip(5)))
        } else if t.len() >= 4 && t.take(4) == "&lt;"@ {
            prepend_char('<', xml_unescape(t.skip(4)))
        } else if t.len() >= 4 && t.take(4) == "&gt;"@ {
            prepend_char('>', xml_unescape(t.skip(4)))
        } else if t.len() >= 6 && t.take(6) == "&quot;"@ {
            prepend_char('"', xml_unescape(t.skip(6)))
        } else if t.len() >= 6 && t.take(6) == "&apos;"@ {
            prepend_char('\'', xml_unescape(t.skip(6)))
        } else {
            None
        }
    } else {
        prepend_char(t[0], xml_unescape(t.skip(1)))
    }
}

/// Escaping works character by character, from the front too.
proof fn lemma_escaped_front(c: char, s: Seq<char>)
    ensures
        escaped(seq![c] + s) == escape_char(c) + escaped(s),
    decreases s.len(),
{
    if s.len() == 0 {
        assert(seq![c] + s =~= seq![c]);
        assert(seq![c].drop_last() =~= Seq::<char>::empty());
        assert(seq![c].last() == c);
        assert(escaped(Seq::<char>::empty()) == Seq::<char>::empty());
        assert(escaped(seq![c]) == escaped(Seq::<char>::empty()) + escape_char(c));
        assert(escape_char(c) + escaped(s) =~= escape_char(c));
        assert(Seq::<char>::empty() + escape_char(c) =~= escape_char(c));
    } else {
        lemma_escaped_front(c, s.drop_last());
        assert((seq![c] + s).drop_last() =~= seq![c] + s.drop_last());
        assert((seq![c] + s).last() == s.last());
        assert(escape_char(c) + escaped(s.drop_last()) + escape_char(s.last()) =~= escape_char(c) + (escaped(
            s.drop_last(),
        ) + escape_char(s.last())));
    }
}

/// The escape of one character, read back, is that character.
proof fn lemma_unescape_char(c: char, rest: Seq<char>)
    ensures
        xml_unescape(escape_char(c) + rest) == prepend_char(c, xml_unescape(rest)),
{
    reveal_strlit("&amp;");
    reveal_strlit("&lt;");
    reveal_strlit("&gt;");
    reveal_strlit("&quot;");
    reveal_strlit("&apos;");
    let t = escape_char(c) + rest;
    if c == '&' {
        assert(t.take(5) =~= "&amp;"@);
        assert(t.skip(5) =~= rest);
    } else if c == '<' {
        assert(t[1] == 'l');
        assert(t.take(4) =~= "&lt;"@);
        assert(t.skip(4) =~= rest);
    } else if c == '>' {
        assert(t[1] == 'g');
        assert(t.take(4) =~= "&gt;"@);
        assert(t.skip(4) =~= rest);
    } else if c == '"' {
        assert(t[1] == 'q');
        assert(t.take(6) =~= "&quot;"@);
        assert(t.skip(6) =~= rest);
    } else if c == '\'' {
        assert(t[1] == 'a' && t[2] == 'p');
        assert(t.take(6) =~= "&apos;"@);
        assert(t.skip(6) =~= rest);
    } else {
        assert(t[0] == c);
        assert(t.skip(1) =~= rest);
    }
}

/// Escaped text, read back as XML character data, is the text.
pub proof fn lemma_unescape_escaped(s: Seq<char>)
    ensures
        xml_unescape(escaped(s)) == Some(s),
    decreases s.len(),
{
    if s.len() > 0 {
        assert(s =~= seq![s[0]] + s.skip(1));
        lemma_escaped_front(s[0], s.skip(1));
        lemma_unescape_char(s[0], escaped(s.skip(1)));
        lemma_unescape_escaped(s.skip(1));
    }
}

/// A dictionary key is written escaped just as a string value is: in the
/// XML written for a dictionary of one pair whose key is the string `k`,
/// the text between `<key>` and `</key>` is the text between `<string>`
/// and `</string>` written for `k`, and that text, read as XML character
/// data, stands for `k`.
pub proof fn lemma_key_escaped<F: Fn(u64) -> String>(k: Seq<char>, v: SpecValue, indent: nat, f: F)
    requires
        xml_value(v, indent + 1, f).1 is None,
    ensures
        xml_value(SpecValue::Dictionary(seq![(SpecValue::String(k), v)]), indent, f) == (tabs(indent) + "<dict>"@
            + "\n"@ + tabs(indent) + "\t<key>"@ + escaped(k) + "</key>\n"@ + xml_value(v, indent + 1, f).0 + "\n"@ + tabs(
            indent,
        ) + "</dict>"@, None::<Seq<char>>),
        xml_value(SpecValue::String(k), indent, f).0 == tabs(indent) + "<string>"@ + escaped(k) + "</string>"@,
        xml_unescape(escaped(k)) == Some(k),
{
    let ps = seq![(SpecValue::String(k), v)];
    assert(ps.subrange(0, 0) =~= Seq::<(SpecValue, SpecValue)>::empty());
    let u = xml_value(v, indent + 1, f).0;
    let t = Seq::<char>::empty() + "\n"@ + tabs(indent) + "\t<key>"@ + escaped(k) + "</key>\n"@ + u;
    assert(xml_pairs(Seq::<(SpecValue, SpecValue)>::empty(), indent, f) == (Seq::<char>::empty(), None::<Seq<char>>));
    assert(ps[ps.len() - 1] == (SpecValue::String(k), v));
    assert(crate::xplist::writer::key_text(SpecValue::String(k), f) == escaped(k));
    assert(xml_pairs(ps, indent, f) == (t, None::<Seq<char>>));
    assert(tabs(indent) + "<dict>"@ + t + ("\n"@ + tabs(indent)) + "</dict>"@ =~= tabs(indent) + "<dict>"@ + "\n"@
        + tabs(indent) + "\t<key>"@ + escaped(k) + "</key>\n"@ + u + "\n"@ + tabs(indent) + "</dict>"@);
    lemma_unescape_escaped(k);
}

// ── Running the parser over events ──────────────────────────────────────────

/// The state after the events `evs` from `st`.
pub open spec fn steps<G: Fn(&str) -> Option<u64>>(st: SpecState, evs: Seq<EventModel>, f: G) -> SpecState
    decreases evs.len(),
{
    if evs.len() == 0 {
        st
    } else {
        steps(spec_step(st, evs[0], f), evs.drop_first(), f)
    }
}

proof fn lemma_steps_concat<G: Fn(&str) -> Option<u64>>(st: SpecState, a: Seq<EventModel>, b: Seq<EventModel>, f: G)
    ensures
        steps(st, a + b, f) == steps(steps(st, a, f), b, f),
    decreases a.len(),
{
    if a.len() == 0 {
        assert(a + b =~= b);
    } else {
        assert((a + b).drop_first() =~= a.drop_first() + b);
        assert((a + b)[0] == a[0]);
        lemma_steps_concat(spec_step(st, a[0], f), a.drop_first(), b, f);
    }
}

proof fn lemma_steps_one<G: Fn(&str) -> Option<u64>>(st: SpecState, e: EventModel, f: G)
    ensures
        steps(st, seq![e], f) == spec_step(st, e, f),
{
    assert(seq![e].drop_first() =~= Seq::<EventModel>::empty());
    assert(seq![e][0] == e);
    assert(steps(spec_step(st, e, f), Seq::<EventModel>::empty(), f) == spec_step(st, e, f));
}

/// Events that each leave `st` as it is leave it as it is.
proof fn lemma_pass<G: Fn(&str) -> Option<u64>>(st: SpecState, evs: Seq<EventModel>, f: G)
    requires
        forall|k: int| 0 <= k < evs.len() ==> spec_step(st, #[trigger] evs[k], f) == st,
    ensures
        steps(st, evs, f) == st,
    decreases evs.len(),
{
    if evs.len() > 0 {
        assert forall|k: int| 0 <= k < evs.drop_first().len() implies spec_step(st, #[trigger] evs.drop_first()[k], f)
            == st by {
            assert(evs.drop_first()[k] == evs[k + 1]);
        }
        lemma_pass(st, evs.drop_first(), f);
    }
}

/// The text between elements is passed over: before the root, at the
/// start of a value, inside an array or a dictionary, and after the value.
proof fn lemma_break<G: Fn(&str) -> Option<u64>>(st: SpecState, indent: nat, f: G)
    requires
        st.mode is Value || st.mode is Prolog || st.mode is Epilog || (st.mode is Collection && st.stack.len() > 0
            && !(st.stack.last() is DictValue)),
    ensures
        steps(st, break_event(indent), f) == st,
{
    lemma_steps_one(st, EventModel::Text(Some("\n"@ + tabs(indent))), f);
}

/// Ready to read a value at depth `d` that completes into `stack`: at the
/// start of a value, or inside an array opened at depth `d - 1`.
pub open spec fn ready(st: SpecState, stack: Seq<SpecFrame>, d: nat) -> bool {
    &&& st.stack == stack
    &&& (st.mode == SpecMode::Value(d) || (st.mode == SpecMode::Collection && stack.len() > 0
        && stack.last() is Array && stack.last()->Array_1 + 1 == d))
}

/// A start tag read when ready opens the element at depth `d`.
proof fn lemma_ready_start<G: Fn(&str) -> Option<u64>>(st: SpecState, stack: Seq<SpecFrame>, d: nat, name: Seq<u8>, f: G)
    requires
        ready(st, stack, d),
    ensures
        spec_step(st, EventModel::Start(name), f) == start_element(stack, name, d),
{
}

/// An empty element `<name/>` reads as the same element written with a
/// start tag and an end tag and nothing between them: for `true`, `false`,
/// `string`, `array` and `dict`, wherever a value may start (the root
/// value, a dictionary's value, an array's item).
pub proof fn lemma_empty_element<G: Fn(&str) -> Option<u64>>(
    st: SpecState,
    stack: Seq<SpecFrame>,
    d: nat,
    name: Seq<u8>,
    f: G,
)
    requires
        ready(st, stack, d),
        name == lit("true") || name == lit("false") || name == lit("string") || name == lit("array") || name == lit(
            "dict",
        ),
    ensures
        spec_step(st, EventModel::Empty(name), f) == steps(
            st,
            seq![EventModel::Start(name), EventModel::End(name)],
            f,
        ),
{
    lemma_tags();
    let s1 = start_element(stack, name, d);
    lemma_ready_start(st, stack, d, name, f);
    assert(seq![EventModel::Start(name), EventModel::End(name)] =~= seq![EventModel::Start(name)] + seq![
        EventModel::End(name),
    ]);
    lemma_steps_concat(st, seq![EventModel::Start(name)], seq![EventModel::End(name)], f);
    lemma_steps_one(st, EventModel::Start(name), f);
    lemma_steps_one(s1, EventModel::End(name), f);
    let v = if name == lit("true") {
        SpecValue::Bool(true)
    } else if name == lit("false") {
        SpecValue::Bool(false)
    } else if name == lit("string") {
        SpecValue::String(Seq::empty())
    } else if name == lit("array") {
        SpecValue::Array(Seq::empty())
    } else {
        SpecValue::Dictionary(Seq::empty())
    };
    assert(crate::xplist::parser::empty_value(name) == Ok::<SpecValue, SpecXmlError>(v));
    if name == lit("array") {
        assert(stack.push(SpecFrame::Array(Seq::empty(), d)).drop_last() =~= stack);
    } else if name == lit("dict") {
        assert(stack.push(SpecFrame::Dict(Seq::empty(), d)).drop_last() =~= stack);
    } else if name == lit("string") {
        assert(text_value(TextKind::String, Seq::empty(), f) == Ok::<SpecValue, SpecXmlError>(v));
    }
    assert(spec_step(s1, EventModel::End(name), f) == deliver(stack, v));
    assert(spec_step(st, EventModel::Empty(name), f) == deliver(stack, v));
}

/// The text of an element, then its end tag: the element's value is
/// delivered.
proof fn lemma_text_then_end<G: Fn(&str) -> Option<u64>>(
    stack: Seq<SpecFrame>,
    d: nat,
    name: Seq<u8>,
    kind: TextKind,
    t: Seq<char>,
    f: G,
)
    ensures
        steps(
            SpecState { mode: SpecMode::Text(name, kind, Seq::empty(), d), stack },
            text_events(t) + seq![EventModel::End(name)],
            f,
        ) == crate::xplist::parser::finish(stack, kind, t, f),
{
    let s0 = SpecState { mode: SpecMode::Text(name, kind, Seq::empty(), d), stack };
    lemma_steps_concat(s0, text_events(t), seq![EventModel::End(name)], f);
    if t.len() == 0 {
        assert(t =~= Seq::<char>::empty());
        assert(steps(s0, text_events(t), f) == s0);
        lemma_steps_one(s0, EventModel::End(name), f);
    } else {
        lemma_steps_one(s0, EventModel::Text(Some(t)), f);
        let s1 = SpecState { mode: SpecMode::Text(name, kind, Seq::empty() + t, d), stack };
        assert(Seq::empty() + t =~= t);
        assert(steps(s0, text_events(t), f) == s1);
        lemma_steps_one(s1, EventModel::End(name), f);
    }
}

/// A text element read when ready delivers its value.
proof fn lemma_element<G: Fn(&str) -> Option<u64>>(
    st: SpecState,
    stack: Seq<SpecFrame>,
    d: nat,
    name: Seq<u8>,
    kind: TextKind,
    t: Seq<char>,
    w: SpecValue,
    f: G,
)
    requires
        ready(st, stack, d),
        start_element(stack, name, d) == (SpecState { mode: SpecMode::Text(name, kind, Seq::empty(), d), stack }),
        !(kind is Key),
        text_value(kind, t, f) == Ok::<SpecValue, SpecXmlError>(w),
    ensures
        steps(st, element_events(name, t), f) == deliver(stack, w),
{
    let s0 = SpecState { mode: SpecMode::Text(name, kind, Seq::empty(), d), stack };
    lemma_ready_start(st, stack, d, name, f);
    assert(element_events(name, t) =~= seq![EventModel::Start(name)] + (text_events(t) + seq![EventModel::End(name)]));
    lemma_steps_concat(st, seq![EventModel::Start(name)], text_events(t) + seq![EventModel::End(name)], f);
    lemma_steps_one(st, EventModel::Start(name), f);
    lemma_text_then_end(stack, d, name, kind, t, f);
}

/// The UTF-8 of an ASCII text is its characters, byte for byte.
proof fn lemma_ascii_text(s: Seq<char>)
    requires
        is_ascii_chars(s),
    ensures
        encode_utf8(s) == ascii_bytes(s),
{
    broadcast use vstd::utf8::is_ascii_chars_encode_utf8;

    assert(encode_utf8(s) =~= ascii_bytes(s));
}

/// A `<key>` element read inside a dictionary opened at depth `d`: the
/// value of the key comes next, at depth `d + 1`.
proof fn lemma_key_steps<G: Fn(&str) -> Option<u64>>(
    stack: Seq<SpecFrame>,
    d: nat,
    done: Seq<(SpecValue, SpecValue)>,
    k: Seq<char>,
    f: G,
)
    ensures
        steps(
            SpecState { mode: SpecMode::Collection, stack: stack.push(SpecFrame::Dict(done, d)) },
            element_events(lit("key"), k),
            f,
        ) == enter_value(stack.push(SpecFrame::DictValue(done, k, d)), d + 1),
{
    let inner = stack.push(SpecFrame::Dict(done, d));
    let s0 = SpecState { mode: SpecMode::Collection, stack: inner };
    let name = lit("key");
    assert(element_events(name, k) =~= seq![EventModel::Start(name)] + (text_events(k) + seq![EventModel::End(name)]));
    lemma_steps_concat(s0, seq![EventModel::Start(name)], text_events(k) + seq![EventModel::End(name)], f);
    lemma_steps_one(s0, EventModel::Start(name), f);
    assert(spec_step(s0, EventModel::Start(name), f) == (SpecState {
        mode: SpecMode::Text(name, TextKind::Key, Seq::empty(), d),
        stack: inner,
    }));
    lemma_text_then_end(inner, d, name, TextKind::Key, k, f);
    assert(inner.drop_last() =~= stack);
}

/// A value read when ready is delivered into the stack.
proof fn lemma_value_steps<F: Fn(u64) -> String, G: Fn(&str) -> Option<u64>>(
    v: SpecValue,
    indent: nat,
    rf: F,
    pf: G,
    st: SpecState,
    stack: Seq<SpecFrame>,
    d: nat,
)
    requires
        ready(st, stack, d),
        reads_back(v, rf, pf),
        d + height(v) <= MAX_DEPTH,
    ensures
        steps(st, value_events(v, indent, rf), pf) == deliver(stack, v),
    decreases v, 1nat,
{
    lemma_tags();
    match v {
        SpecValue::String(s) => {
            lemma_element(st, stack, d, lit("string"), TextKind::String, s, v, pf);
        },
        SpecValue::Integer(i) => {
            lemma_int_text(i);
            lemma_untrimmed(int_text(i));
            lemma_ascii_text(int_text(i));
            lemma_element(st, stack, d, lit("integer"), TextKind::Integer, int_text(i), v, pf);
        },
        SpecValue::Real(b) => {
            lemma_element(st, stack, d, lit("real"), TextKind::Real, text_of(rf, b), v, pf);
        },
        SpecValue::Bool(b) => {
            let n = if b { lit("true") } else { lit("false") };
            lemma_steps_one(st, EventModel::Empty(n), pf);
        },
        SpecValue::Data(dd) => {
            reveal_strlit("\n");
            lemma_base64_plain(dd);
            let enc = base64_of(dd);
            let pad = tabs(indent);
            let tail: Seq<char> = if enc.len() > 0 { "\n"@ + pad } else { Seq::empty() };
            let t = data_text(dd, indent);
            lemma_strip_concat(data_lines(enc, pad), tail);
            lemma_strip_data_lines(enc, pad);
            lemma_strip_plain(tail);
            assert(enc + Seq::<char>::empty() =~= enc);
            assert(strip_ascii_white(t) == enc);
            lemma_element(st, stack, d, lit("data"), TextKind::Data, t, v, pf);
        },
        SpecValue::Date(dd) => {
            lemma_iso_roundtrip(dd);
            let t = iso_text(calendar_of(apple_to_unix(dd) as int));
            lemma_untrimmed(t);
            lemma_element(st, stack, d, lit("date"), TextKind::Date, t, v, pf);
        },
        SpecValue::Array(items) => {
            let inner = stack.push(SpecFrame::Array(Seq::empty(), d));
            let s1 = SpecState { mode: SpecMode::Collection, stack: inner };
            lemma_ready_start(st, stack, d, lit("array"), pf);
            assert forall|j: int| 0 <= j < items.len() implies reads_back(#[trigger] items[j], rf, pf) && d + 1
                + height(items[j]) <= MAX_DEPTH by {
                lemma_height_child(v, j);
            }
            lemma_items_steps(items, indent + 1, rf, pf, stack, d, Seq::empty());
            let s2 = SpecState {
                mode: SpecMode::Collection,
                stack: stack.push(SpecFrame::Array(Seq::empty() + items, d)),
            };
            assert(Seq::<SpecValue>::empty() + items =~= items);
            let evs = value_events(v, indent, rf);
            let mid = items_events(items, indent + 1, rf);
            let tb: Seq<EventModel> = if items.len() > 0 { break_event(indent) } else { Seq::empty() };
            let end = seq![EventModel::End(lit("array"))];
            assert(evs =~= seq![EventModel::Start(lit("array"))] + (mid + (tb + end)));
            lemma_steps_concat(st, seq![EventModel::Start(lit("array"))], mid + (tb + end), pf);
            lemma_steps_one(st, EventModel::Start(lit("array")), pf);
            lemma_steps_concat(s1, mid, tb + end, pf);
            lemma_steps_concat(s2, tb, end, pf);
            if items.len() > 0 {
                lemma_break(s2, indent, pf);
            }
            lemma_steps_one(s2, EventModel::End(lit("array")), pf);
            assert(stack.push(SpecFrame::Array(items, d)).drop_last() =~= stack);
        },
        SpecValue::Dictionary(ps) => {
            let inner = stack.push(SpecFrame::Dict(Seq::empty(), d));
            let s1 = SpecState { mode: SpecMode::Collection, stack: inner };
            lemma_ready_start(st, stack, d, lit("dict"), pf);
            assert forall|j: int| 0 <= j < ps.len() implies d + 1 + height((#[trigger] ps[j]).1) <= MAX_DEPTH by {
                lemma_height_child(v, ps.len() + j);
                assert(children(v)[ps.len() + j] == ps[j].1);
            }
            lemma_pairs_steps(ps, indent, rf, pf, stack, d, Seq::empty());
            let s2 = SpecState {
                mode: SpecMode::Collection,
                stack: stack.push(SpecFrame::Dict(Seq::empty() + ps, d)),
            };
            assert(Seq::<(SpecValue, SpecValue)>::empty() + ps =~= ps);
            let evs = value_events(v, indent, rf);
            let mid = pairs_events(ps, indent, rf);
            let tb: Seq<EventModel> = if ps.len() > 0 { break_event(indent) } else { Seq::empty() };
            let end = seq![EventModel::End(lit("dict"))];
            assert(evs =~= seq![EventModel::Start(lit("dict"))] + (mid + (tb + end)));
            lemma_steps_concat(st, seq![EventModel::Start(lit("dict"))], mid + (tb + end), pf);
            lemma_steps_one(st, EventModel::Start(lit("dict")), pf);
            lemma_steps_concat(s1, mid, tb + end, pf);
            lemma_steps_concat(s2, tb, end, pf);
            if ps.len() > 0 {
                lemma_break(s2, indent, pf);
            }
            lemma_steps_one(s2, EventModel::End(lit("dict")), pf);
            assert(stack.push(SpecFrame::Dict(ps, d)).drop_last() =~= stack);
        },
        _ => {},
    }
}

/// The items of an array read inside it: they join the array's items.
proof fn lemma_items_steps<F: Fn(u64) -> String, G: Fn(&str) -> Option<u64>>(
    items: Seq<SpecValue>,
    indent: nat,
    rf: F,
    pf: G,
    stack: Seq<SpecFrame>,
    d: nat,
    done: Seq<SpecValue>,
)
    requires
        forall|j: int| 0 <= j < items.len() ==> reads_back(#[trigger] items[j], rf, pf) && d + 1 + height(items[j])
            <= MAX_DEPTH,
    ensures
        steps(
            SpecState { mode: SpecMode::Collection, stack: stack.push(SpecFrame::Array(done, d)) },
            items_events(items, indent, rf),
            pf,
        ) == (SpecState { mode: SpecMode::Collection, stack: stack.push(SpecFrame::Array(done + items, d)) }),
    decreases items, 0nat,
{
    let s0 = SpecState { mode: SpecMode::Collection, stack: stack.push(SpecFrame::Array(done, d)) };
    if items.len() == 0 {
        assert(done + items =~= done);
    } else {
        let n = items.len() - 1;
        let init = items.subrange(0, n);
        assert forall|j: int| 0 <= j < init.len() implies reads_back(#[trigger] init[j], rf, pf) && d + 1 + height(
            init[j],
        ) <= MAX_DEPTH by {
            assert(init[j] == items[j]);
        }
        lemma_items_steps(init, indent, rf, pf, stack, d, done);
        let inner = stack.push(SpecFrame::Array(done + init, d));
        let s1 = SpecState { mode: SpecMode::Collection, stack: inner };
        let ve = value_events(items[n], indent, rf);
        assert(items_events(items, indent, rf) =~= items_events(init, indent, rf) + (break_event(indent) + ve));
        lemma_steps_concat(s0, items_events(init, indent, rf), break_event(indent) + ve, pf);
        lemma_steps_concat(s1, break_event(indent), ve, pf);
        lemma_break(s1, indent, pf);
        lemma_value_steps(items[n], indent, rf, pf, s1, inner, d + 1);
        assert(inner.drop_last() =~= stack);
        assert((done + init).push(items[n]) =~= done + items);
    }
}

/// The pairs of a dictionary read inside it: they join its pairs.
proof fn lemma_pairs_steps<F: Fn(u64) -> String, G: Fn(&str) -> Option<u64>>(
    ps: Seq<(SpecValue, SpecValue)>,
    indent: nat,
    rf: F,
    pf: G,
    stack: Seq<SpecFrame>,
    d: nat,
    done: Seq<(SpecValue, SpecValue)>,
)
    requires
        forall|j: int|
            0 <= j < ps.len() ==> {
                &&& (#[trigger] ps[j]).0 is String
                &&& reads_back(ps[j].1, rf, pf)
                &&& d + 1 + height(ps[j].1) <= MAX_DEPTH
            },
    ensures
        steps(
            SpecState { mode: SpecMode::Collection, stack: stack.push(SpecFrame::Dict(done, d)) },
            pairs_events(ps, indent, rf),
            pf,
        ) == (SpecState { mode: SpecMode::Collection, stack: stack.push(SpecFrame::Dict(done + ps, d)) }),
    decreases ps, 0nat,
{
    let s0 = SpecState { mode: SpecMode::Collection, stack: stack.push(SpecFrame::Dict(done, d)) };
    if ps.len() == 0 {
        assert(done + ps =~= done);
    } else {
        let n = ps.len() - 1;
        let init = ps.subrange(0, n);
        assert forall|j: int|
            0 <= j < init.len() implies {
                &&& (#[trigger] init[j]).0 is String
                &&& reads_back(init[j].1, rf, pf)
                &&& d + 1 + height(init[j].1) <= MAX_DEPTH
            } by {
            assert(init[j] == ps[j]);
        }
        lemma_pairs_steps(init, indent, rf, pf, stack, d, done);
        let p = ps[n];
        let k = p.0->String_0;
        let s1 = SpecState { mode: SpecMode::Collection, stack: stack.push(SpecFrame::Dict(done + init, d)) };
        let key_evs = element_events(lit("key"), key_chars(p.0, rf));
        let val_evs = value_events(p.1, indent + 1, rf);
        let brk = break_event(indent + 1);
        assert(pairs_events(ps, indent, rf) =~= pairs_events(init, indent, rf) + (brk + (key_evs + (brk + val_evs))));
        lemma_steps_concat(s0, pairs_events(init, indent, rf), brk + (key_evs + (brk + val_evs)), pf);
        lemma_steps_concat(s1, brk, key_evs + (brk + val_evs), pf);
        lemma_break(s1, indent + 1, pf);
        lemma_steps_concat(s1, key_evs, brk + val_evs, pf);
        lemma_key_steps(stack, d, done + init, k, pf);
        let inner = stack.push(SpecFrame::DictValue(done + init, k, d));
        let s2 = SpecState { mode: SpecMode::Value(d + 1), stack: inner };
        assert(enter_value(inner, d + 1) == s2);
        lemma_steps_concat(s2, brk, val_evs, pf);
        lemma_break(s2, indent + 1, pf);
        lemma_value_steps(p.1, indent + 1, rf, pf, s2, inner, d + 1);
        assert(inner.drop_last() =~= stack);
        assert((SpecValue::String(k), p.1) == p);
        assert((done + init).push(p) =~= done + ps);
    }
}

/// Running the parser over input whose events are `evs` ends as stepping
/// through `evs` does, when that ends the parse within the event budget.
proof fn lemma_run_steps<G: Fn(&str) -> Option<u64>>(input: Seq<u8>, i: nat, st: SpecState, evs: Seq<EventModel>, f: G)
    requires
        forall|k: int| 0 <= k < evs.len() ==> xml_event(input, (i + k) as nat) == #[trigger] evs[k],
        i + evs.len() <= input.len() + 1,
        input.len() < usize::MAX,
        steps(st, evs, f).mode is Done,
    ensures
        run(input, i, st, f) == steps(st, evs, f).mode->Done_0,
    decreases evs.len(),
{
    if st.mode is Done {
        lemma_steps_done(st, evs, f);
    } else {
        assert(evs.len() > 0);
        assert(xml_event(input, (i + 0) as nat) == evs[0]);
        assert forall|k: int| 0 <= k < evs.drop_first().len() implies xml_event(input, (i + 1 + k) as nat)
            == #[trigger] evs.drop_first()[k] by {
            assert(xml_event(input, (i + (k + 1)) as nat) == evs[k + 1]);
        }
        lemma_run_steps(input, i + 1, spec_step(st, evs[0], f), evs.drop_first(), f);
    }
}

/// A finished parse stays finished.
proof fn lemma_steps_done<G: Fn(&str) -> Option<u64>>(st: SpecState, evs: Seq<EventModel>, f: G)
    requires
        st.mode is Done,
    ensures
        steps(st, evs, f) == st,
    decreases evs.len(),
{
    if evs.len() > 0 {
        lemma_steps_done(st, evs.drop_first(), f);
    }
}

/// UTF-8 takes at least a byte per character.
proof fn lemma_encode_len(s: Seq<char>)
    ensures
        encode_utf8(s).len() >= s.len(),
    decreases s.len(),
{
    if s.len() > 0 {
        lemma_encode_len(s.drop_first());
    }
}

/// A value that reads back is written whole, in at least as many
/// characters as a reader yields events for it.
proof fn lemma_events_len<F: Fn(u64) -> String, G: Fn(&str) -> Option<u64>>(v: SpecValue, indent: nat, rf: F, pf: G)
    requires
        reads_back(v, rf, pf),
    ensures
        xml_value(v, indent, rf).1 is None,
        value_events(v, indent, rf).len() <= xml_value(v, indent, rf).0.len(),
    decreases v, 1nat,
{
    match v {
        SpecValue::String(_) => {
            reveal_strlit("<string>");
        },
        SpecValue::Integer(_) => {
            reveal_strlit("<integer>");
        },
        SpecValue::Real(_) => {
            reveal_strlit("<real>");
        },
        SpecValue::Bool(_) => {
            reveal_strlit("<true/>");
            reveal_strlit("<false/>");
        },
        SpecValue::Data(_) => {
            reveal_strlit("<data>");
        },
        SpecValue::Date(_) => {
            reveal_strlit("<date>");
        },
        SpecValue::Array(items) => {
            reveal_strlit("<array>");
            lemma_items_len(items, indent + 1, rf, pf);
        },
        SpecValue::Dictionary(ps) => {
            reveal_strlit("<dict>");
            lemma_pairs_len(ps, indent, rf, pf);
        },
        _ => {},
    }
}

proof fn lemma_items_len<F: Fn(u64) -> String, G: Fn(&str) -> Option<u64>>(
    items: Seq<SpecValue>,
    indent: nat,
    rf: F,
    pf: G,
)
    requires
        forall|j: int| 0 <= j < items.len() ==> reads_back(#[trigger] items[j], rf, pf),
    ensures
        xml_items(items, indent, rf).1 is None,
        items_events(items, indent, rf).len() <= xml_items(items, indent, rf).0.len(),
    decreases items, 0nat,
{
    if items.len() > 0 {
        reveal_strlit("\n");
        let n = items.len() - 1;
        let init = items.subrange(0, n);
        assert forall|j: int| 0 <= j < init.len() implies reads_back(#[trigger] init[j], rf, pf) by {
            assert(init[j] == items[j]);
        }
        lemma_items_len(init, indent, rf, pf);
        lemma_events_len(items[n], indent, rf, pf);
    }
}

proof fn lemma_pairs_len<F: Fn(u64) -> String, G: Fn(&str) -> Option<u64>>(
    ps: Seq<(SpecValue, SpecValue)>,
    indent: nat,
    rf: F,
    pf: G,
)
    requires
        forall|j: int| 0 <= j < ps.len() ==> reads_back((#[trigger] ps[j]).1, rf, pf),
    ensures
        xml_pairs(ps, indent, rf).1 is None,
        pairs_events(ps, indent, rf).len() <= xml_pairs(ps, indent, rf).0.len(),
    decreases ps, 0nat,
{
    if ps.len() > 0 {
        reveal_strlit("\n");
        reveal_strlit("\t<key>");
        reveal_strlit("</key>\n");
        let n = ps.len() - 1;
        let init = ps.subrange(0, n);
        assert forall|j: int| 0 <= j < init.len() implies reads_back((#[trigger] init[j]).1, rf, pf) by {
            assert(init[j] == ps[j]);
        }
        lemma_pairs_len(init, indent, rf, pf);
        lemma_events_len(ps[n].1, indent + 1, rf, pf);
    }
}

/// Parsing what the XML writer writes gives back the value, given that the
/// XML reader yields, for the written document, the events its elements
/// and their texts denote (`document_events`): for every value that reads
/// back as written (`reads_back`) and is nested no deeper than the parser's
/// limit, the writer writes it whole and the parser returns it.
pub proof fn lemma_parse_write_xml<F: Fn(u64) -> String, G: Fn(&str) -> Option<u64>>(v: SpecValue, rf: F, pf: G)
    requires
        reads_back(v, rf, pf),
        height(v) <= MAX_DEPTH,
        encode_utf8(xml_document(v, rf).0).len() < usize::MAX,
        forall|k: int|
            0 <= k < document_events(v, rf).len() ==> xml_event(encode_utf8(xml_document(v, rf).0), k as nat)
                == #[trigger] document_events(v, rf)[k],
    ensures
        xml_document(v, rf).1 is None,
        spec_parse_xml(encode_utf8(xml_document(v, rf).0), pf) == Ok::<SpecValue, SpecXmlError>(v),
{
    let input = encode_utf8(xml_document(v, rf).0);
    let evs = document_events(v, rf);
    lemma_tags();
    lemma_events_len(v, 0, rf, pf);
    reveal_strlit("<plist version=\"1.0\">\n");
    lemma_encode_len(xml_document(v, rf).0);
    assert(evs.len() <= input.len() + 1);
    let s0 = SpecState { mode: SpecMode::Prolog, stack: Seq::empty() };
    let s1 = SpecState { mode: SpecMode::Value(0), stack: Seq::empty() };
    let s2 = SpecState { mode: SpecMode::Epilog(v), stack: Seq::empty() };
    let brk = break_event(0);
    let prolog = seq![EventModel::Other] + brk + seq![EventModel::Other] + brk;
    let start = seq![EventModel::Start(lit("plist"))];
    let mid = value_events(v, 0, rf);
    let end = seq![EventModel::End(lit("plist"))];
    assert(evs =~= prolog + (start + (brk + (mid + (brk + end)))));
    assert forall|k: int| 0 <= k < prolog.len() implies spec_step(s0, #[trigger] prolog[k], pf) == s0 by {
        assert(prolog[k] == EventModel::Other || prolog[k] == EventModel::Text(Some("\n"@ + tabs(0))));
    }
    lemma_pass(s0, prolog, pf);
    lemma_steps_concat(s0, prolog, start + (brk + (mid + (brk + end))), pf);
    lemma_steps_concat(s0, start, brk + (mid + (brk + end)), pf);
    lemma_steps_one(s0, EventModel::Start(lit("plist")), pf);
    lemma_steps_concat(s1, brk, mid + (brk + end), pf);
    lemma_break(s1, 0, pf);
    lemma_steps_concat(s1, mid, brk + end, pf);
    lemma_value_steps(v, 0, rf, pf, s1, Seq::empty(), 0);
    lemma_steps_concat(s2, brk, end, pf);
    lemma_break(s2, 0, pf);
    lemma_steps_one(s2, EventModel::End(lit("plist")), pf);
    lemma_run_steps(input, 0, s0, evs, pf);
}

} // verus!
