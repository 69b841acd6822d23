//! XML property list serializer: Apple's `plist-1.0` DTD layout with tab
//! indentation, XML-escaped strings, base64 data wrapped at 68 characters
//! per line, and ISO 8601 dates.
use vstd::prelude::*;
use vstd::string::*;
use vstd::utf8::encode_utf8;

use crate::bplist::parser::IoErrorKind;
use crate::bplist::writer::{byte_len, extend_bytes};
use crate::display::{display_text, int_text, push_int};
use crate::reals::{deterministic_text, real_text, text_of};
use crate::text::chars_of;
use crate::unicode::push_char;
use crate::value::{pair_views, views, SpecValue, Value};
use crate::xplist::date::{apple_epoch_to_iso8601, apple_to_unix, calendar_of, iso_text};

verus! {

/// Why writing an XML property list failed.
#[derive(Debug)]
pub enum WriteError {
    /// The underlying writer failed.
    Io(IoErrorKind),
    /// A value that the XML format cannot hold (`Null`, `Uid`, `Set`).
    UnsupportedType(&'static str),
}

// ── base64 ──────────────────────────────────────────────────────────────────

/// The character of the standard base64 alphabet for the six bits `v`:
/// `A`-`Z`, `a`-`z`, `0`-`9`, `+`, `/`.
pub open spec fn base64_char(v: int) -> char {
    if v < 26 {
        (65 + v) as char
    } else if v < 52 {
        (97 + v - 26) as char
    } else if v < 62 {
        (48 + v - 52) as char
    } else if v == 62 {
        '+'
    } else {
        '/'
    }
}

/// The standard base64 encoding of `data`, padded with `=`: each three
/// bytes, as a 24-bit number, become four characters of six bits each,
/// most significant first; a last one or two bytes become two or three
/// characters (the missing bits zero) and one `=` per missing byte.
pub open spec fn base64_of(data: Seq<u8>) -> Seq<char>
    decreases data.len(),
{
    if data.len() == 0 {
        Seq::empty()
    } else if data.len() == 1 {
        let n = data[0] * 65536;
        seq![base64_char(n / 262144), base64_char((n / 4096) % 64), '=', '=']
    } else if data.len() == 2 {
        let n = data[0] * 65536 + data[1] * 256;
        seq![base64_char(n / 262144), base64_char((n / 4096) % 64), base64_char((n / 64) % 64), '=']
    } else {
        let n = data[0] * 65536 + data[1] * 256 + data[2];
        seq![
            base64_char(n / 262144),
            base64_char((n / 4096) % 64),
            base64_char((n / 64) % 64),
            base64_char(n % 64),
        ] + base64_of(data.skip(3))
    }
}

/// The length of the standard padded base64 encoding of `n` bytes.
pub open spec fn base64_len(n: nat) -> nat {
    (n / 3) * 4 + if n % 3 > 0 { 4nat } else { 0nat }
}

/// `base64::engine::general_purpose::STANDARD.encode`: the standard padded
/// base64 encoding, made of ASCII characters of the base64 alphabet.  It
/// panics when the encoded length overflows `usize`.
#[verifier::external_body]
fn base64_encode(data: &[u8]) -> (r: String)
    requires
        base64_len(data@.len()) <= usize::MAX,
    ensures
        r@ == base64_of(data@),
        vstd::utf8::is_ascii_chars(r@),
{
    base64::Engine::encode(&base64::engine::general_purpose::STANDARD, data)
}

// ── Text of the document ────────────────────────────────────────────────────

/// `n` tabs.
pub open spec fn tabs(n: nat) -> Seq<char> {
    Seq::new(n, |i: int| '\t')
}

/// A character with the XML special characters escaped.
pub open spec fn escape_char(c: char) -> Seq<char> {
    if c == '&' {
        "&amp;"@
    } else if c == '<' {
        "&lt;"@
    } else if c == '>' {
        "&gt;"@
    } else if c == '"' {
        "&quot;"@
    } else if c == '\'' {
        "&apos;"@
    } else {
        seq![c]
    }
}

/// `s` with the XML special characters escaped.
pub open spec fn escaped(s: Seq<char>) -> Seq<char>
    decreases s.len(),
{
    if s.len() == 0 {
        Seq::empty()
    } else {
        escaped(s.drop_last()) + escape_char(s.last())
    }
}

/// The lines of base64 text `enc` in 68-character chunks, each on a new
/// line indented by `pad` and a tab.
pub open spec fn data_lines(enc: Seq<char>, pad: Seq<char>) -> Seq<char>
    decreases enc.len(),
{
    if enc.len() == 0 {
        Seq::empty()
    } else if enc.len() <= 68 {
        "\n"@ + pad + "\t"@ + enc
    } else {
        "\n"@ + pad + "\t"@ + enc.take(68) + data_lines(enc.skip(68), pad)
    }
}

/// The text of a dictionary key: a string escaped, any other value in its
/// one-line rendering.
pub open spec fn key_text<F: Fn(u64) -> String>(k: SpecValue, f: F) -> Seq<char> {
    match k {
        SpecValue::String(s) => escaped(s),
        _ => display_text(k, f),
    }
}

/// The name of the variant that the XML format cannot hold, if `v` is one.
pub open spec fn unsupported(v: SpecValue) -> Option<Seq<char>> {
    match v {
        SpecValue::Null => Some("Null"@),
        SpecValue::Uid(_) => Some("Uid"@),
        SpecValue::UnorderedSet(_) => Some("Set"@),
        _ => None,
    }
}

/// The XML text of `v` at nesting `indent`, and the unsupported variant
/// met, if any (the text then stops where writing stopped).
pub open spec fn xml_value<F: Fn(u64) -> String>(v: SpecValue, indent: nat, f: F) -> (Seq<char>, Option<Seq<char>>)
    decreases v, 1nat,
{
    let pad = tabs(indent);
    match v {
        SpecValue::String(s) => (pad + "<string>"@ + escaped(s) + "</string>"@, None),
        SpecValue::Integer(i) => (pad + "<integer>"@ + int_text(i) + "</integer>"@, None),
        SpecValue::Real(r) => (pad + "<real>"@ + text_of(f, r) + "</real>"@, None),
        SpecValue::Bool(b) => (pad + if b { "<true/>"@ } else { "<false/>"@ }, None),
        SpecValue::Data(d) => {
            let enc = base64_of(d);
            (pad + "<data>"@ + data_lines(enc, pad) + (if enc.len() > 0 { "\n"@ + pad } else { Seq::empty() })
                + "</data>"@, None)
        },
        SpecValue::Date(d) => (pad + "<date>"@ + iso_text(calendar_of(apple_to_unix(d) as int)) + "</date>"@, None),
        SpecValue::Array(items) => {
            let (t, e) = xml_items(items, indent + 1, f);
            if e is Some {
                (pad + "<array>"@ + t, e)
            } else {
                (pad + "<array>"@ + t + (if items.len() > 0 { "\n"@ + pad } else { Seq::empty() }) + "</array>"@, None)
            }
        },
        SpecValue::Dictionary(ps) => {
            let (t, e) = xml_pairs(ps, indent, f);
            if e is Some {
                (pad + "<dict>"@ + t, e)
            } else {
                (pad + "<dict>"@ + t + (if ps.len() > 0 { "\n"@ + pad } else { Seq::empty() }) + "</dict>"@, None)
            }
        },
        _ => (Seq::empty(), unsupported(v)),
    }
}

/// Each of `items` on a new line at nesting `indent`, stopping at the
/// first unsupported variant.
pub open spec fn xml_items<F: Fn(u64) -> String>(items: Seq<SpecValue>, indent: nat, f: F) -> (Seq<char>, Option<Seq<char>>)
    decreases items, 0nat,
{
    if items.len() == 0 {
        (Seq::empty(), None)
    } else {
        let (t, e) = xml_items(items.subrange(0, items.len() - 1), indent, f);
        if e is Some {
            (t, e)
        } else {
            let (u, e2) = xml_value(items[items.len() - 1], indent, f);
            (t + "\n"@ + u, e2)
        }
    }
}

/// Each pair of `ps` of a dictionary at nesting `indent`: its key on a new
/// line, then its value, stopping at the first unsupported variant.
pub open spec fn xml_pairs<F: Fn(u64) -> String>(ps: Seq<(SpecValue, SpecValue)>, indent: nat, f: F) -> (Seq<char>, Option<Seq<char>>)
    decreases ps, 0nat,
{
    if ps.len() == 0 {
        (Seq::empty(), None)
    } else {
        let (t, e) = xml_pairs(ps.subrange(0, ps.len() - 1), indent, f);
        if e is Some {
            (t, e)
        } else {
            let p = ps[ps.len() - 1];
            let (u, e2) = xml_value(p.1, indent + 1, f);
            (t + "\n"@ + tabs(indent) + "\t<key>"@ + key_text(p.0, f) + "</key>\n"@ + u, e2)
        }
    }
}

// ── Writing ─────────────────────────────────────────────────────────────────

/// Appends `s` with the XML special characters escaped.
fn escape_into(out: &mut String, s: &str)
    ensures
        final(out)@ == old(out)@ + escaped(s@),
{
    let cs = chars_of(s);
    let mut k: usize = 0;
    while k < cs.len()
        invariant
            k <= cs@.len(),
            cs@ == s@,
            out@ == old(out)@ + escaped(cs@.take(k as int)),
        decreases cs@.len() - k,
    {
        let c = cs[k];
        assert(cs@.take(k + 1).drop_last() =~= cs@.take(k as int));
        if c == '&' {
            out.append("&amp;");
        } else if c == '<' {
            out.append("&lt;");
        } else if c == '>' {
            out.append("&gt;");
        } else if c == '"' {
            out.append("&quot;");
        } else if c == '\'' {
            out.append("&apos;");
        } else {
            push_char(out, c);
        }
        assert(out@ =~= old(out)@ + escaped(cs@.take(k + 1)));
        k = k + 1;
    }
    assert(cs@.take(k as int) =~= s@);
}

/// Writes `s` with XML special characters escaped (`&amp;`, `&lt;`,
/// `&gt;`, `&quot;`, `&apos;`), as UTF-8.
pub fn write_escaped(w: &mut Vec<u8>, s: &str) -> (res: Result<(), WriteError>)
    ensures
        res is Ok,
        final(w)@ == old(w)@ + encode_utf8(escaped(s@)),
{
    let mut out = String::new();
    escape_into(&mut out, s);
    assert(out@ =~= escaped(s@));
    extend_bytes(w, out.as_str().as_bytes());
    Ok(())
}

/// Appends the 68-character lines of the base64 text `enc`.
fn push_data_lines(out: &mut String, enc: &Vec<char>, pad: &String)
    ensures
        final(out)@ == old(out)@ + data_lines(enc@, pad@),
{
    let mut pos: usize = 0;
    assert(enc@.skip(0) =~= enc@);
    while pos < enc.len()
        invariant
            pos <= enc@.len(),
            out@ + data_lines(enc@.skip(pos as int), pad@) == old(out)@ + data_lines(enc@, pad@),
        decreases enc@.len() - pos,
    {
        let end = if enc.len() - pos <= 68 { enc.len() } else { pos + 68 };
        out.append("\n");
        out.append(pad.as_str());
        out.append("\t");
        let mut k = pos;
        let ghost before = out@;
        while k < end
            invariant
                pos <= k <= end <= enc@.len(),
                out@ == before + enc@.subrange(pos as int, k as int),
            decreases end - k,
        {
            push_char(out, enc[k]);
            assert(out@ =~= before + enc@.subrange(pos as int, k + 1));
            k = k + 1;
        }
        proof {
            let rest = enc@.skip(pos as int);
            if rest.len() <= 68 {
                assert(enc@.subrange(pos as int, end as int) =~= rest);
                assert(enc@.skip(end as int) =~= Seq::<char>::empty());
            } else {
                assert(enc@.subrange(pos as int, end as int) =~= rest.take(68));
                assert(rest.skip(68) =~= enc@.skip(end as int));
            }
        }
        pos = end;
    }
    assert(enc@.skip(pos as int) =~= Seq::<char>::empty());
}

/// The error for an unsupported variant named `name`.
pub open spec fn unsupported_error(r: Result<(), WriteError>, name: Option<Seq<char>>) -> bool {
    match (r, name) {
        (Ok(()), None) => true,
        (Err(WriteError::UnsupportedType(n)), Some(m)) => n@ == m,
        _ => false,
    }
}

/// Once an item is unsupported, the items after it are not written.
proof fn lemma_items_stop<F: Fn(u64) -> String>(items: Seq<SpecValue>, j: int, indent: nat, f: F)
    requires
        0 <= j <= items.len(),
        xml_items(items.take(j), indent, f).1 is Some,
    ensures
        xml_items(items.take(items.len() as int), indent, f) == xml_items(items.take(j), indent, f),
    decreases items.len() - j,
{
    if j < items.len() {
        let t = items.take(j + 1);
        assert(t.subrange(0, t.len() - 1) =~= items.take(j));
        lemma_items_stop(items, j + 1, indent, f);
    }
}

/// Once a pair's value is unsupported, the pairs after it are not written.
proof fn lemma_pairs_stop<F: Fn(u64) -> String>(ps: Seq<(SpecValue, SpecValue)>, j: int, indent: nat, f: F)
    requires
        0 <= j <= ps.len(),
        xml_pairs(ps.take(j), indent, f).1 is Some,
    ensures
        xml_pairs(ps.take(ps.len() as int), indent, f) == xml_pairs(ps.take(j), indent, f),
    decreases ps.len() - j,
{
    if j < ps.len() {
        let t = ps.take(j + 1);
        assert(t.subrange(0, t.len() - 1) =~= ps.take(j));
        lemma_pairs_stop(ps, j + 1, indent, f);
    }
}

/// Appends each of `items` on a new line, indented by `pad` (tabs),
/// stopping at the first unsupported variant.
fn write_items<F: Fn(u64) -> String>(items: &Vec<Value>, out: &mut String, pad: &String, real_text_fn: &F) -> (res: Result<(), WriteError>)
    requires
        forall|b: u64| #[trigger] real_text_fn.requires((b,)),
        pad@ == tabs(pad@.len()),
    ensures
        unsupported_error(res, xml_items(views(items@), pad@.len(), *real_text_fn).1),
        deterministic_text(*real_text_fn) ==> final(out)@ == old(out)@ + xml_items(views(items@), pad@.len(), *real_text_fn).0,
    decreases items, 0nat,
{
    let ghost f = *real_text_fn;
    let ghost indent = pad@.len();
    let ghost start = out@;
    let mut i: usize = 0;
    assert(views(items@).take(0) =~= Seq::<SpecValue>::empty());
    while i < items.len()
        invariant
            i <= items@.len(),
            forall|b: u64| #[trigger] real_text_fn.requires((b,)),
            f == *real_text_fn,
            pad@ == tabs(indent),
            indent == pad@.len(),
            start == old(out)@,
            xml_items(views(items@).take(i as int), indent, f).1 is None,
            deterministic_text(f) ==> out@ == start + xml_items(views(items@).take(i as int), indent, f).0,
        decreases items@.len() - i,
    {
        out.append("\n");
        assert(decreases_to!(items => items@[i as int]));
        let r = write_value(&items[i], out, pad, real_text_fn);
        let ghost t = views(items@).take(i + 1);
        assert(t.subrange(0, t.len() - 1) =~= views(items@).take(i as int));
        proof {
            if deterministic_text(f) {
                assert(out@ =~= start + xml_items(t, indent, f).0);
            }
        }
        match r {
            Err(e) => {
                proof {
                    lemma_items_stop(views(items@), i + 1, indent, f);
                    assert(views(items@).take(items@.len() as int) =~= views(items@));
                    assert(xml_items(views(items@), indent, f) == xml_items(t, indent, f));
                    if deterministic_text(f) {
                        assert(out@ == start + xml_items(views(items@), indent, f).0);
                    }
                }
                return Err(e);
            },
            Ok(()) => {},
        }
        i = i + 1;
    }
    assert(views(items@).take(i as int) =~= views(items@));
    Ok(())
}

/// Appends each pair of a dictionary indented by `pad`: its key on a new
/// line, then its value indented by `inner`, stopping at the first
/// unsupported variant.
fn write_pairs<F: Fn(u64) -> String>(
    pairs: &Vec<(Value, Value)>,
    out: &mut String,
    pad: &String,
    inner: &String,
    real_text_fn: &F,
) -> (res: Result<(), WriteError>)
    requires
        forall|b: u64| #[trigger] real_text_fn.requires((b,)),
        pad@ == tabs(pad@.len()),
        inner@ == tabs(pad@.len() + 1),
    ensures
        unsupported_error(res, xml_pairs(pair_views(pairs@), pad@.len(), *real_text_fn).1),
        deterministic_text(*real_text_fn) ==> final(out)@ == old(out)@ + xml_pairs(pair_views(pairs@), pad@.len(), *real_text_fn).0,
    decreases pairs, 0nat,
{
    let ghost f = *real_text_fn;
    let ghost indent = pad@.len();
    let ghost start = out@;
    let mut i: usize = 0;
    assert(pair_views(pairs@).take(0) =~= Seq::<(SpecValue, SpecValue)>::empty());
    while i < pairs.len()
        invariant
            i <= pairs@.len(),
            forall|b: u64| #[trigger] real_text_fn.requires((b,)),
            f == *real_text_fn,
            pad@ == tabs(indent),
            indent == pad@.len(),
            inner@ == tabs(indent + 1),
            start == old(out)@,
            xml_pairs(pair_views(pairs@).take(i as int), indent, f).1 is None,
            deterministic_text(f) ==> out@ == start + xml_pairs(pair_views(pairs@).take(i as int), indent, f).0,
        decreases pairs@.len() - i,
    {
        out.append("\n");
        out.append(pad.as_str());
        out.append("\t<key>");
        match &pairs[i].0 {
            Value::String(s) => escape_into(out, s.as_str()),
            other => other.display_into(out, real_text_fn),
        }
        out.append("</key>\n");
        assert(decreases_to!(pairs => pairs@[i as int]));
        assert(decreases_to!(pairs@[i as int] => pairs@[i as int].1));
        let r = write_value(&pairs[i].1, out, inner, real_text_fn);
        let ghost t = pair_views(pairs@).take(i + 1);
        assert(t.subrange(0, t.len() - 1) =~= pair_views(pairs@).take(i as int));
        proof {
            if deterministic_text(f) {
                assert(out@ =~= start + xml_pairs(t, indent, f).0);
            }
        }
        match r {
            Err(e) => {
                proof {
                    lemma_pairs_stop(pair_views(pairs@), i + 1, indent, f);
                    assert(pair_views(pairs@).take(pairs@.len() as int) =~= pair_views(pairs@));
                    assert(xml_pairs(pair_views(pairs@), indent, f) == xml_pairs(t, indent, f));
                    if deterministic_text(f) {
                        assert(out@ == start + xml_pairs(pair_views(pairs@), indent, f).0);
                    }
                }
                return Err(e);
            },
            Ok(()) => {},
        }
        i = i + 1;
    }
    assert(pair_views(pairs@).take(i as int) =~= pair_views(pairs@));
    Ok(())
}

/// Appends a `<data>` element holding `bytes` in base64, indented by `pad`.
fn write_data(bytes: &Vec<u8>, out: &mut String, pad: &String)
    ensures
        final(out)@ == old(out)@ + pad@ + "<data>"@ + data_lines(base64_of(bytes@), pad@) + (if base64_of(
            bytes@,
        ).len() > 0 {
            "\n"@ + pad@
        } else {
            Seq::empty()
        }) + "</data>"@,
{
    let n = byte_len(bytes);
    let encoded = base64_encode(bytes.as_slice());
    let enc = chars_of(encoded.as_str());
    out.append(pad.as_str());
    out.append("<data>");
    push_data_lines(out, &enc, pad);
    if enc.len() > 0 {
        out.append("\n");
        out.append(pad.as_str());
    }
    out.append("</data>");
}

/// Appends the `<array>` element of `v`, whose items are `items`.
fn write_array<F: Fn(u64) -> String>(v: &Value, items: &Vec<Value>, out: &mut String, pad: &String, real_text_fn: &F) -> (res: Result<(), WriteError>)
    requires
        forall|b: u64| #[trigger] real_text_fn.requires((b,)),
        pad@ == tabs(pad@.len()),
        *v == Value::Array(*items),
    ensures
        unsupported_error(res, xml_value(v@, pad@.len(), *real_text_fn).1),
        deterministic_text(*real_text_fn) ==> final(out)@ == old(out)@ + xml_value(v@, pad@.len(), *real_text_fn).0,
    decreases items, 1nat,
{
    let ghost indent = pad@.len();
    proof {
        crate::value::lemma_items_views(*items);
    }
    let mut inner = pad.clone();
    inner.append("\t");
    proof {
        reveal_strlit("\t");
    }
    assert(inner@ =~= tabs(indent + 1));
    out.append(pad.as_str());
    out.append("<array>");
    write_items(items, out, &inner, real_text_fn)?;
    if items.len() > 0 {
        out.append("\n");
        out.append(pad.as_str());
    }
    out.append("</array>");
    Ok(())
}

/// Appends the `<dict>` element of `v`, whose pairs are `pairs`.
fn write_dict<F: Fn(u64) -> String>(
    v: &Value,
    pairs: &Vec<(Value, Value)>,
    out: &mut String,
    pad: &String,
    real_text_fn: &F,
) -> (res: Result<(), WriteError>)
    requires
        forall|b: u64| #[trigger] real_text_fn.requires((b,)),
        pad@ == tabs(pad@.len()),
        *v == Value::Dictionary(*pairs),
    ensures
        unsupported_error(res, xml_value(v@, pad@.len(), *real_text_fn).1),
        deterministic_text(*real_text_fn) ==> final(out)@ == old(out)@ + xml_value(v@, pad@.len(), *real_text_fn).0,
    decreases pairs, 1nat,
{
    let ghost indent = pad@.len();
    proof {
        crate::value::lemma_pairs_views(*pairs);
    }
    let mut inner = pad.clone();
    inner.append("\t");
    proof {
        reveal_strlit("\t");
    }
    assert(inner@ =~= tabs(indent + 1));
    out.append(pad.as_str());
    out.append("<dict>");
    write_pairs(pairs, out, pad, &inner, real_text_fn)?;
    if pairs.len() > 0 {
        out.append("\n");
        out.append(pad.as_str());
    }
    out.append("</dict>");
    Ok(())
}

/// Appends the XML text of `v`, indented by `pad` (tabs).
#[verifier::spinoff_prover]
#[verifier::rlimit(60)]
fn write_value<F: Fn(u64) -> String>(v: &Value, out: &mut String, pad: &String, real_text_fn: &F) -> (res: Result<(), WriteError>)
    requires
        forall|b: u64| #[trigger] real_text_fn.requires((b,)),
        pad@ == tabs(pad@.len()),
    ensures
        unsupported_error(res, xml_value(v@, pad@.len(), *real_text_fn).1),
        deterministic_text(*real_text_fn) ==> final(out)@ == old(out)@ + xml_value(v@, pad@.len(), *real_text_fn).0,
    decreases v, 2nat,
{
    let ghost f = *real_text_fn;
    let ghost indent = pad@.len();
    match v {
        Value::String(s) => {
            out.append(pad.as_str());
            out.append("<string>");
            escape_into(out, s.as_str());
            out.append("</string>");
        },
        Value::Integer(i) => {
            out.append(pad.as_str());
            out.append("<integer>");
            push_int(out, *i);
            out.append("</integer>");
        },
        Value::Real(r) => {
            out.append(pad.as_str());
            out.append("<real>");
            let t = real_text(real_text_fn, *r);
            out.append(t.as_str());
            out.append("</real>");
        },
        Value::Bool(b) => {
            out.append(pad.as_str());
            if *b {
                out.append("<true/>");
            } else {
                out.append("<false/>");
            }
        },
        Value::Data(bytes) => write_data(bytes, out, pad),
        Value::Date(d) => {
            let iso = apple_epoch_to_iso8601(*d);
            out.append(pad.as_str());
            out.append("<date>");
            out.append(iso.as_str());
            out.append("</date>");
        },
        Value::Array(items) => {
            assert(decreases_to!(*v => v->Array_0));
            return write_array(v, items, out, pad, real_text_fn);
        },
        Value::Dictionary(pairs) => {
            assert(decreases_to!(*v => v->Dictionary_0));
            return write_dict(v, pairs, out, pad, real_text_fn);
        },
        Value::Null => {
            return Err(WriteError::UnsupportedType("Null"));
        },
        Value::Uid(_) => {
            return Err(WriteError::UnsupportedType("Uid"));
        },
        Value::UnorderedSet(_) => {
            return Err(WriteError::UnsupportedType("Set"));
        },
    }
    Ok(())
}

/// The XML declaration, the DOCTYPE and the `<plist>` start tag, each on a
/// line of its own.
pub open spec fn xml_header() -> Seq<char> {
    "<?xml version=\"1.0\" encoding=\"UTF-8\"?>\n"@
        + "<!DOCTYPE plist PUBLIC \"-//Apple//DTD PLIST 1.0//EN\" \"http://www.apple.com/DTDs/PropertyList-1.0.dtd\">\n"@
        + "<plist version=\"1.0\">\n"@
}

/// The XML property list of `v` (reals written as `f` writes them), and the
/// unsupported variant met, if any (the text then stops where writing
/// stopped).
pub open spec fn xml_document<F: Fn(u64) -> String>(v: SpecValue, f: F) -> (Seq<char>, Option<Seq<char>>) {
    let (t, e) = xml_value(v, 0, f);
    if e is Some {
        (xml_header() + t, e)
    } else {
        (xml_header() + t + "\n</plist>\n"@, None)
    }
}

/// Serialises `value` as an XML property list, appending its UTF-8 bytes to
/// `writer`; reals are written by `real_text` (from their bit pattern).
/// `Null`, `Uid` and `Set` values cannot be written: the error names the
/// first one met, and what was written before it stays in `writer`.
pub fn write<F: Fn(u64) -> String>(value: &Value, writer: &mut Vec<u8>, real_text_fn: &F) -> (res: Result<(), WriteError>)
    requires
        forall|b: u64| #[trigger] real_text_fn.requires((b,)),
    ensures
        unsupported_error(res, xml_document(value@, *real_text_fn).1),
        deterministic_text(*real_text_fn) ==> final(writer)@ == old(writer)@ + encode_utf8(
            xml_document(value@, *real_text_fn).0,
        ),
{
    let mut out = String::new();
    out.append("<?xml version=\"1.0\" encoding=\"UTF-8\"?>\n");
    out.append(
        "<!DOCTYPE plist PUBLIC \"-//Apple//DTD PLIST 1.0//EN\" \"http://www.apple.com/DTDs/PropertyList-1.0.dtd\">\n",
    );
    out.append("<plist version=\"1.0\">\n");
    let pad = String::new();
    assert(pad@ =~= tabs(0));
    let r = write_value(value, &mut out, &pad, real_text_fn);
    if r.is_ok() {
        out.append("\n</plist>\n");
    }
    extend_bytes(writer, out.as_str().as_bytes());
    r
}

} // verus!
