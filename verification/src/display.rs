//! A one-line human-readable rendering of a value (`<null>`, `true`, `42`,
//! `<deadbeef>`, `"text"`, `[1, 2]`, `{"k": 1}`).
use vstd::prelude::*;
use vstd::string::*;

use crate::reals::{deterministic_text, real_text, text_of};
use crate::text::{decimal, push_chars, push_decimal};
use crate::unicode::push_char;
use crate::value::{pair_views, views, SpecValue, Value};

verus! {

/// What `format!("{:?}", s)` gives for a string with characters `s`: the
/// string in double quotes with Rust's debug escapes.
pub uninterp spec fn debug_quoted(s: Seq<char>) -> Seq<char>;

/// The string `s` in double quotes with Rust's debug escapes
/// (`format!("{:?}", s)`).
#[verifier::external_body]
fn debug_string(s: &str) -> (r: String)
    ensures
        r@ == debug_quoted(s@),
{
    format!("{s:?}")
}

/// The decimal text of a signed integer.
pub open spec fn int_text(i: i64) -> Seq<char> {
    if i < 0 {
        seq!['-'] + decimal((-(i as int)) as nat)
    } else {
        decimal(i as nat)
    }
}

/// Appends the decimal text of `i`.
pub fn push_int(out: &mut String, i: i64)
    ensures
        final(out)@ == old(out)@ + int_text(i),
{
    if i < 0 {
        push_char(out, '-');
        let m: u64 = (0i128 - i as i128) as u64;
        push_decimal(out, m);
    } else {
        push_decimal(out, i as u64);
    }
}

/// The lower-case hexadecimal digit for `d` (below 16).
pub open spec fn hex_lower(d: nat) -> char {
    if d < 10 {
        (48 + d) as char
    } else {
        (87 + d) as char
    }
}

/// Two lower-case hexadecimal digits per byte.
pub open spec fn hex_bytes(b: Seq<u8>) -> Seq<char>
    decreases b.len(),
{
    if b.len() == 0 {
        Seq::empty()
    } else {
        hex_bytes(b.drop_last()) + seq![hex_lower((b.last() / 16) as nat), hex_lower((b.last() % 16) as nat)]
    }
}

fn hex_digit_lower(d: u8) -> (c: char)
    requires
        d < 16,
    ensures
        c == hex_lower(d as nat),
{
    if d < 10 {
        (48 + d) as char
    } else {
        (87 + d) as char
    }
}

/// Appends two lower-case hexadecimal digits per byte.
pub fn push_hex(out: &mut String, b: &Vec<u8>)
    ensures
        final(out)@ == old(out)@ + hex_bytes(b@),
{
    let mut k: usize = 0;
    while k < b.len()
        invariant
            k <= b@.len(),
            out@ == old(out)@ + hex_bytes(b@.take(k as int)),
        decreases b@.len() - k,
    {
        assert(b@.take(k + 1).drop_last() =~= b@.take(k as int));
        push_char(out, hex_digit_lower(b[k] / 16));
        push_char(out, hex_digit_lower(b[k] % 16));
        assert(out@ =~= old(out)@ + hex_bytes(b@.take(k + 1)));
        k = k + 1;
    }
    assert(b@.take(k as int) =~= b@);
}

/// The rendering of `v`, reals written as `f` writes them.
pub open spec fn display_text<F: Fn(u64) -> String>(v: SpecValue, f: F) -> Seq<char>
    decreases v, 1nat,
{
    match v {
        SpecValue::Null => "<null>"@,
        SpecValue::Bool(b) => if b { "true"@ } else { "false"@ },
        SpecValue::Integer(i) => int_text(i),
        SpecValue::Real(r) => text_of(f, r),
        SpecValue::Date(d) => "<date: "@ + text_of(f, d) + ">"@,
        SpecValue::Data(b) => "<"@ + hex_bytes(b) + ">"@,
        SpecValue::String(s) => debug_quoted(s),
        SpecValue::Uid(u) => "<uid: "@ + decimal(u as nat) + ">"@,
        SpecValue::Array(items) => "["@ + display_items(items, f) + "]"@,
        SpecValue::UnorderedSet(items) => "{"@ + display_items(items, f) + "}"@,
        SpecValue::Dictionary(ps) => "{"@ + display_pairs(ps, f) + "}"@,
    }
}

/// The renderings of `items` joined by `, `.
pub open spec fn display_items<F: Fn(u64) -> String>(items: Seq<SpecValue>, f: F) -> Seq<char>
    decreases items, 0nat,
{
    if items.len() == 0 {
        Seq::empty()
    } else {
        let init = items.subrange(0, items.len() - 1);
        let last = display_text(items[items.len() - 1], f);
        if init.len() == 0 {
            last
        } else {
            display_items(init, f) + ", "@ + last
        }
    }
}

/// The renderings `key: value` of `ps` joined by `, `.
pub open spec fn display_pairs<F: Fn(u64) -> String>(ps: Seq<(SpecValue, SpecValue)>, f: F) -> Seq<char>
    decreases ps, 0nat,
{
    if ps.len() == 0 {
        Seq::empty()
    } else {
        let init = ps.subrange(0, ps.len() - 1);
        let p = ps[ps.len() - 1];
        let last = display_text(p.0, f) + ": "@ + display_text(p.1, f);
        if init.len() == 0 {
            last
        } else {
            display_pairs(init, f) + ", "@ + last
        }
    }
}

impl Value {
    /// Appends the rendering of this value; reals are written by
    /// `real_text` (from their bit pattern).
    pub fn display_into<F: Fn(u64) -> String>(&self, out: &mut String, real_text_fn: &F)
        requires
            forall|b: u64| #[trigger] real_text_fn.requires((b,)),
        ensures
            deterministic_text(*real_text_fn) ==> final(out)@ == old(out)@ + display_text(self@, *real_text_fn),
        decreases self,
    {
        let ghost f = *real_text_fn;
        match self {
            Value::Null => out.append("<null>"),
            Value::Bool(b) => {
                if *b {
                    out.append("true")
                } else {
                    out.append("false")
                }
            },
            Value::Integer(i) => push_int(out, *i),
            Value::Real(r) => {
                let t = real_text(real_text_fn, *r);
                out.append(t.as_str());
            },
            Value::Date(d) => {
                out.append("<date: ");
                let t = real_text(real_text_fn, *d);
                out.append(t.as_str());
                out.append(">");
            },
            Value::Data(b) => {
                out.append("<");
                push_hex(out, b);
                out.append(">");
            },
            Value::String(s) => {
                let q = debug_string(s.as_str());
                out.append(q.as_str());
            },
            Value::Uid(u) => {
                out.append("<uid: ");
                push_decimal(out, *u);
                out.append(">");
            },
            Value::Array(items) | Value::UnorderedSet(items) => {
                proof {
                    crate::value::lemma_items_views(*items);
                }
                let open = if matches!(self, Value::Array(_)) { "[" } else { "{" };
                out.append(open);
                let ghost start = out@;
                let mut i: usize = 0;
                while i < items.len()
                    invariant
                        i <= items@.len(),
                        forall|b: u64| #[trigger] real_text_fn.requires((b,)),
                        f == *real_text_fn,
                        *self == Value::Array(*items) || *self == Value::UnorderedSet(*items),
                        deterministic_text(f) ==> out@ == start + display_items(views(items@).take(i as int), f),
                    decreases items@.len() - i,
                {
                    let ghost before = out@;
                    if i > 0 {
                        out.append(", ");
                    }
                    proof {
                        if *self == Value::Array(*items) {
                            assert(decreases_to!(*self => self->Array_0));
                        } else {
                            assert(decreases_to!(*self => self->UnorderedSet_0));
                        }
                    }
                    assert(decreases_to!(items => items@[i as int]));
                    items[i].display_into(out, real_text_fn);
                    proof {
                        let t = views(items@).take(i + 1);
                        assert(t.subrange(0, t.len() - 1) =~= views(items@).take(i as int));
                        if deterministic_text(f) {
                            assert(out@ =~= start + display_items(t, f));
                        }
                    }
                    i = i + 1;
                }
                assert(views(items@).take(i as int) =~= views(items@));
                if matches!(self, Value::Array(_)) {
                    out.append("]");
                } else {
                    out.append("}");
                }
            },
            Value::Dictionary(pairs) => {
                proof {
                    crate::value::lemma_pairs_views(*pairs);
                }
                out.append("{");
                let ghost start = out@;
                let mut i: usize = 0;
                while i < pairs.len()
                    invariant
                        i <= pairs@.len(),
                        forall|b: u64| #[trigger] real_text_fn.requires((b,)),
                        f == *real_text_fn,
                        *self == Value::Dictionary(*pairs),
                        deterministic_text(f) ==> out@ == start + display_pairs(pair_views(pairs@).take(i as int), f),
                    decreases pairs@.len() - i,
                {
                    if i > 0 {
                        out.append(", ");
                    }
                    assert(decreases_to!(*self => self->Dictionary_0));
                    assert(decreases_to!(pairs => pairs@[i as int]));
                    assert(decreases_to!(pairs@[i as int] => pairs@[i as int].0));
                    assert(decreases_to!(pairs@[i as int] => pairs@[i as int].1));
                    pairs[i].0.display_into(out, real_text_fn);
                    out.append(": ");
                    pairs[i].1.display_into(out, real_text_fn);
                    proof {
                        let t = pair_views(pairs@).take(i + 1);
                        assert(t.subrange(0, t.len() - 1) =~= pair_views(pairs@).take(i as int));
                        if deterministic_text(f) {
                            assert(out@ =~= start + display_pairs(t, f));
                        }
                    }
                    i = i + 1;
                }
                assert(pair_views(pairs@).take(i as int) =~= pair_views(pairs@));
                out.append("}");
            },
        }
    }

    /// The rendering of this value; reals are written by `real_text` (from
    /// their bit pattern).
    pub fn to_display_string<F: Fn(u64) -> String>(&self, real_text_fn: &F) -> (r: String)
        requires
            forall|b: u64| #[trigger] real_text_fn.requires((b,)),
        ensures
            deterministic_text(*real_text_fn) ==> r@ == display_text(self@, *real_text_fn),
    {
        let mut out = String::new();
        self.display_into(&mut out, real_text_fn);
        out
    }
}

} // verus!
