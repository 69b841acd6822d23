//! Text helpers: UTF-16 coding (proved against its definition), and the few
//! std conversions the formats need.
use vstd::prelude::*;
use vstd::utf8::*;

verus! {

broadcast use vstd::utf8::char_is_scalar;

/// `Some(prefix + t)` where `rest` is `Some(t)`.
pub open spec fn prepend_chars(prefix: Seq<char>, rest: Option<Seq<char>>) -> Option<Seq<char>> {
    match rest {
        Some(t) => Some(prefix + t),
        None => None,
    }
}

/// Whether `u` is a UTF-16 high (leading) surrogate.
pub open spec fn is_high_surrogate(u: u16) -> bool {
    0xD800 <= u <= 0xDBFF
}

/// Whether `u` is a UTF-16 low (trailing) surrogate.
pub open spec fn is_low_surrogate(u: u16) -> bool {
    0xDC00 <= u <= 0xDFFF
}

/// The scalar value encoded by a surrogate pair.
pub open spec fn surrogate_pair_value(hi: u16, lo: u16) -> int {
    0x10000 + (hi - 0xD800) * 0x400 + (lo - 0xDC00)
}

/// Decoding of UTF-16 code units: `None` when the units hold an unpaired
/// surrogate.
pub open spec fn utf16_decode(units: Seq<u16>) -> Option<Seq<char>>
    decreases units.len(),
{
    if units.len() == 0 {
        Some(Seq::empty())
    } else {
        let u = units[0];
        if !is_high_surrogate(u) && !is_low_surrogate(u) {
            prepend_chars(seq![u as char], utf16_decode(units.skip(1)))
        } else if is_high_surrogate(u) && units.len() >= 2 && is_low_surrogate(units[1]) {
            prepend_chars(
                seq![surrogate_pair_value(u, units[1]) as char],
                utf16_decode(units.skip(2)),
            )
        } else {
            None
        }
    }
}

/// The UTF-16 code units of one character.
pub open spec fn utf16_encode_char(c: char) -> Seq<u16> {
    let v = c as u32;
    if v < 0x10000 {
        seq![v as u16]
    } else {
        seq![(0xD800 + (v - 0x10000) / 0x400) as u16, (0xDC00 + (v - 0x10000) % 0x400) as u16]
    }
}

/// The UTF-16 code units of a character sequence.
pub open spec fn utf16_encode(s: Seq<char>) -> Seq<u16>
    decreases s.len(),
{
    if s.len() == 0 {
        Seq::empty()
    } else {
        utf16_encode(s.drop_last()) + utf16_encode_char(s.last())
    }
}

/// Appends one character to a string.
#[verifier::external_body]
pub(crate) fn push_char(s: &mut String, c: char)
    ensures
        final(s)@ == old(s)@.push(c),
{
    s.push(c);
}

/// The character with scalar value `v`, if `v` is one.
#[verifier::external_body]
pub(crate) fn char_from_u32(v: u32) -> (res: Option<char>)
    ensures
        res == (if v <= 0xD7FF || (0xE000 <= v <= 0x10FFFF) {
            Some(v as char)
        } else {
            None
        }),
{
    char::from_u32(v)
}

/// `std::str::from_utf8`, owning the result: `Some` exactly when the bytes
/// are well-formed UTF-8, then their decoding.
#[verifier::external_body]
pub(crate) fn utf8_to_string(bytes: &[u8]) -> (res: Option<String>)
    ensures
        res is Some <==> valid_utf8(bytes@),
        res matches Some(s) ==> s@ == decode_utf8(bytes@),
{
    match std::str::from_utf8(bytes) {
        Ok(s) => Some(s.to_string()),
        Err(_) => None,
    }
}


proof fn lemma_prepend_assoc(a: Seq<char>, b: Seq<char>, x: Option<Seq<char>>)
    ensures
        prepend_chars(a, prepend_chars(b, x)) == prepend_chars(a + b, x),
{
    if let Some(t) = x {
        assert(a + (b + t) =~= (a + b) + t);
    }
}

/// Decodes UTF-16 code units (what `String::from_utf16` does).
pub fn decode_utf16(units: &[u16]) -> (res: Option<String>)
    ensures
        res is Some <==> utf16_decode(units@) is Some,
        res matches Some(s) ==> utf16_decode(units@) == Some(s@),
{
    let mut out = String::new();
    let mut i: usize = 0;
    assert(units@.skip(0) =~= units@);
    assert(out@ + Seq::<char>::empty() =~= out@);
    while i < units.len()
        invariant
            0 <= i <= units.len(),
            utf16_decode(units@) == prepend_chars(out@, utf16_decode(units@.skip(i as int))),
        decreases units.len() - i,
    {
        let u = units[i];
        let ghost rest = units@.skip(i as int);
        assert(rest[0] == u);
        if u < 0xD800 || u > 0xDFFF {
            let c = char_from_u32(u as u32).unwrap();
            assert(rest.skip(1) =~= units@.skip(i + 1));
            proof {
                lemma_prepend_assoc(out@, seq![c], utf16_decode(units@.skip(i + 1)));
            }
            push_char(&mut out, c);
            i = i + 1;
        } else if u <= 0xDBFF && i + 1 < units.len() && units[i + 1] >= 0xDC00 && units[i + 1]
            <= 0xDFFF {
            let lo = units[i + 1];
            assert(rest[1] == lo);
            let v: u32 = 0x10000 + ((u - 0xD800) as u32) * 0x400 + ((lo - 0xDC00) as u32);
            let c = char_from_u32(v).unwrap();
            assert(rest.skip(2) =~= units@.skip(i + 2));
            proof {
                lemma_prepend_assoc(out@, seq![c], utf16_decode(units@.skip(i + 2)));
            }
            push_char(&mut out, c);
            i = i + 2;
        } else {
            return None;
        }
    }
    assert(units@.skip(i as int) =~= Seq::<u16>::empty());
    assert(out@ + Seq::<char>::empty() =~= out@);
    Some(out)
}


/// The UTF-16 code units of `s` (what `str::encode_utf16` yields).
pub fn encode_utf16(s: &str) -> (res: Vec<u16>)
    ensures
        res@ == utf16_encode(s@),
{
    let mut out: Vec<u16> = Vec::new();
    for c in it: s.chars()
        invariant
            it.seq() == s@,
            out@ == utf16_encode(s@.take(it.index())),
    {
        let ghost k = it.index();
        assert(s@.take(k + 1).drop_last() =~= s@.take(k));
        let v = c as u32;
        assert(c == s@[k]);
        proof {
            char_is_scalar(c);
        }
        if v < 0x10000 {
            out.push(v as u16);
        } else {
            out.push((0xD800 + (v - 0x10000) / 0x400) as u16);
            out.push((0xDC00 + (v - 0x10000) % 0x400) as u16);
        }
        assert(out@ =~= utf16_encode(s@.take(k)) + utf16_encode_char(c));
    }
    assert(s@.take(s@.len() as int) =~= s@);
    out
}


proof fn lemma_utf16_encode_concat(a: Seq<char>, b: Seq<char>)
    ensures
        utf16_encode(a + b) == utf16_encode(a) + utf16_encode(b),
    decreases b.len(),
{
    if b.len() == 0 {
        assert(a + b =~= a);
        assert(utf16_encode(a) + utf16_encode(b) =~= utf16_encode(a));
    } else {
        lemma_utf16_encode_concat(a, b.drop_last());
        assert((a + b).drop_last() =~= a + b.drop_last());
        assert((a + b).last() == b.last());
        assert(utf16_encode(a) + utf16_encode(b) =~= utf16_encode(a) + utf16_encode(b.drop_last())
            + utf16_encode_char(b.last()));
    }
}

proof fn lemma_utf16_decode_char(c: char, rest: Seq<u16>)
    ensures
        utf16_decode(utf16_encode_char(c) + rest) == prepend_chars(seq![c], utf16_decode(rest)),
{
    let v = c as u32;
    char_is_scalar(c);
    char_u32_cast(c, v);
    let units = utf16_encode_char(c) + rest;
    if v < 0x10000 {
        assert(units[0] == v as u16);
        assert(units.skip(1) =~= rest);
        assert((v as u16) as char == c);
    } else {
        let hi = (0xD800 + (v - 0x10000) / 0x400) as u16;
        let lo = (0xDC00 + (v - 0x10000) % 0x400) as u16;
        assert(units[0] == hi);
        assert(units[1] == lo);
        assert(units.skip(2) =~= rest);
        assert(surrogate_pair_value(hi, lo) == v);
    }
}

/// UTF-16 decoding gives back every encoded character sequence.
pub proof fn lemma_utf16_roundtrip(s: Seq<char>)
    ensures
        utf16_decode(utf16_encode(s)) == Some(s),
    decreases s.len(),
{
    if s.len() == 0 {
    } else {
        let first = seq![s[0]];
        assert(s =~= first + s.skip(1));
        lemma_utf16_encode_concat(first, s.skip(1));
        assert(first.drop_last() =~= Seq::<char>::empty());
        assert(first.last() == s[0]);
        assert(utf16_encode(first.drop_last()) =~= Seq::<u16>::empty());
        assert(utf16_encode(first) =~= utf16_encode_char(s[0]));
        lemma_utf16_decode_char(s[0], utf16_encode(s.skip(1)));
        lemma_utf16_roundtrip(s.skip(1));
    }
}

} // verus!
