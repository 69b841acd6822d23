//! Text helpers: decimal numerals, Unicode white space and trimming.
use vstd::prelude::*;

use crate::unicode::push_char;

verus! {

// ── Decimal numerals ────────────────────────────────────────────────────────

/// The ASCII digit for `d` (below 10).
pub open spec fn digit_char(d: nat) -> char {
    (48 + d) as char
}

/// The decimal numeral of `n`, without leading zeros.
pub open spec fn decimal(n: nat) -> Seq<char>
    decreases n,
{
    if n < 10 {
        seq![digit_char(n)]
    } else {
        decimal(n / 10).push(digit_char(n % 10))
    }
}

/// The decimal numeral of `n`, padded with leading zeros to at least
/// `width` characters.
pub open spec fn padded(n: nat, width: nat) -> Seq<char> {
    let d = decimal(n);
    if d.len() >= width {
        d
    } else {
        Seq::new((width - d.len()) as nat, |i: int| '0') + d
    }
}

/// Appends the digits of the decimal numeral of `n`.
fn decimal_chars(out: &mut Vec<char>, n: u64)
    ensures
        final(out)@ == old(out)@ + decimal(n as nat),
    decreases n,
{
    if n >= 10 {
        decimal_chars(out, n / 10);
    }
    let c = char_of_digit((n % 10) as u32);
    out.push(c);
    proof {
        if n >= 10 {
            assert(old(out)@ + decimal(n as nat) =~= old(out)@ + decimal((n / 10) as nat) + seq![c]);
        } else {
            assert(old(out)@ + decimal(n as nat) =~= old(out)@ + seq![c]);
        }
    }
}

/// The ASCII digit for `d`.
fn char_of_digit(d: u32) -> (c: char)
    requires
        d < 10,
    ensures
        c == digit_char(d as nat),
{
    match d {
        0 => '0',
        1 => '1',
        2 => '2',
        3 => '3',
        4 => '4',
        5 => '5',
        6 => '6',
        7 => '7',
        8 => '8',
        _ => '9',
    }
}

/// Appends the characters `cs`.
pub fn push_chars(out: &mut String, cs: &Vec<char>)
    ensures
        final(out)@ == old(out)@ + cs@,
{
    let mut k: usize = 0;
    while k < cs.len()
        invariant
            k <= cs@.len(),
            out@ == old(out)@ + cs@.take(k as int),
        decreases cs@.len() - k,
    {
        push_char(out, cs[k]);
        assert(out@ =~= old(out)@ + cs@.take(k + 1));
        k = k + 1;
    }
    assert(cs@.take(k as int) =~= cs@);
}

/// Appends the decimal numeral of `n`.
pub fn push_decimal(out: &mut String, n: u64)
    ensures
        final(out)@ == old(out)@ + decimal(n as nat),
{
    let mut ds: Vec<char> = Vec::new();
    decimal_chars(&mut ds, n);
    assert(ds@ =~= decimal(n as nat));
    push_chars(out, &ds);
}

/// Appends the decimal numeral of `n` padded with zeros to `width`.
pub fn push_padded(out: &mut String, n: u64, width: usize)
    ensures
        final(out)@ == old(out)@ + padded(n as nat, width as nat),
{
    let mut ds: Vec<char> = Vec::new();
    decimal_chars(&mut ds, n);
    assert(ds@ =~= decimal(n as nat));
    let mut k: usize = ds.len();
    while k < width
        invariant
            ds@.len() <= k,
            k <= width || k == ds@.len(),
            out@ == old(out)@ + Seq::new((k - ds@.len()) as nat, |i: int| '0'),
        decreases width - k,
    {
        push_char(out, '0');
        assert(out@ =~= old(out)@ + Seq::new((k + 1 - ds@.len()) as nat, |i: int| '0'));
        k = k + 1;
    }
    proof {
        if ds@.len() >= width {
            assert(out@ =~= old(out)@);
        }
    }
    push_chars(out, &ds);
}

/// Powers of ten.
pub open spec fn pow10(n: nat) -> nat
    decreases n,
{
    if n == 0 {
        1
    } else {
        10 * pow10((n - 1) as nat)
    }
}

/// The bytes of an ASCII text, one per character.
pub open spec fn ascii_bytes(s: Seq<char>) -> Seq<u8> {
    Seq::new(s.len(), |i: int| s[i] as u8)
}

/// A decimal numeral is a run of digit characters worth its number, no
/// longer than `k` when the number is below `10^k`.
pub proof fn lemma_decimal_digits(n: nat, k: nat)
    requires
        1 <= k,
        n < pow10(k),
    ensures
        1 <= decimal(n).len() <= k,
        forall|i: int| 0 <= i < decimal(n).len() ==> '0' <= #[trigger] decimal(n)[i] <= '9',
        digits_value(ascii_bytes(decimal(n))) == n,
    decreases n,
{
    if n >= 10 {
        if k == 1 {
            assert(pow10(1) == 10) by {
                reveal_with_fuel(pow10, 2);
            }
        }
        assert(n / 10 < pow10((k - 1) as nat));
        lemma_decimal_digits(n / 10, (k - 1) as nat);
        let d = decimal(n / 10);
        let b = ascii_bytes(decimal(n));
        assert(b.drop_last() =~= ascii_bytes(d));
        assert(b.last() == 48 + n % 10);
        assert(digits_value(b) == digits_value(ascii_bytes(d)) * 10 + n % 10);
    } else {
        let b = ascii_bytes(decimal(n));
        assert(b.drop_last() =~= Seq::<u8>::empty());
        assert(b.last() == 48 + n);
        assert(digits_value(b) == digits_value(b.drop_last()) * 10 + n);
    }
}

/// Leading zero digits add nothing.
proof fn lemma_leading_zeros(z: Seq<u8>, d: Seq<u8>)
    requires
        forall|i: int| 0 <= i < z.len() ==> z[i] == 48,
    ensures
        digits_value(z + d) == digits_value(d),
    decreases z.len() + d.len(),
{
    if d.len() == 0 {
        assert(z + d =~= z);
        if z.len() > 0 {
            lemma_leading_zeros(z.drop_last(), d);
            assert(z.drop_last() + d =~= z.drop_last());
        }
    } else {
        assert((z + d).drop_last() =~= z + d.drop_last());
        lemma_leading_zeros(z, d.drop_last());
    }
}

/// A number below `10^w` padded to `w` places: `w` digit characters worth
/// the number.
pub proof fn lemma_padded_digits(n: nat, w: nat)
    requires
        1 <= w,
        n < pow10(w),
    ensures
        padded(n, w).len() == w,
        forall|i: int| 0 <= i < w ==> '0' <= #[trigger] padded(n, w)[i] <= '9',
        all_digits(ascii_bytes(padded(n, w))),
        digits_value(ascii_bytes(padded(n, w))) == n,
{
    lemma_decimal_digits(n, w);
    let d = decimal(n);
    if d.len() < w {
        let zeros = Seq::new((w - d.len()) as nat, |i: int| '0');
        assert(ascii_bytes(padded(n, w)) =~= ascii_bytes(zeros) + ascii_bytes(d));
        lemma_leading_zeros(ascii_bytes(zeros), ascii_bytes(d));
    }
    assert forall|i: int| 0 <= i < ascii_bytes(padded(n, w)).len() implies is_digit(
        #[trigger] ascii_bytes(padded(n, w))[i],
    ) by {
        assert('0' <= padded(n, w)[i] <= '9');
    }
}

// ── Parsing integers ────────────────────────────────────────────────────────

/// Whether `b` is an ASCII decimal digit.
pub open spec fn is_digit(b: u8) -> bool {
    48 <= b <= 57
}

/// The value of a run of ASCII digits.
pub open spec fn digits_value(b: Seq<u8>) -> nat
    decreases b.len(),
{
    if b.len() == 0 {
        0
    } else {
        digits_value(b.drop_last()) * 10 + (b.last() - 48) as nat
    }
}

/// Whether every byte of `b` is an ASCII digit.
pub open spec fn all_digits(b: Seq<u8>) -> bool {
    forall|i: int| 0 <= i < b.len() ==> is_digit(#[trigger] b[i])
}

/// Whether `b` starts with a minus sign that the integer type accepts.
pub open spec fn minus_sign(b: Seq<u8>, signed: bool) -> bool {
    signed && b.len() > 0 && b[0] == 45
}

/// `b` without its leading sign, if any.
pub open spec fn unsigned_part(b: Seq<u8>, signed: bool) -> Seq<u8> {
    if b.len() > 0 && (b[0] == 43 || minus_sign(b, signed)) {
        b.drop_first()
    } else {
        b
    }
}

/// What `str::parse` gives for an integer type with bounds `lo..=hi`: an
/// optional sign (`-` only when `signed`) then one or more ASCII digits,
/// whose value must lie within the bounds.
pub open spec fn parse_int(b: Seq<u8>, signed: bool, lo: int, hi: int) -> Option<int> {
    let body = unsigned_part(b, signed);
    if body.len() == 0 || !all_digits(body) {
        None
    } else {
        let v = if minus_sign(b, signed) { -digits_value(body) } else { digits_value(body) as int };
        if lo <= v <= hi {
            Some(v)
        } else {
            None
        }
    }
}

/// A sign-stripped body with a non-digit, or with a value past 2^64 - 1,
/// gives no value.
proof fn lemma_parse_int_none(s: Seq<u8>, signed: bool, lo: int, hi: int, j: int)
    requires
        -u64::MAX <= lo <= 0 <= hi <= u64::MAX,
        (0 <= j < unsigned_part(s, signed).len() && !is_digit(unsigned_part(s, signed)[j])) || (all_digits(
            unsigned_part(s, signed),
        ) ==> digits_value(unsigned_part(s, signed)) > u64::MAX),
    ensures
        parse_int(s, signed, lo, hi) is None,
{
}

/// A longer run of digits is worth at least as much.
proof fn lemma_digits_prefix(b: Seq<u8>, i: int)
    requires
        0 <= i <= b.len(),
        forall|j: int| 0 <= j < b.len() ==> is_digit(#[trigger] b[j]),
    ensures
        digits_value(b.take(i)) <= digits_value(b),
    decreases b.len() - i,
{
    if i < b.len() {
        lemma_digits_prefix(b, i + 1);
        assert(b.take(i + 1).drop_last() =~= b.take(i));
    } else {
        assert(b.take(i) =~= b);
    }
}

/// Parses the integer held by `b[start..end]` as `str::parse` does for an
/// integer type with bounds `lo..=hi` (`-` accepted only when `signed`).
pub fn parse_integer(b: &[u8], start: usize, end: usize, signed: bool, lo: i64, hi: i64) -> (r: Option<i64>)
    requires
        start <= end <= b@.len(),
        lo <= 0 <= hi,
    ensures
        r matches Some(v) ==> parse_int(b@.subrange(start as int, end as int), signed, lo as int, hi as int) == Some(v as int),
        r is None ==> parse_int(b@.subrange(start as int, end as int), signed, lo as int, hi as int) is None,
{
    let ghost s = b@.subrange(start as int, end as int);
    let neg = signed && start < end && b[start] == 45;
    assert(neg == minus_sign(s, signed));
    let mut i = start;
    if start < end && (b[start] == 43 || neg) {
        i = start + 1;
    }
    let ghost body = b@.subrange(i as int, end as int);
    assert(body =~= unsigned_part(s, signed));
    if i == end {
        assert(parse_int(s, signed, lo as int, hi as int) is None);
        return None;
    }
    let mut mag: u64 = 0;
    let mut k = i;
    while k < end
        invariant
            i <= k <= end <= b@.len(),
            body == b@.subrange(i as int, end as int),
            forall|j: int| 0 <= j < k - i ==> is_digit(#[trigger] body[j]),
            mag == digits_value(body.take(k - i)),
            lo <= 0 <= hi,
            s == b@.subrange(start as int, end as int),
            body == unsigned_part(s, signed),
            neg == minus_sign(s, signed),
        decreases end - k,
    {
        let c = b[k];
        if c < 48 || c > 57 {
            assert(!is_digit(body[k - i]));
            proof {
                lemma_parse_int_none(s, signed, lo as int, hi as int, (k - i) as int);
            }
            return None;
        }
        assert(body.take(k - i + 1).drop_last() =~= body.take(k - i));
        match mag.checked_mul(10) {
            None => {
                proof {
                    lemma_overflow(body, (k - i) as int);
                    lemma_parse_int_none(s, signed, lo as int, hi as int, -1);
                }
                return None;
            },
            Some(m10) => match m10.checked_add((c - 48) as u64) {
                None => {
                    proof {
                        lemma_overflow(body, (k - i) as int);
                        lemma_parse_int_none(s, signed, lo as int, hi as int, -1);
                    }
                    return None;
                },
                Some(m) => {
                    mag = m;
                },
            },
        }
        k = k + 1;
    }
    assert(body.take(k - i) =~= body);
    if neg {
        if mag as i128 > -(lo as i128) {
            None
        } else {
            Some(-(mag as i128) as i64)
        }
    } else {
        if mag > hi as u64 {
            None
        } else {
            Some(mag as i64)
        }
    }
}

/// Parses the `usize` held by `b[start..end]` as `str::parse` does.
pub fn parse_usize(b: &[u8], start: usize, end: usize) -> (r: Option<usize>)
    requires
        start <= end <= b@.len(),
    ensures
        r matches Some(v) ==> parse_int(b@.subrange(start as int, end as int), false, 0, usize::MAX as int) == Some(v as int),
        r is None ==> parse_int(b@.subrange(start as int, end as int), false, 0, usize::MAX as int) is None,
{
    let signed = false;
    let lo: i64 = 0;
    let hi: i64 = 0;
    let ghost s = b@.subrange(start as int, end as int);
    let neg = signed && start < end && b[start] == 45;
    assert(neg == minus_sign(s, signed));
    let mut i = start;
    if start < end && (b[start] == 43 || neg) {
        i = start + 1;
    }
    let ghost body = b@.subrange(i as int, end as int);
    assert(body =~= unsigned_part(s, signed));
    if i == end {
        assert(parse_int(s, signed, 0, usize::MAX as int) is None);
        return None;
    }
    let mut mag: u64 = 0;
    let mut k = i;
    while k < end
        invariant
            i <= k <= end <= b@.len(),
            body == b@.subrange(i as int, end as int),
            forall|j: int| 0 <= j < k - i ==> is_digit(#[trigger] body[j]),
            mag == digits_value(body.take(k - i)),
            s == b@.subrange(start as int, end as int),
            body == unsigned_part(s, signed),
            neg == minus_sign(s, signed),
        decreases end - k,
    {
        let c = b[k];
        if c < 48 || c > 57 {
            assert(!is_digit(body[k - i]));
            proof {
                lemma_parse_int_none(s, signed, 0, usize::MAX as int, (k - i) as int);
            }
            return None;
        }
        assert(body.take(k - i + 1).drop_last() =~= body.take(k - i));
        match mag.checked_mul(10) {
            None => {
                proof {
                    lemma_overflow(body, (k - i) as int);
                    lemma_parse_int_none(s, signed, 0, usize::MAX as int, -1);
                }
                return None;
            },
            Some(m10) => match m10.checked_add((c - 48) as u64) {
                None => {
                    proof {
                        lemma_overflow(body, (k - i) as int);
                        lemma_parse_int_none(s, signed, 0, usize::MAX as int, -1);
                    }
                    return None;
                },
                Some(m) => {
                    mag = m;
                },
            },
        }
        k = k + 1;
    }
    assert(body.take(k - i) =~= body);
    if mag as u128 > usize::MAX as u128 {
        None
    } else {
        Some(mag as usize)
    }
}

/// A run of digits whose value passes 2^64 - 1 at some prefix is worth
/// at least as much in full.
proof fn lemma_overflow(body: Seq<u8>, n: int)
    requires
        0 <= n < body.len(),
        digits_value(body.take(n + 1)) > u64::MAX,
    ensures
        all_digits(body) ==> digits_value(body) > u64::MAX,
{
    if all_digits(body) {
        lemma_digits_prefix(body, n + 1);
    }
}

// ── White space ─────────────────────────────────────────────────────────────

/// Whether `c` has the Unicode White_Space property (what
/// `char::is_whitespace` tests).
pub open spec fn is_white(c: char) -> bool {
    ('\t' <= c <= '\r') || c == ' ' || c == '\u{85}' || c == '\u{a0}' || c == '\u{1680}' || ('\u{2000}' <= c
        <= '\u{200a}') || c == '\u{2028}' || c == '\u{2029}' || c == '\u{202f}' || c == '\u{205f}' || c
        == '\u{3000}'
}

/// `s` without its leading white space.
pub open spec fn trim_start(s: Seq<char>) -> Seq<char>
    decreases s.len(),
{
    if s.len() > 0 && is_white(s[0]) {
        trim_start(s.drop_first())
    } else {
        s
    }
}

/// `s` without its trailing white space.
pub open spec fn trim_end(s: Seq<char>) -> Seq<char>
    decreases s.len(),
{
    if s.len() > 0 && is_white(s.last()) {
        trim_end(s.drop_last())
    } else {
        s
    }
}

/// `s` without leading and trailing white space (what `str::trim` gives).
pub open spec fn trimmed(s: Seq<char>) -> Seq<char> {
    trim_end(trim_start(s))
}

/// Whether `c` has the Unicode White_Space property.
pub fn white(c: char) -> (b: bool)
    ensures
        b == is_white(c),
{
    ('\t' <= c && c <= '\r') || c == ' ' || c == '\u{85}' || c == '\u{a0}' || c == '\u{1680}' || ('\u{2000}'
        <= c && c <= '\u{200a}') || c == '\u{2028}' || c == '\u{2029}' || c == '\u{202f}' || c == '\u{205f}'
        || c == '\u{3000}'
}

/// The characters of `s`.
pub fn chars_of(s: &str) -> (r: Vec<char>)
    ensures
        r@ == s@,
{
    let mut out: Vec<char> = Vec::new();
    for c in it: s.chars()
        invariant
            it.seq() == s@,
            out@ == s@.take(it.index()),
    {
        let ghost k = it.index();
        assert(c == s@[k]);
        out.push(c);
        assert(out@ =~= s@.take(k + 1));
    }
    assert(s@.take(s@.len() as int) =~= s@);
    out
}

/// The string of the characters `cs[start..end]`.
pub fn string_of(cs: &Vec<char>, start: usize, end: usize) -> (r: String)
    requires
        start <= end <= cs@.len(),
    ensures
        r@ == cs@.subrange(start as int, end as int),
{
    let mut out = String::new();
    let mut k = start;
    while k < end
        invariant
            start <= k <= end <= cs@.len(),
            out@ == cs@.subrange(start as int, k as int),
        decreases end - k,
    {
        push_char(&mut out, cs[k]);
        assert(out@ =~= cs@.subrange(start as int, k + 1));
        k = k + 1;
    }
    out
}

/// The bounds `(start, end)` of `cs` without leading and trailing white
/// space.
pub fn trim_bounds(cs: &Vec<char>) -> (r: (usize, usize))
    ensures
        r.0 <= r.1 <= cs@.len(),
        cs@.subrange(r.0 as int, r.1 as int) == trimmed(cs@),
{
    let mut i: usize = 0;
    assert(cs@.subrange(0, cs@.len() as int) =~= cs@);
    while i < cs.len() && white(cs[i])
        invariant
            i <= cs@.len(),
            trim_start(cs@) == trim_start(cs@.subrange(i as int, cs@.len() as int)),
        decreases cs@.len() - i,
    {
        assert(cs@.subrange(i as int, cs@.len() as int).drop_first() =~= cs@.subrange(i + 1, cs@.len() as int));
        i = i + 1;
    }
    assert(trim_start(cs@) == cs@.subrange(i as int, cs@.len() as int));
    let mut j: usize = cs.len();
    while j > i && white(cs[j - 1])
        invariant
            i <= j <= cs@.len(),
            trimmed(cs@) == trim_end(cs@.subrange(i as int, j as int)),
        decreases j,
    {
        assert(cs@.subrange(i as int, j as int).drop_last() =~= cs@.subrange(i as int, j - 1));
        j = j - 1;
    }
    (i, j)
}

} // verus!
