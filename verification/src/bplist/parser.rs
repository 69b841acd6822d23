//! Binary property list (`bplist00`) parser over an in-memory file.
//!
//! Trailer layout (the last 32 bytes): 5 unused bytes, `sort_version`,
//! `offset_int_size` (1-8), `object_ref_size` (1-8), then `num_objects`,
//! `top_object` and `offset_table_offset` as big-endian `u64`s.
//!
//! Every object starts with a marker byte: the upper nibble is the type, the
//! lower nibble carries inline information (a length, or `0xF` when an
//! integer object holding the length follows).
use vstd::prelude::*;
use vstd::utf8::*;
use vstd::arithmetic::power2::*;
use vstd::string::*;

use crate::float_bits::{f32_to_f64, f32_to_f64_bits, lemma_widen_sign};
use crate::unicode::{
    decode_utf16, push_char, utf16_decode, utf8_to_string,
};
use crate::value::{SpecValue, Value, views, pair_views};

verus! {

/// Deepest nesting the parser follows (a guard against reference cycles).
pub const MAX_DEPTH: usize = 256;

/// Size of the trailer at the end of the file.
pub const TRAILER_SIZE: usize = 32;

/// What went wrong reading the bytes of a file.
#[derive(Debug, PartialEq, Eq)]
pub enum IoErrorKind {
    /// A read ran past the end of the data.
    UnexpectedEof,
}

/// Why a binary property list could not be parsed.
#[derive(Debug)]
pub enum ParseError {
    /// The input is shorter than the minimum valid bplist.
    FileTooShort,
    /// The first 6 bytes are not `bplist`.
    InvalidMagic,
    /// The version field is not `00`.
    UnsupportedVersion,
    /// `offset_int_size` in the trailer is 0 or > 8.
    InvalidOffsetIntSize(u8),
    /// `object_ref_size` in the trailer is 0 or > 8.
    InvalidObjectRefSize(u8),
    /// An object reference points outside the offset table.
    IndexOutOfBounds(usize),
    /// A 0x5n object contained bytes that are not valid UTF-8.
    InvalidUtf8,
    /// A 0x6n object contained code units that form invalid UTF-16.
    InvalidUtf16,
    /// A marker byte with an unrecognised type tag was encountered.
    UnknownType(u8),
    /// The nesting depth limit was reached (likely a malformed file).
    MaxDepthExceeded,
    /// A malformed fixed-size structure (an extended count without its
    /// integer marker).
    NomError(String),
    /// A read past the end of the data.
    Io(IoErrorKind),
}

/// The model of a [`ParseError`]: messages as character sequences.
pub enum SpecParseError {
    FileTooShort,
    InvalidMagic,
    UnsupportedVersion,
    InvalidOffsetIntSize(u8),
    InvalidObjectRefSize(u8),
    IndexOutOfBounds(usize),
    InvalidUtf8,
    InvalidUtf16,
    UnknownType(u8),
    MaxDepthExceeded,
    NomError(Seq<char>),
    Io,
}

impl ParseError {
    pub open spec fn view(self) -> SpecParseError {
        match self {
            ParseError::FileTooShort => SpecParseError::FileTooShort,
            ParseError::InvalidMagic => SpecParseError::InvalidMagic,
            ParseError::UnsupportedVersion => SpecParseError::UnsupportedVersion,
            ParseError::InvalidOffsetIntSize(n) => SpecParseError::InvalidOffsetIntSize(n),
            ParseError::InvalidObjectRefSize(n) => SpecParseError::InvalidObjectRefSize(n),
            ParseError::IndexOutOfBounds(i) => SpecParseError::IndexOutOfBounds(i),
            ParseError::InvalidUtf8 => SpecParseError::InvalidUtf8,
            ParseError::InvalidUtf16 => SpecParseError::InvalidUtf16,
            ParseError::UnknownType(m) => SpecParseError::UnknownType(m),
            ParseError::MaxDepthExceeded => SpecParseError::MaxDepthExceeded,
            ParseError::NomError(s) => SpecParseError::NomError(s@),
            ParseError::Io(_) => SpecParseError::Io,
        }
    }
}

/// The model of a parse outcome.
pub open spec fn result_view(r: Result<Value, ParseError>) -> Result<SpecValue, SpecParseError> {
    match r {
        Ok(v) => Ok(v@),
        Err(e) => Err(e@),
    }
}

// ── Byte-level reading ──────────────────────────────────────────────────────

/// The number written by `bytes` in base 256, most significant byte first.
pub open spec fn be_value(bytes: Seq<u8>) -> nat
    decreases bytes.len(),
{
    if bytes.len() == 0 {
        0
    } else {
        be_value(bytes.drop_last()) * 256 + bytes.last() as nat
    }
}

/// A big-endian unsigned integer, reduced to 64 bits (only the last eight
/// bytes count).
pub open spec fn be_uint(bytes: Seq<u8>) -> u64 {
    (be_value(bytes) % 0x1_0000_0000_0000_0000) as u64
}

/// The `n` bytes at `pos`, if the data holds them (zero bytes can always be
/// read).
pub open spec fn read_at(d: Seq<u8>, pos: int, n: int) -> Option<Seq<u8>> {
    if pos + n <= d.len() {
        Some(d.subrange(pos, pos + n))
    } else if n == 0 {
        Some(Seq::empty())
    } else {
        None
    }
}

/// Upper-case hexadecimal digit.
pub open spec fn hex_digit(d: u8) -> char {
    if d < 10 {
        (48 + d) as char
    } else {
        (55 + d) as char
    }
}

/// The message of the error for an extended count whose second marker is
/// not an integer marker.
pub open spec fn count_marker_message(m: u8) -> Seq<char> {
    "expected integer marker for extended count, got 0x"@ + seq![hex_digit(m / 16), hex_digit(m % 16)]
}

/// Reads the count carried by a marker's low nibble `info`, with the data
/// after the marker starting at `pos`: the count and where the data after it
/// starts.
pub open spec fn spec_read_count(d: Seq<u8>, pos: int, info: u8) -> Result<(usize, int), SpecParseError> {
    if info < 15 {
        Ok((info as usize, pos))
    } else if pos >= d.len() {
        Err(SpecParseError::Io)
    } else {
        let m = d[pos];
        if m / 16 != 1 {
            Err(SpecParseError::NomError(count_marker_message(m)))
        } else {
            let n = pow2((m % 16) as nat) as int;
            match read_at(d, pos + 1, n) {
                Some(b) => Ok((be_uint(b) as usize, pos + 1 + n)),
                None => Err(SpecParseError::Io),
            }
        }
    }
}

/// The `count` big-endian references of `size` bytes each held by `bytes`.
pub open spec fn spec_refs(bytes: Seq<u8>, count: nat, size: nat) -> Seq<usize> {
    Seq::new(count, |i: int| be_uint(bytes.subrange(i * size, i * size + size)) as usize)
}

/// The big-endian UTF-16 code units held by `bytes`.
pub open spec fn spec_units(bytes: Seq<u8>) -> Seq<u16> {
    Seq::new(bytes.len() / 2, |i: int| (bytes[2 * i] * 256 + bytes[2 * i + 1]) as u16)
}

// ── Object parsing ───────────────────────────────────────────────────────────

/// Parses each object of `refs` in order, stopping at the first error.
pub open spec fn spec_objs(d: Seq<u8>, offs: Seq<u64>, rs: nat, refs: Seq<usize>, depth: nat) -> Result<Seq<SpecValue>, SpecParseError>
    decreases 257 - depth, 2nat, refs.len(),
{
    if refs.len() == 0 {
        Ok(Seq::empty())
    } else if depth > MAX_DEPTH {
        Err(SpecParseError::MaxDepthExceeded)
    } else {
        match spec_obj(d, offs, rs, refs[0], depth) {
            Err(e) => Err(e),
            Ok(v) => match spec_objs(d, offs, rs, refs.skip(1), depth) {
                Err(e) => Err(e),
                Ok(vs) => Ok(seq![v] + vs),
            },
        }
    }
}

/// Parses the key and the value of each pair in order, stopping at the first
/// error.
pub open spec fn spec_pairs(d: Seq<u8>, offs: Seq<u64>, rs: nat, keys: Seq<usize>, vals: Seq<usize>, depth: nat) -> Result<Seq<(SpecValue, SpecValue)>, SpecParseError>
    decreases 257 - depth, 2nat, keys.len(),
{
    if keys.len() == 0 || vals.len() == 0 {
        Ok(Seq::empty())
    } else if depth > MAX_DEPTH {
        Err(SpecParseError::MaxDepthExceeded)
    } else {
        match spec_obj(d, offs, rs, keys[0], depth) {
            Err(e) => Err(e),
            Ok(k) => match spec_obj(d, offs, rs, vals[0], depth) {
                Err(e) => Err(e),
                Ok(v) => match spec_pairs(d, offs, rs, keys.skip(1), vals.skip(1), depth) {
                    Err(e) => Err(e),
                    Ok(ps) => Ok(seq![(k, v)] + ps),
                },
            },
        }
    }
}

/// Parses object `idx` of the offset table `offs`, at nesting `depth`, with
/// object references of `rs` bytes.
pub open spec fn spec_obj(d: Seq<u8>, offs: Seq<u64>, rs: nat, idx: usize, depth: nat) -> Result<SpecValue, SpecParseError>
    decreases 257 - depth, 2nat, 0nat,
{
    if depth > MAX_DEPTH {
        Err(SpecParseError::MaxDepthExceeded)
    } else if idx >= offs.len() {
        Err(SpecParseError::IndexOutOfBounds(idx))
    } else if offs[idx as int] >= d.len() {
        Err(SpecParseError::Io)
    } else {
        let off = offs[idx as int] as int;
        let marker = d[off];
        let tag = marker / 16;
        if tag == 0xA || tag == 0xC || tag == 0xD {
            spec_collection(d, offs, rs, marker, off + 1, depth)
        } else if tag == 4 || tag == 5 || tag == 6 {
            spec_text(d, marker, off + 1)
        } else {
            spec_scalar(d, marker, off + 1)
        }
    }
}

/// An object with no count: singletons, integers, reals, dates and UIDs,
/// and markers of unknown type; its data starts at `pos`.
pub open spec fn spec_scalar(d: Seq<u8>, marker: u8, pos: int) -> Result<SpecValue, SpecParseError> {
    let tag = marker / 16;
    let info = marker % 16;
    if tag == 0 {
        if info == 0 {
            Ok(SpecValue::Null)
        } else if info == 8 {
            Ok(SpecValue::Bool(false))
        } else if info == 9 {
            Ok(SpecValue::Bool(true))
        } else {
            Err(SpecParseError::UnknownType(marker))
        }
    } else if tag == 1 {
        match read_at(d, pos, pow2(info as nat) as int) {
            Some(b) => Ok(SpecValue::Integer(be_uint(b) as i64)),
            None => Err(SpecParseError::Io),
        }
    } else if tag == 2 {
        if info == 2 {
            match read_at(d, pos, 4) {
                Some(b) => Ok(SpecValue::Real(f32_to_f64_bits(be_uint(b) as u32))),
                None => Err(SpecParseError::Io),
            }
        } else if info == 3 {
            match read_at(d, pos, 8) {
                Some(b) => Ok(SpecValue::Real(be_uint(b))),
                None => Err(SpecParseError::Io),
            }
        } else {
            Err(SpecParseError::UnknownType(marker))
        }
    } else if tag == 3 {
        if info != 3 {
            Err(SpecParseError::UnknownType(marker))
        } else {
            match read_at(d, pos, 8) {
                Some(b) => Ok(SpecValue::Date(be_uint(b))),
                None => Err(SpecParseError::Io),
            }
        }
    } else if tag == 8 {
        match read_at(d, pos, info + 1) {
            Some(b) => Ok(SpecValue::Uid(be_uint(b))),
            None => Err(SpecParseError::Io),
        }
    } else {
        Err(SpecParseError::UnknownType(marker))
    }
}

/// A data (0x4), ASCII string (0x5) or UTF-16 string (0x6) object whose
/// data starts at `pos`.
pub open spec fn spec_text(d: Seq<u8>, marker: u8, pos: int) -> Result<SpecValue, SpecParseError> {
    let tag = marker / 16;
    let info = marker % 16;
    match spec_read_count(d, pos, info) {
        Err(e) => Err(e),
        Ok((n, p)) => if tag == 6 {
            if n * 2 > usize::MAX {
                Err(SpecParseError::FileTooShort)
            } else {
                match read_at(d, p, n * 2) {
                    None => Err(SpecParseError::Io),
                    Some(b) => match utf16_decode(spec_units(b)) {
                        Some(s) => Ok(SpecValue::String(s)),
                        None => Err(SpecParseError::InvalidUtf16),
                    },
                }
            }
        } else {
            match read_at(d, p, n as int) {
                None => Err(SpecParseError::Io),
                Some(b) => if tag == 4 {
                    Ok(SpecValue::Data(b))
                } else if valid_utf8(b) {
                    Ok(SpecValue::String(decode_utf8(b)))
                } else {
                    Err(SpecParseError::InvalidUtf8)
                },
            }
        },
    }
}

/// An array (0xA), set (0xC) or dictionary (0xD) object whose data starts at
/// `pos`; its elements are parsed at `depth + 1`.
pub open spec fn spec_collection(d: Seq<u8>, offs: Seq<u64>, rs: nat, marker: u8, pos: int, depth: nat) -> Result<SpecValue, SpecParseError>
    decreases 257 - depth, 1nat, 0nat,
{
    let tag = marker / 16;
    let info = marker % 16;
    if depth > MAX_DEPTH {
        Err(SpecParseError::MaxDepthExceeded)
    } else {
        match spec_read_count(d, pos, info) {
            Err(e) => Err(e),
            Ok((n, p)) => match spec_read_refs(d, p, n, rs as usize) {
                Err(e) => Err(e),
                Ok(refs) => if tag == 0xD {
                    spec_dict_tail(d, offs, rs, p + n * rs, n, refs, depth)
                } else {
                    spec_items_tail(d, offs, rs, tag, refs, depth)
                },
            },
        }
    }
}

/// The rest of a dictionary once its `n` key references are read: its value
/// references start at `vpos`.
pub open spec fn spec_dict_tail(d: Seq<u8>, offs: Seq<u64>, rs: nat, vpos: int, n: usize, keys: Seq<usize>, depth: nat) -> Result<SpecValue, SpecParseError>
    decreases 257 - depth, 0nat, 0nat,
{
    if depth > MAX_DEPTH {
        Err(SpecParseError::MaxDepthExceeded)
    } else {
        match spec_read_refs(d, vpos, n, rs as usize) {
            Err(e) => Err(e),
            Ok(vals) => match spec_pairs(d, offs, rs, keys, vals, depth + 1) {
                Err(e) => Err(e),
                Ok(ps) => Ok(SpecValue::Dictionary(ps)),
            },
        }
    }
}

/// The rest of an array (`tag` 0xA) or set once its references are read.
pub open spec fn spec_items_tail(d: Seq<u8>, offs: Seq<u64>, rs: nat, tag: u8, refs: Seq<usize>, depth: nat) -> Result<SpecValue, SpecParseError>
    decreases 257 - depth, 0nat, 0nat,
{
    if depth > MAX_DEPTH {
        Err(SpecParseError::MaxDepthExceeded)
    } else {
        match spec_objs(d, offs, rs, refs, depth + 1) {
            Err(e) => Err(e),
            Ok(vs) => if tag == 0xA {
                Ok(SpecValue::Array(vs))
            } else {
                Ok(SpecValue::UnorderedSet(vs))
            },
        }
    }
}

/// The offset table: `num` big-endian entries of `size` bytes each.
pub open spec fn spec_offsets(ot: Seq<u8>, num: nat, size: nat) -> Seq<u64> {
    Seq::new(num, |i: int| be_uint(ot.subrange(i * size, i * size + size)))
}

/// Whether the data starts with the magic `bplist`.
pub open spec fn has_magic(d: Seq<u8>) -> bool {
    d[0] == 0x62 && d[1] == 0x70 && d[2] == 0x6C && d[3] == 0x69 && d[4] == 0x73 && d[5] == 0x74
}

/// What parsing the binary property list `d` gives.
pub open spec fn spec_parse(d: Seq<u8>) -> Result<SpecValue, SpecParseError> {
    let len = d.len() as int;
    if len < 40 {
        Err(SpecParseError::FileTooShort)
    } else if !has_magic(d) {
        Err(SpecParseError::InvalidMagic)
    } else if !(d[6] == 0x30 && d[7] == 0x30) {
        Err(SpecParseError::UnsupportedVersion)
    } else {
        let ois = d[len - 26];
        let ors = d[len - 25];
        let num = be_uint(d.subrange(len - 24, len - 16));
        let top = be_uint(d.subrange(len - 16, len - 8));
        let oto = be_uint(d.subrange(len - 8, len));
        if ois == 0 || ois > 8 {
            Err(SpecParseError::InvalidOffsetIntSize(ois))
        } else if ors == 0 || ors > 8 {
            Err(SpecParseError::InvalidObjectRefSize(ors))
        } else if (num as usize) * (ois as usize) > usize::MAX {
            Err(SpecParseError::FileTooShort)
        } else {
            match read_at(d, oto as int, (num as usize) * (ois as usize)) {
                None => Err(SpecParseError::Io),
                Some(ot) => spec_obj(
                    d,
                    spec_offsets(ot, (num as usize) as nat, ois as nat),
                    ors as nat,
                    top as usize,
                    0,
                ),
            }
        }
    }
}

/// `Ok(pre + vs)` where `r` is `Ok(vs)`.
pub open spec fn prepend_values(pre: Seq<SpecValue>, r: Result<Seq<SpecValue>, SpecParseError>) -> Result<Seq<SpecValue>, SpecParseError> {
    match r {
        Ok(vs) => Ok(pre + vs),
        Err(e) => Err(e),
    }
}

/// `Ok(pre + ps)` where `r` is `Ok(ps)`.
pub open spec fn prepend_pairs(pre: Seq<(SpecValue, SpecValue)>, r: Result<Seq<(SpecValue, SpecValue)>, SpecParseError>) -> Result<Seq<(SpecValue, SpecValue)>, SpecParseError> {
    match r {
        Ok(ps) => Ok(pre + ps),
        Err(e) => Err(e),
    }
}

proof fn lemma_be_step(prev: Seq<u8>, b: u8, acc: u64)
    requires
        acc == be_uint(prev),
    ensures
        ((acc << 8) | (b as u64)) == be_uint(prev.push(b)),
{
    let s = prev.push(b);
    assert(s.drop_last() =~= prev);
    let v = be_value(prev) as int;
    let m: int = 0x1_0000_0000_0000_0000;
    assert(((acc << 8) | (b as u64)) as int == (acc as int * 256 + b as int) % 0x1_0000_0000_0000_0000)
        by (bit_vector);
    vstd::arithmetic::div_mod::lemma_mul_mod_noop_left(v, 256, m);
    vstd::arithmetic::div_mod::lemma_add_mod_noop(v * 256, b as int, m);
    vstd::arithmetic::div_mod::lemma_add_mod_noop((v % m) * 256, b as int, m);
    vstd::arithmetic::div_mod::lemma_mod_twice(b as int, m);
}

/// The big-endian unsigned integer in the `n` bytes at `pos`, reduced to
/// 64 bits.
pub fn read_be_uint(data: &[u8], pos: usize, n: usize) -> (r: u64)
    requires
        pos + n <= data@.len(),
    ensures
        r == be_uint(data@.subrange(pos as int, pos + n)),
{
    let mut acc: u64 = 0;
    let mut i: usize = 0;
    assert(data@.subrange(pos as int, pos as int) =~= Seq::<u8>::empty());
    while i < n
        invariant
            pos + n <= data.len(),
            i <= n,
            acc == be_uint(data@.subrange(pos as int, pos + i)),
        decreases n - i,
    {
        let b = data[pos + i];
        proof {
            lemma_be_step(data@.subrange(pos as int, pos + i), b, acc);
            assert(data@.subrange(pos as int, pos + i).push(b) =~= data@.subrange(
                pos as int,
                pos + i + 1,
            ));
        }
        acc = (acc << 8) | (b as u64);
        i = i + 1;
    }
    acc
}

/// The `n` bytes at `pos` exist in the data.
fn can_read(data: &[u8], pos: u64, n: usize) -> (ok: bool)
    ensures
        ok == (pos + n <= data@.len()),
{
    pos <= data.len() as u64 && (n as u64) <= (data.len() as u64) - pos
}

/// The digit for the low nibble of `d`, in upper-case hexadecimal.
fn hex_digit_exec(d: u8) -> (c: char)
    requires
        d < 16,
    ensures
        c == hex_digit(d),
{
    if d < 10 {
        (48 + d) as char
    } else {
        (55 + d) as char
    }
}

/// The byte at `pos`, or an end-of-data error past the end.
pub fn read_byte(data: &[u8], pos: usize) -> (res: Result<u8, ParseError>)
    ensures
        pos < data@.len() ==> res == Ok::<u8, ParseError>(data@[pos as int]),
        pos >= data@.len() ==> res matches Err(ParseError::Io(IoErrorKind::UnexpectedEof)),
{
    if pos < data.len() {
        Ok(data[pos])
    } else {
        Err(ParseError::Io(IoErrorKind::UnexpectedEof))
    }
}

/// Reads the count carried by a marker's low nibble (see [`spec_read_count`]).
pub fn read_count(data: &[u8], pos: usize, info: u8) -> (res: Result<(usize, usize), ParseError>)
    requires
        pos <= data@.len(),
        info < 16,
    ensures
        match (res, spec_read_count(data@, pos as int, info)) {
            (Ok((n, p)), Ok((sn, sp))) => n == sn && p == sp && p <= data@.len(),
            (Err(e), Err(se)) => e@ == se,
            _ => false,
        },
{
    if info < 15 {
        return Ok((info as usize, pos));
    }
    let m = read_byte(data, pos)?;
    if m >> 4 != 1 {
        assert(m >> 4 == m / 16) by (bit_vector);
        let mut msg = String::from_str("expected integer marker for extended count, got 0x");
        assert(m & 0x0F == m % 16) by (bit_vector);
        push_char(&mut msg, hex_digit_exec(m >> 4));
        push_char(&mut msg, hex_digit_exec(m & 0x0F));
        assert(msg@ =~= count_marker_message(m));
        return Err(ParseError::NomError(msg));
    }
    assert(m >> 4 == m / 16) by (bit_vector);
    assert(m & 0x0F == m % 16) by (bit_vector);
    let e = m & 0x0F;
    let n: usize = 1usize << (e as usize);
    proof {
        lemma2_to64();
        vstd::bits::lemma_usize_shl_is_mul(1, e as usize);
        lemma_pow2_strictly_increases(e as nat, 16);
    }
    if n <= data.len() - (pos + 1) {
        let v = read_be_uint(data, pos + 1, n);
        Ok((#[verifier::truncate] (v as usize), pos + 1 + n))
    } else {
        Err(ParseError::Io(IoErrorKind::UnexpectedEof))
    }
}



/// What reading `count` references of `size` bytes at `pos` gives.
pub open spec fn spec_read_refs(d: Seq<u8>, pos: int, count: usize, size: usize) -> Result<Seq<usize>, SpecParseError> {
    if count * size > usize::MAX {
        Err(SpecParseError::FileTooShort)
    } else {
        match read_at(d, pos, count * size) {
            None => Err(SpecParseError::Io),
            Some(b) => Ok(spec_refs(b, count as nat, size as nat)),
        }
    }
}

/// Reads `count` object references of `size` bytes each (big-endian).
pub fn read_refs(data: &[u8], pos: usize, count: usize, size: usize) -> (res: Result<Vec<usize>, ParseError>)
    requires
        pos <= data@.len(),
        1 <= size <= 8,
    ensures
        match (res, spec_read_refs(data@, pos as int, count, size)) {
            (Ok(v), Ok(sv)) => v@ == sv,
            (Err(e), Err(se)) => e@ == se,
            _ => false,
        },
        res is Ok ==> pos + count * size <= data@.len(),
{
    let total = match count.checked_mul(size) {
        Some(t) => t,
        None => return Err(ParseError::FileTooShort),
    };
    if total > data.len() - pos {
        return Err(ParseError::Io(IoErrorKind::UnexpectedEof));
    }
    let ghost bytes = data@.subrange(pos as int, pos + total);
    let mut refs: Vec<usize> = Vec::new();
    let mut i: usize = 0;
    let mut off: usize = pos;
    while i < count
        invariant
            total == count * size,
            pos + total <= data.len(),
            1 <= size <= 8,
            i <= count,
            off == pos + i * size,
            bytes == data@.subrange(pos as int, pos + total),
            refs@.len() == i,
            forall|j: int| 0 <= j < i ==> refs@[j] == spec_refs(bytes, count as nat, size as nat)[j],
        decreases count - i,
    {
        assert(i * size + size <= total) by (nonlinear_arith)
            requires i < count, total == count * size, size >= 1;
        let r = read_be_uint(data, off, size);
        assert(bytes.subrange(i * size, i * size + size) =~= data@.subrange(off as int, off + size));
        refs.push(#[verifier::truncate] (r as usize));
        assert((i + 1) * size == i * size + size) by (nonlinear_arith);
        off = off + size;
        i = i + 1;
    }
    assert(refs@ =~= spec_refs(bytes, count as nat, size as nat));
    Ok(refs)
}

/// The parse context threaded through recursive object parsing.
struct ParseContext<'a> {
    data: &'a [u8],
    /// Byte offset of each object, indexed by object ID.
    offsets: Vec<u64>,
    /// Bytes per object reference (from the trailer).
    object_ref_size: usize,
}

proof fn lemma_prepend_values_assoc(a: Seq<SpecValue>, b: Seq<SpecValue>, r: Result<Seq<SpecValue>, SpecParseError>)
    ensures
        prepend_values(a, prepend_values(b, r)) == prepend_values(a + b, r),
{
    if let Ok(vs) = r {
        assert(a + (b + vs) =~= (a + b) + vs);
    }
}

proof fn lemma_prepend_pairs_assoc(a: Seq<(SpecValue, SpecValue)>, b: Seq<(SpecValue, SpecValue)>, r: Result<Seq<(SpecValue, SpecValue)>, SpecParseError>)
    ensures
        prepend_pairs(a, prepend_pairs(b, r)) == prepend_pairs(a + b, r),
{
    if let Ok(ps) = r {
        assert(a + (b + ps) =~= (a + b) + ps);
    }
}

/// Parses the objects of `refs` in order, at nesting `depth`.
fn parse_objects(refs: &Vec<usize>, ctx: &ParseContext, depth: usize) -> (res: Result<Vec<Value>, ParseError>)
    requires
        1 <= depth <= MAX_DEPTH + 1,
        1 <= ctx.object_ref_size <= 8,
    ensures
        match (res, spec_objs(ctx.data@, ctx.offsets@, ctx.object_ref_size as nat, refs@, depth as nat)) {
            (Ok(v), Ok(sv)) => views(v@) == sv,
            (Err(e), Err(se)) => e@ == se,
            _ => false,
        },
    decreases MAX_DEPTH + 1 - depth, 3nat,
{
    let mut items: Vec<Value> = Vec::new();
    let mut i: usize = 0;
    let ghost d = ctx.data@;
    let ghost offs = ctx.offsets@;
    let ghost rs = ctx.object_ref_size as nat;
    assert(refs@.skip(0) =~= refs@);
    assert(views(items@) + Seq::<SpecValue>::empty() =~= views(items@));
    while i < refs.len()
        invariant
            1 <= depth <= MAX_DEPTH + 1,
            1 <= ctx.object_ref_size <= 8,
            d == ctx.data@,
            offs == ctx.offsets@,
            rs == ctx.object_ref_size as nat,
            i <= refs.len(),
            spec_objs(d, offs, rs, refs@, depth as nat) == prepend_values(
                views(items@),
                spec_objs(d, offs, rs, refs@.skip(i as int), depth as nat),
            ),
        decreases refs.len() - i,
    {
        let ghost rest = refs@.skip(i as int);
        assert(rest[0] == refs@[i as int]);
        assert(rest.skip(1) =~= refs@.skip(i + 1));
        let item = parse_object_at(refs[i], ctx, depth);
        match item {
            Err(e) => {
                return Err(e);
            },
            Ok(v) => {
                proof {
                    lemma_prepend_values_assoc(
                        views(items@),
                        seq![v@],
                        spec_objs(d, offs, rs, refs@.skip(i + 1), depth as nat),
                    );
                }
                let ghost prev = items@;
                items.push(v);
                assert(views(items@) =~= views(prev) + seq![v@]);
                i = i + 1;
            },
        }
    }
    assert(refs@.skip(i as int) =~= Seq::<usize>::empty());
    assert(views(items@) + Seq::<SpecValue>::empty() =~= views(items@));
    Ok(items)
}

/// Parses the keys and values of `keys` and `vals` pairwise, at nesting
/// `depth`.
fn parse_pairs(keys: &Vec<usize>, vals: &Vec<usize>, ctx: &ParseContext, depth: usize) -> (res: Result<Vec<(Value, Value)>, ParseError>)
    requires
        1 <= depth <= MAX_DEPTH + 1,
        1 <= ctx.object_ref_size <= 8,
        keys@.len() == vals@.len(),
    ensures
        match (res, spec_pairs(ctx.data@, ctx.offsets@, ctx.object_ref_size as nat, keys@, vals@, depth as nat)) {
            (Ok(v), Ok(sv)) => pair_views(v@) == sv,
            (Err(e), Err(se)) => e@ == se,
            _ => false,
        },
    decreases MAX_DEPTH + 1 - depth, 3nat,
{
    let mut pairs: Vec<(Value, Value)> = Vec::new();
    let mut i: usize = 0;
    let ghost d = ctx.data@;
    let ghost offs = ctx.offsets@;
    let ghost rs = ctx.object_ref_size as nat;
    assert(keys@.skip(0) =~= keys@);
    assert(vals@.skip(0) =~= vals@);
    assert(pair_views(pairs@) + Seq::<(SpecValue, SpecValue)>::empty() =~= pair_views(pairs@));
    while i < keys.len()
        invariant
            1 <= depth <= MAX_DEPTH + 1,
            1 <= ctx.object_ref_size <= 8,
            keys@.len() == vals@.len(),
            d == ctx.data@,
            offs == ctx.offsets@,
            rs == ctx.object_ref_size as nat,
            i <= keys.len(),
            spec_pairs(d, offs, rs, keys@, vals@, depth as nat) == prepend_pairs(
                pair_views(pairs@),
                spec_pairs(d, offs, rs, keys@.skip(i as int), vals@.skip(i as int), depth as nat),
            ),
        decreases keys.len() - i,
    {
        let ghost krest = keys@.skip(i as int);
        let ghost vrest = vals@.skip(i as int);
        assert(krest[0] == keys@[i as int]);
        assert(vrest[0] == vals@[i as int]);
        assert(krest.skip(1) =~= keys@.skip(i + 1));
        assert(vrest.skip(1) =~= vals@.skip(i + 1));
        let key = match parse_object_at(keys[i], ctx, depth) {
            Err(e) => return Err(e),
            Ok(k) => k,
        };
        let val = match parse_object_at(vals[i], ctx, depth) {
            Err(e) => return Err(e),
            Ok(v) => v,
        };
        proof {
            lemma_prepend_pairs_assoc(
                pair_views(pairs@),
                seq![(key@, val@)],
                spec_pairs(d, offs, rs, keys@.skip(i + 1), vals@.skip(i + 1), depth as nat),
            );
        }
        let ghost prev = pairs@;
        let ghost kv = key@;
        let ghost vv = val@;
        pairs.push((key, val));
        assert(pair_views(pairs@) =~= pair_views(prev) + seq![(kv, vv)]);
        i = i + 1;
    }
    assert(keys@.skip(i as int) =~= Seq::<usize>::empty());
    assert(pair_views(pairs@) + Seq::<(SpecValue, SpecValue)>::empty() =~= pair_views(pairs@));
    Ok(pairs)
}

/// Parses an object of [`spec_scalar`]'s kinds whose data starts at `pos`.
fn parse_scalar(data: &[u8], marker: u8, pos: usize) -> (res: Result<Value, ParseError>)
    requires
        pos <= data@.len(),
    ensures
        result_view(res) == spec_scalar(data@, marker, pos as int),
{
    let type_tag = marker >> 4;
    let info = marker & 0x0F;
    assert(type_tag == marker / 16 && info == marker % 16) by (bit_vector)
        requires type_tag == marker >> 4, info == marker & 0x0F;
    let avail = data.len() - pos;
    proof {
        lemma2_to64();
    }
    if type_tag == 0x0 {
        if info == 0x0 {
            Ok(Value::Null)
        } else if info == 0x8 {
            Ok(Value::Bool(false))
        } else if info == 0x9 {
            Ok(Value::Bool(true))
        } else {
            Err(ParseError::UnknownType(marker))
        }
    } else if type_tag == 0x1 {
        // 2^info big-endian bytes.
        let byte_count: usize = 1usize << (info as usize);
        proof {
            vstd::bits::lemma_usize_shl_is_mul(1, info as usize);
            lemma_pow2_strictly_increases(info as nat, 16);
        }
        if byte_count <= avail {
            let v = read_be_uint(data, pos, byte_count);
            // Eight-byte values are two's complement; shorter ones stay non-negative.
            Ok(Value::Integer(#[verifier::truncate] (v as i64)))
        } else {
            Err(ParseError::Io(IoErrorKind::UnexpectedEof))
        }
    } else if type_tag == 0x2 {
        if info == 2 {
            if 4 <= avail {
                let v = read_be_uint(data, pos, 4);
                Ok(Value::Real(f32_to_f64(#[verifier::truncate] (v as u32))))
            } else {
                Err(ParseError::Io(IoErrorKind::UnexpectedEof))
            }
        } else if info == 3 {
            if 8 <= avail {
                Ok(Value::Real(read_be_uint(data, pos, 8)))
            } else {
                Err(ParseError::Io(IoErrorKind::UnexpectedEof))
            }
        } else {
            Err(ParseError::UnknownType(marker))
        }
    } else if type_tag == 0x3 {
        if info != 3 {
            Err(ParseError::UnknownType(marker))
        } else if 8 <= avail {
            Ok(Value::Date(read_be_uint(data, pos, 8)))
        } else {
            Err(ParseError::Io(IoErrorKind::UnexpectedEof))
        }
    } else if type_tag == 0x8 {
        let byte_count = (info as usize) + 1;
        if byte_count <= avail {
            Ok(Value::Uid(read_be_uint(data, pos, byte_count)))
        } else {
            Err(ParseError::Io(IoErrorKind::UnexpectedEof))
        }
    } else {
        Err(ParseError::UnknownType(marker))
    }
}

/// Parses a data or string object whose data starts at `pos`.
fn parse_text(data: &[u8], marker: u8, pos: usize) -> (res: Result<Value, ParseError>)
    requires
        pos <= data@.len(),
        marker / 16 == 4 || marker / 16 == 5 || marker / 16 == 6,
    ensures
        result_view(res) == spec_text(data@, marker, pos as int),
{
    let type_tag = marker >> 4;
    let info = marker & 0x0F;
    assert(type_tag == marker / 16 && info == marker % 16) by (bit_vector)
        requires type_tag == marker >> 4, info == marker & 0x0F;
    if type_tag == 0x6 {
        let (char_count, p) = read_count(data, pos, info)?;
        let byte_count = match char_count.checked_mul(2) {
            Some(b) => b,
            None => return Err(ParseError::FileTooShort),
        };
        if byte_count > data.len() - p {
            return Err(ParseError::Io(IoErrorKind::UnexpectedEof));
        }
        let ghost b = data@.subrange(p as int, p + byte_count);
        let mut units: Vec<u16> = Vec::new();
        let mut k: usize = 0;
        while k < char_count
            invariant
                byte_count == char_count * 2,
                p + byte_count <= data.len(),
                b == data@.subrange(p as int, p + byte_count),
                k <= char_count,
                units@.len() == k,
                forall|j: int| 0 <= j < k ==> units@[j] == spec_units(b)[j],
            decreases char_count - k,
        {
            let hi = data[p + 2 * k];
            let lo = data[p + 2 * k + 1];
            units.push((hi as u16) * 256 + (lo as u16));
            k = k + 1;
        }
        assert(units@ =~= spec_units(b));
        match decode_utf16(units.as_slice()) {
            Some(s) => Ok(Value::String(s)),
            None => Err(ParseError::InvalidUtf16),
        }
    } else {
        let (len, p) = read_count(data, pos, info)?;
        if len > data.len() - p {
            return Err(ParseError::Io(IoErrorKind::UnexpectedEof));
        }
        let bytes = vstd::slice::slice_subrange(data, p, p + len);
        if type_tag == 0x4 {
            Ok(Value::Data(vstd::slice::slice_to_vec(bytes)))
        } else {
            match utf8_to_string(bytes) {
                Some(s) => Ok(Value::String(s)),
                None => Err(ParseError::InvalidUtf8),
            }
        }
    }
}

/// Parses an array, set or dictionary whose data starts at `pos`.
fn parse_collection(marker: u8, pos: usize, ctx: &ParseContext, depth: usize) -> (res: Result<Value, ParseError>)
    requires
        depth <= MAX_DEPTH,
        pos <= ctx.data@.len(),
        1 <= ctx.object_ref_size <= 8,
        marker / 16 == 0xA || marker / 16 == 0xC || marker / 16 == 0xD,
    ensures
        result_view(res) == spec_collection(ctx.data@, ctx.offsets@, ctx.object_ref_size as nat, marker, pos as int, depth as nat),
    decreases MAX_DEPTH + 1 - depth, 1nat,
{
    let data = ctx.data;
    let type_tag = marker >> 4;
    let info = marker & 0x0F;
    assert(type_tag == marker / 16 && info == marker % 16) by (bit_vector)
        requires type_tag == marker >> 4, info == marker & 0x0F;
    let ref_size = ctx.object_ref_size;
    let (count, p) = read_count(data, pos, info)?;
    // Collect all refs before any recursive parse.
    let refs = match read_refs(data, p, count, ref_size) {
        Ok(r) => r,
        Err(e) => return Err(e),
    };
    if type_tag == 0xD {
        // Layout: all key refs, then all value refs.
        let dl = data.len();
        assert(p + count * ref_size <= dl);
        let total = count * ref_size;
        let vpos = p + total;
        parse_dict_tail(vpos, count, &refs, ctx, depth)
    } else {
        parse_items_tail(type_tag, &refs, ctx, depth)
    }
}

/// The rest of a dictionary once its key references are read.
fn parse_dict_tail(vpos: usize, count: usize, keys: &Vec<usize>, ctx: &ParseContext, depth: usize) -> (res: Result<Value, ParseError>)
    requires
        depth <= MAX_DEPTH,
        vpos <= ctx.data@.len(),
        1 <= ctx.object_ref_size <= 8,
        keys@.len() == count,
    ensures
        result_view(res) == spec_dict_tail(ctx.data@, ctx.offsets@, ctx.object_ref_size as nat, vpos as int, count, keys@, depth as nat),
    decreases MAX_DEPTH + 1 - depth, 0nat,
{
    let val_refs = read_refs(ctx.data, vpos, count, ctx.object_ref_size)?;
    let pairs = parse_pairs(keys, &val_refs, ctx, depth + 1)?;
    proof {
        crate::value::lemma_pairs_views(pairs);
    }
    Ok(Value::Dictionary(pairs))
}

/// The rest of an array (`type_tag` 0xA) or set once its references are read.
fn parse_items_tail(type_tag: u8, refs: &Vec<usize>, ctx: &ParseContext, depth: usize) -> (res: Result<Value, ParseError>)
    requires
        depth <= MAX_DEPTH,
        1 <= ctx.object_ref_size <= 8,
    ensures
        result_view(res) == spec_items_tail(ctx.data@, ctx.offsets@, ctx.object_ref_size as nat, type_tag, refs@, depth as nat),
    decreases MAX_DEPTH + 1 - depth, 0nat,
{
    let items = parse_objects(refs, ctx, depth + 1)?;
    proof {
        crate::value::lemma_items_views(items);
    }
    if type_tag == 0xA {
        Ok(Value::Array(items))
    } else {
        Ok(Value::UnorderedSet(items))
    }
}

/// Seek to object `idx` in the offset table and parse it.
fn parse_object_at(idx: usize, ctx: &ParseContext, depth: usize) -> (res: Result<Value, ParseError>)
    requires
        depth <= MAX_DEPTH + 1,
        1 <= ctx.object_ref_size <= 8,
    ensures
        result_view(res) == spec_obj(ctx.data@, ctx.offsets@, ctx.object_ref_size as nat, idx, depth as nat),
    decreases MAX_DEPTH + 1 - depth, 2nat,
{
    if depth > MAX_DEPTH {
        return Err(ParseError::MaxDepthExceeded);
    }
    if idx >= ctx.offsets.len() {
        return Err(ParseError::IndexOutOfBounds(idx));
    }
    let offset = ctx.offsets[idx];
    let data = ctx.data;
    if offset >= data.len() as u64 {
        return Err(ParseError::Io(IoErrorKind::UnexpectedEof));
    }
    let off = offset as usize;
    let marker = data[off];
    let type_tag = marker >> 4;
    assert(type_tag == marker / 16) by (bit_vector)
        requires type_tag == marker >> 4;
    if type_tag == 0xA || type_tag == 0xC || type_tag == 0xD {
        parse_collection(marker, off + 1, ctx, depth)
    } else if type_tag == 0x4 || type_tag == 0x5 || type_tag == 0x6 {
        parse_text(data, marker, off + 1)
    } else {
        parse_scalar(data, marker, off + 1)
    }
}


/// Reads the offset table: `num` entries of `size` bytes at `pos`.
fn read_offset_table(data: &[u8], pos: usize, num: usize, size: usize) -> (offsets: Vec<u64>)
    requires
        1 <= size <= 8,
        pos + num * size <= data@.len(),
    ensures
        offsets@ == spec_offsets(data@.subrange(pos as int, pos + num * size), num as nat, size as nat),
{
    let ghost ot = data@.subrange(pos as int, pos + num * size);
    let mut offsets: Vec<u64> = Vec::new();
    let mut i: usize = 0;
    let mut off: usize = pos;
    while i < num
        invariant
            1 <= size <= 8,
            pos + num * size <= data.len(),
            i <= num,
            off == pos + i * size,
            ot == data@.subrange(pos as int, pos + num * size),
            offsets@.len() == i,
            forall|j: int| 0 <= j < i ==> offsets@[j] == spec_offsets(ot, num as nat, size as nat)[j],
        decreases num - i,
    {
        assert(i * size + size <= num * size) by (nonlinear_arith)
            requires i < num, size >= 1;
        let r = read_be_uint(data, off, size);
        assert(ot.subrange(i * size, i * size + size) =~= data@.subrange(off as int, off + size));
        offsets.push(r);
        assert((i + 1) * size == i * size + size) by (nonlinear_arith);
        off = off + size;
        i = i + 1;
    }
    assert(offsets@ =~= spec_offsets(ot, num as nat, size as nat));
    offsets
}

/// Parses a binary property list (`bplist00`) held in memory.
///
/// The trailer gives the offset table and the root object; objects are read
/// at the offsets the table records.
pub fn parse(data: &[u8]) -> (res: Result<Value, ParseError>)
    ensures
        result_view(res) == spec_parse(data@),
{
    // 1. The header and the trailer must fit.
    let file_len = data.len();
    if file_len < 40 {
        return Err(ParseError::FileTooShort);
    }
    // 2. Validate the 8-byte header.
    if !(data[0] == 0x62 && data[1] == 0x70 && data[2] == 0x6C && data[3] == 0x69 && data[4] == 0x73
        && data[5] == 0x74) {
        return Err(ParseError::InvalidMagic);
    }
    if !(data[6] == 0x30 && data[7] == 0x30) {
        return Err(ParseError::UnsupportedVersion);
    }
    // 3. Read the 32-byte trailer.
    let t = file_len - TRAILER_SIZE;
    let offset_int_size = data[t + 6];
    let object_ref_size = data[t + 7];
    let num_objects = read_be_uint(data, t + 8, 8);
    let top_object = read_be_uint(data, t + 16, 8);
    let offset_table_offset = read_be_uint(data, t + 24, 8);
    // 4. Sanity-check sizes from the trailer.
    if offset_int_size == 0 || offset_int_size > 8 {
        return Err(ParseError::InvalidOffsetIntSize(offset_int_size));
    }
    if object_ref_size == 0 || object_ref_size > 8 {
        return Err(ParseError::InvalidObjectRefSize(object_ref_size));
    }
    // 5. Read the offset table.
    let num = #[verifier::truncate] (num_objects as usize);
    let entry_size = offset_int_size as usize;
    let ot_len = match num.checked_mul(entry_size) {
        Some(n) => n,
        None => return Err(ParseError::FileTooShort),
    };
    let offsets = if ot_len == 0 {
        assert(num == 0) by (nonlinear_arith)
            requires ot_len == num * entry_size, entry_size >= 1, ot_len == 0;
        assert(spec_offsets(Seq::<u8>::empty(), 0, entry_size as nat) =~= Seq::<u64>::empty());
        Vec::new()
    } else if can_read(data, offset_table_offset, ot_len) {
        read_offset_table(data, offset_table_offset as usize, num, entry_size)
    } else {
        return Err(ParseError::Io(IoErrorKind::UnexpectedEof));
    };
    // 6. Parse the root object.
    let ctx = ParseContext { data, offsets, object_ref_size: object_ref_size as usize };
    parse_object_at(#[verifier::truncate] (top_object as usize), &ctx, 0)
}

/// A `0x22` object, a 4-byte real, parses to the binary64 of the number
/// that its big-endian binary32 payload holds, sign bit included: the
/// result is negative exactly when the payload's top bit is set.
pub proof fn lemma_real32_object(d: Seq<u8>, offs: Seq<u64>, rs: nat, idx: usize, depth: nat)
    requires
        depth <= MAX_DEPTH,
        idx < offs.len(),
        offs[idx as int] + 5 <= d.len(),
        d[offs[idx as int] as int] == 0x22,
    ensures
        ({
            let p = offs[idx as int] as int;
            let w = (d[p + 1] * 0x100_0000 + d[p + 2] * 0x1_0000 + d[p + 3] * 0x100 + d[p + 4]) as u32;
            &&& spec_obj(d, offs, rs, idx, depth) == Ok::<SpecValue, SpecParseError>(SpecValue::Real(f32_to_f64_bits(w)))
            &&& (f32_to_f64_bits(w) >= 0x8000_0000_0000_0000) == (d[p + 1] >= 0x80)
        }),
{
    let p = offs[idx as int] as int;
    let w = (d[p + 1] * 0x100_0000 + d[p + 2] * 0x1_0000 + d[p + 3] * 0x100 + d[p + 4]) as u32;
    let b = d.subrange(p + 1, p + 5);
    assert(read_at(d, p + 1, 4) == Some(b));
    reveal_with_fuel(be_value, 5);
    assert(b.drop_last() =~= d.subrange(p + 1, p + 4));
    assert(b.drop_last().drop_last() =~= d.subrange(p + 1, p + 3));
    assert(b.drop_last().drop_last().drop_last() =~= d.subrange(p + 1, p + 2));
    assert(b.drop_last().drop_last().drop_last().drop_last() =~= Seq::<u8>::empty());
    assert(be_value(b) == d[p + 1] * 0x100_0000 + d[p + 2] * 0x1_0000 + d[p + 3] * 0x100 + d[p + 4]);
    assert(be_uint(b) as u32 == w);
    assert(spec_scalar(d, 0x22, p + 1) == Ok::<SpecValue, SpecParseError>(SpecValue::Real(f32_to_f64_bits(w))));
    lemma_widen_sign(w);
}

} // verus!
