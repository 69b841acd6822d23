//! Reading back what the serializer wrote gives the value that was written.
//!
//! The proof follows the file layout: the header, the encoded objects in
//! pre-order, the offset table and the trailer.  Each object is found again
//! at its offset, and each collection's references name the objects of its
//! children.
use vstd::prelude::*;
use vstd::arithmetic::power2::*;

use crate::bplist::layout::{
    child_id, child_ids, child_flats, child_sizes, children, concat, flat, height, lemma_children,
    lemma_child_decreases, lemma_concat_len, lemma_concat_prefix, lemma_concat_take,
    lemma_concat_part, lemma_concat_take_mono, lemma_concat_uniform, lemma_flat_link, lemma_height_child,
    lemma_flat_ids, lemma_flat_len, lemma_sum_prefix, lemma_sum_take_all, max_of, size, sum,
};
use crate::bplist::parser::{
    be_uint, be_value, read_at, spec_collection, spec_dict_tail, spec_items_tail, spec_obj,
    spec_objs, spec_offsets, spec_pairs, spec_parse, spec_read_count, spec_read_refs, spec_refs,
    spec_scalar, spec_text, spec_units, SpecParseError, MAX_DEPTH,
};
use crate::bplist::writer::{
    be_bytes, count_bytes, encode_node, encodings, int_width, magic, offsets_of, pow2_width,
    ref_size_for, refs_bytes, spec_write, trailer_bytes, uid_width, units_bytes, width_exp,
};
use crate::value::SpecValue;
use crate::unicode::{lemma_utf16_roundtrip, utf16_decode, utf16_encode};

verus! {

// ── Big-endian integers ─────────────────────────────────────────────────────

/// `k` big-endian bytes of `x` read back as `x` modulo `2^(8k)`.
proof fn lemma_be_bytes_value(x: nat, k: nat)
    ensures
        be_value(be_bytes(x, k)) == x % pow2(8 * k),
    decreases k,
{
    lemma_pow2_pos(8 * k);
    if k == 0 {
        assert(be_bytes(x, k) =~= Seq::<u8>::empty());
        assert(pow2(0) == 1) by { lemma2_to64(); }
    } else {
        let b = be_bytes(x, k);
        let q = x / 256;
        lemma2_to64();
        assert forall|i: int| 0 <= i < k - 1 implies #[trigger] b.drop_last()[i] == be_bytes(q, (k - 1) as nat)[i] by {
            let e = (8 * (k - 2 - i)) as nat;
            lemma_pow2_adds(8, e);
            lemma_pow2_pos(e);
            assert(8 * (k - 1 - i) == 8 + e);
            vstd::arithmetic::div_mod::lemma_div_denominator(x as int, 256, pow2(e) as int);
        }
        assert(b.drop_last() =~= be_bytes(q, (k - 1) as nat));
        assert(8 * (k - 1 - (k - 1)) == 0);
        assert(pow2(0) == 1);
        assert(x / 1 == x);
        assert(b[k - 1] == ((x / pow2(0)) % 256) as u8);
        assert(b.last() == (x % 256) as u8);
        lemma_be_bytes_value(q, (k - 1) as nat);
        let m = pow2(8 * (k - 1) as nat);
        lemma_pow2_pos(8 * (k - 1) as nat);
        lemma_pow2_adds(8, 8 * (k - 1) as nat);
        assert(8 * k == 8 + 8 * (k - 1) as nat);
        vstd::arithmetic::div_mod::lemma_breakdown(x as int, 256, m as int);
        assert(be_value(b) == (q % m) * 256 + x % 256);
        assert((q % m) * 256 == 256 * (q % m)) by (nonlinear_arith);
    }
}

/// Bytes that hold `x` whole read back as `x`.
proof fn lemma_be_bytes_exact(x: nat, k: nat)
    requires
        x < pow2(8 * k),
        x < 0x1_0000_0000_0000_0000,
    ensures
        be_uint(be_bytes(x, k)) == x,
{
    lemma_be_bytes_value(x, k);
    vstd::arithmetic::div_mod::lemma_small_mod(x, pow2(8 * k));
    vstd::arithmetic::div_mod::lemma_small_mod(x, 0x1_0000_0000_0000_0000);
}

/// The widths chosen for a count or a reference hold it.
proof fn lemma_widths(val: u64)
    ensures
        width_exp(val) < 4,
        (val as nat) < pow2(8 * pow2(width_exp(val) as nat)),
        (val as nat) < pow2(8 * (pow2_width(val) as nat)),
        pow2_width(val) == pow2(width_exp(val) as nat),
        1 <= uid_width(val) <= 8,
        (val as nat) < pow2(8 * (uid_width(val) as nat)),
{
    lemma2_to64();
    lemma2_to64_rest();
}

// ── The file layout ─────────────────────────────────────────────────────────

/// The object references' width in the file written for `v`.
spec fn rs_of(v: SpecValue) -> nat {
    ref_size_for(flat(v, 0).len())
}

/// The encoded objects of the file written for `v`.
spec fn encs_of(v: SpecValue) -> Seq<Seq<u8>> {
    encodings(flat(v, 0), rs_of(v))
}

/// The offset table of the file written for `v`, as the parser reads it.
spec fn table_of(v: SpecValue) -> Seq<u64> {
    Seq::new(flat(v, 0).len(), |k: int| offsets_of(encs_of(v))[k] as u64)
}

/// Object `k` of the file written for `v` stands at its offset.
proof fn lemma_object_bytes(v: SpecValue, k: int)
    requires
        0 <= k < flat(v, 0).len(),
        spec_write(v).len() <= usize::MAX,
    ensures
        offsets_of(encs_of(v))[k] + encs_of(v)[k].len() <= 8 + concat(encs_of(v)).len(),
        8 + concat(encs_of(v)).len() < spec_write(v).len(),
        spec_write(v).subrange(
            offsets_of(encs_of(v))[k] as int,
            (offsets_of(encs_of(v))[k] + encs_of(v)[k].len()) as int,
        ) == encs_of(v)[k],
        table_of(v)[k] == offsets_of(encs_of(v))[k],
{
    let d = spec_write(v);
    let encs = encs_of(v);
    let body = concat(encs);
    lemma_concat_part(encs, k);
    let p = concat(encs.take(k)).len() as int;
    assert(d.subrange(8, 8 + body.len() as int) =~= body);
    assert(d.subrange(8 + p, 8 + p + encs[k].len()) =~= body.subrange(p, p + encs[k].len()));
}

/// The file written for `v` is at least one byte per object long.
proof fn lemma_file_len(v: SpecValue)
    ensures
        flat(v, 0).len() <= spec_write(v).len(),
{
    let objs = flat(v, 0);
    let n = objs.len();
    let encs = encs_of(v);
    let offs = offsets_of(encs);
    lemma_flat_len(v, 0);
    let max_offset: nat = offs.last();
    let ois = pow2_width(max_offset as u64) as nat;
    let parts = Seq::new(n, |k: int| be_bytes(offs[k], ois));
    lemma_concat_uniform(parts, ois, n as int);
    assert(parts.take(n as int) =~= parts);
    assert(ois >= 1);
    assert(n <= n * ois) by (nonlinear_arith)
        requires ois >= 1;
}

/// The trailer and the offset table of the file written for `v` lead the
/// parser to object 0 with the written offsets and reference width.
#[verifier::spinoff_prover]
#[verifier::rlimit(50)]
proof fn lemma_trailer(v: SpecValue)
    requires
        spec_write(v).len() <= usize::MAX,
    ensures
        spec_parse(spec_write(v)) == spec_obj(spec_write(v), table_of(v), rs_of(v), 0, 0),
{
    let d = spec_write(v);
    let objs = flat(v, 0);
    let n = objs.len();
    let rs = rs_of(v);
    let encs = encs_of(v);
    let body = concat(encs);
    let offs = offsets_of(encs);
    lemma_flat_len(v, 0);
    assert(n >= 1);
    let max_offset: nat = offs.last();
    let ois = pow2_width(max_offset as u64) as nat;
    let parts = Seq::new(n, |k: int| be_bytes(offs[k], ois));
    let ot = concat(parts);
    let tr = trailer_bytes(ois, rs, n, 8 + body.len());
    assert(d == magic() + body + ot + tr);
    lemma_concat_uniform(parts, ois, n as int);
    assert(parts.take(n as int) =~= parts);
    let len = d.len() as int;
    assert(len == 8 + body.len() + n * ois + 32);
    lemma2_to64();
    lemma2_to64_rest();
    lemma_widths(max_offset as u64);
    lemma_widths((n - 1) as u64);
    lemma_object_bytes(v, n - 1);
    // The trailer fields.
    assert(d[len - 26] == ois as u8);
    assert(d[len - 25] == rs as u8);
    assert(d.subrange(len - 24, len - 16) =~= be_bytes(n, 8));
    assert(d.subrange(len - 16, len - 8) =~= be_bytes(0, 8));
    assert(d.subrange(len - 8, len) =~= be_bytes(8 + body.len(), 8));
    lemma_be_bytes_exact(n, 8);
    lemma_be_bytes_exact(0, 8);
    lemma_be_bytes_exact(8 + body.len(), 8);
    // The offset table.
    assert(d.subrange(8 + body.len() as int, (8 + body.len() + n * ois) as int) =~= ot);
    assert forall|i: int| 0 <= i < n implies #[trigger] spec_offsets(ot, n, ois)[i] == table_of(v)[i] by {
        lemma_concat_part(parts, i);
        lemma_concat_uniform(parts, ois, i);
        assert(i * ois + ois <= n * ois) by (nonlinear_arith)
            requires i < n;
        assert(ot.subrange(i * ois, i * ois + ois) == parts[i]);
        lemma_concat_take_mono(encs, i, n - 1);
        lemma_object_bytes(v, i);
        lemma_be_bytes_exact(offs[i], ois);
    }
    assert(spec_offsets(ot, n, ois) =~= table_of(v));
}

// ── One object ──────────────────────────────────────────────────────────────

/// The bytes `e` stand at `off` in `d`.
spec fn stands_at(d: Seq<u8>, off: int, e: Seq<u8>) -> bool {
    &&& 0 <= off
    &&& off + e.len() <= d.len()
    &&& d.subrange(off, off + e.len()) == e
}

/// Reading inside bytes that stand at `off`.
proof fn lemma_read_inside(d: Seq<u8>, off: int, e: Seq<u8>, a: int, m: int)
    requires
        stands_at(d, off, e),
        0 <= a,
        0 <= m,
        a + m <= e.len(),
    ensures
        read_at(d, off + a, m) == Some(e.subrange(a, a + m)),
{
    assert(d.subrange(off + a, off + a + m) =~= e.subrange(a, a + m)) by {
        assert forall|i: int| 0 <= i < m implies #[trigger] d.subrange(off + a, off + a + m)[i] == e.subrange(a, a + m)[i] by {
            assert(d.subrange(off, off + e.len())[a + i] == d[off + a + i]);
        }
    }
}

/// A marker and count written by `count_bytes` read back.
proof fn lemma_count(d: Seq<u8>, off: int, tag: u8, c: u64, e: Seq<u8>)
    requires
        tag < 16,
        stands_at(d, off, e),
        e.len() >= count_bytes(tag, c).len(),
        e.subrange(0, count_bytes(tag, c).len() as int) == count_bytes(tag, c),
    ensures
        d[off] / 16 == tag,
        spec_read_count(d, off + 1, d[off] % 16) == Ok::<(usize, int), SpecParseError>(
            (c as usize, off + count_bytes(tag, c).len()),
        ),
{
    let cb = count_bytes(tag, c);
    assert(d[off] == e[0]) by {
        assert(d.subrange(off, off + e.len())[0] == d[off]);
    }
    assert(e[0] == cb[0]) by {
        assert(e.subrange(0, cb.len() as int)[0] == e[0]);
    }
    lemma2_to64();
    lemma_widths(c);
    if c < 15 {
        assert(((tag * 16 + c) as u8) / 16 == tag);
        assert(((tag * 16 + c) as u8) % 16 == c);
    } else {
        let n = width_exp(c);
        let nb = pow2(n as nat);
        assert(((tag * 16 + 15) as u8) / 16 == tag);
        assert(((tag * 16 + 15) as u8) % 16 == 15);
        assert(d[off + 1] == e[1]) by {
            assert(d.subrange(off, off + e.len())[1] == d[off + 1]);
        }
        assert(e[1] == cb[1]) by {
            assert(e.subrange(0, cb.len() as int)[1] == e[1]);
        }
        assert(((0x10 + n) as u8) / 16 == 1);
        assert(((0x10 + n) as u8) % 16 == n);
        lemma_read_inside(d, off, e, 2, nb as int);
        assert(e.subrange(2, 2 + nb as int) =~= be_bytes(c as nat, nb)) by {
            assert forall|i: int| 0 <= i < nb implies #[trigger] e.subrange(2, 2 + nb as int)[i] == be_bytes(c as nat, nb)[i] by {
                assert(e.subrange(0, cb.len() as int)[2 + i] == e[2 + i]);
                assert(cb[2 + i] == be_bytes(c as nat, nb)[i]);
            }
        }
        lemma_be_bytes_exact(c as nat, nb);
    }
}

/// A scalar (null, boolean, integer, real, date or UID) reads back.
proof fn lemma_scalar(d: Seq<u8>, off: int, node: SpecValue, ids: Seq<nat>, rs: nat)
    requires
        node is Null || node is Bool || node is Integer || node is Real || node is Date || node is Uid,
        stands_at(d, off, encode_node(node, ids, rs)),
    ensures
        d[off] / 16 != 4 && d[off] / 16 != 5 && d[off] / 16 != 6,
        d[off] / 16 != 0xA && d[off] / 16 != 0xC && d[off] / 16 != 0xD,
        spec_scalar(d, d[off], off + 1) == Ok::<SpecValue, SpecParseError>(node),
{
    let e = encode_node(node, ids, rs);
    assert(d[off] == e[0]) by {
        assert(d.subrange(off, off + e.len())[0] == d[off]);
    }
    lemma2_to64();
    lemma2_to64_rest();
    match node {
        SpecValue::Integer(i) => {
            let n = int_width(i);
            let nb = pow2(n as nat);
            let x = i as u64;
            lemma_widths(x);
            assert(((0x10 + n) as u8) / 16 == 1);
            assert(((0x10 + n) as u8) % 16 == n);
            lemma_read_inside(d, off, e, 1, nb as int);
            assert(e.subrange(1, 1 + nb as int) =~= be_bytes(x as nat, nb));
            lemma_be_bytes_exact(x as nat, nb);
            assert(((i as u64) as i64) == i) by (bit_vector);
        },
        SpecValue::Real(b) => {
            lemma_read_inside(d, off, e, 1, 8);
            assert(e.subrange(1, 9) =~= be_bytes(b as nat, 8));
            lemma_be_bytes_exact(b as nat, 8);
        },
        SpecValue::Date(b) => {
            lemma_read_inside(d, off, e, 1, 8);
            assert(e.subrange(1, 9) =~= be_bytes(b as nat, 8));
            lemma_be_bytes_exact(b as nat, 8);
        },
        SpecValue::Uid(u) => {
            lemma_widths(u);
            let bc = uid_width(u);
            assert(((0x80 + bc - 1) as u8) / 16 == 8);
            assert(((0x80 + bc - 1) as u8) % 16 == bc - 1);
            lemma_read_inside(d, off, e, 1, bc as int);
            assert(e.subrange(1, 1 + bc as int) =~= be_bytes(u as nat, bc as nat));
            lemma_be_bytes_exact(u as nat, bc as nat);
        },
        _ => {},
    }
}

/// A data or string object reads back.
proof fn lemma_text(d: Seq<u8>, off: int, node: SpecValue, ids: Seq<nat>, rs: nat)
    requires
        node is Data || node is String,
        stands_at(d, off, encode_node(node, ids, rs)),
        d.len() <= usize::MAX,
    ensures
        d[off] / 16 == 4 || d[off] / 16 == 5 || d[off] / 16 == 6,
        spec_text(d, d[off], off + 1) == Ok::<SpecValue, SpecParseError>(node),
{
    match node {
        SpecValue::Data(bytes) => lemma_text_data(d, off, bytes, ids, rs),
        SpecValue::String(s) => {
            if vstd::utf8::is_ascii_chars(s) {
                lemma_text_ascii(d, off, s, ids, rs);
            } else {
                lemma_text_utf16(d, off, s, ids, rs);
            }
        },
        _ => {},
    }
}

/// A data object reads back.
#[verifier::spinoff_prover]
proof fn lemma_text_data(d: Seq<u8>, off: int, bytes: Seq<u8>, ids: Seq<nat>, rs: nat)
    requires
        stands_at(d, off, encode_node(SpecValue::Data(bytes), ids, rs)),
        d.len() <= usize::MAX,
    ensures
        d[off] / 16 == 4,
        spec_text(d, d[off], off + 1) == Ok::<SpecValue, SpecParseError>(SpecValue::Data(bytes)),
{
    let e = encode_node(SpecValue::Data(bytes), ids, rs);
    let cb = count_bytes(4, bytes.len() as u64);
    assert(e.subrange(0, cb.len() as int) =~= cb);
    lemma_count(d, off, 4, bytes.len() as u64, e);
    lemma_read_inside(d, off, e, cb.len() as int, bytes.len() as int);
    assert(e.subrange(cb.len() as int, (cb.len() + bytes.len()) as int) =~= bytes);
}

/// An ASCII string object reads back.
#[verifier::spinoff_prover]
proof fn lemma_text_ascii(d: Seq<u8>, off: int, s: Seq<char>, ids: Seq<nat>, rs: nat)
    requires
        vstd::utf8::is_ascii_chars(s),
        stands_at(d, off, encode_node(SpecValue::String(s), ids, rs)),
        d.len() <= usize::MAX,
    ensures
        d[off] / 16 == 5,
        spec_text(d, d[off], off + 1) == Ok::<SpecValue, SpecParseError>(SpecValue::String(s)),
{
    let e = encode_node(SpecValue::String(s), ids, rs);
    let cb = count_bytes(5, s.len() as u64);
    let b = Seq::new(s.len(), |i: int| s[i] as u8);
    assert(e.subrange(0, cb.len() as int) =~= cb);
    lemma_count(d, off, 5, s.len() as u64, e);
    lemma_read_inside(d, off, e, cb.len() as int, s.len() as int);
    assert(e.subrange(cb.len() as int, (cb.len() + s.len()) as int) =~= b);
    vstd::utf8::is_ascii_chars_encode_utf8(s);
    assert(b =~= vstd::utf8::encode_utf8(s));
    vstd::utf8::encode_utf8_valid_utf8(s);
    vstd::utf8::encode_utf8_decode_utf8(s);
}

/// A string object in UTF-16 reads back.
#[verifier::spinoff_prover]
proof fn lemma_text_utf16(d: Seq<u8>, off: int, s: Seq<char>, ids: Seq<nat>, rs: nat)
    requires
        !vstd::utf8::is_ascii_chars(s),
        stands_at(d, off, encode_node(SpecValue::String(s), ids, rs)),
        d.len() <= usize::MAX,
    ensures
        d[off] / 16 == 6,
        spec_text(d, d[off], off + 1) == Ok::<SpecValue, SpecParseError>(SpecValue::String(s)),
{
    let e = encode_node(SpecValue::String(s), ids, rs);
    let u = utf16_encode(s);
    let cb = count_bytes(6, u.len() as u64);
    let ub = units_bytes(u);
    assert(e.subrange(0, cb.len() as int) =~= cb);
    lemma_count(d, off, 6, u.len() as u64, e);
    lemma_read_inside(d, off, e, cb.len() as int, ub.len() as int);
    assert(e.subrange(cb.len() as int, (cb.len() + ub.len()) as int) =~= ub);
    assert(spec_units(ub) =~= u) by {
        assert forall|i: int| 0 <= i < u.len() implies #[trigger] spec_units(ub)[i] == u[i] by {
            assert(ub[2 * i] == (u[i] / 256) as u8);
            assert(ub[2 * i + 1] == (u[i] % 256) as u8);
        }
    }
    lemma_utf16_roundtrip(s);
}

/// References written by `refs_bytes` read back, from reference `lo` up
/// to `hi`.
proof fn lemma_refs(d: Seq<u8>, off: int, e: Seq<u8>, a: int, ids: Seq<nat>, rs: nat, lo: int, hi: int)
    requires
        stands_at(d, off, e),
        d.len() <= usize::MAX,
        0 <= a,
        1 <= rs <= 8,
        a + ids.len() * rs <= e.len(),
        e.subrange(a, a + ids.len() * rs) == refs_bytes(ids, rs),
        forall|i: int| 0 <= i < ids.len() ==> #[trigger] ids[i] < pow2(8 * rs) && ids[i] < 0x1_0000_0000_0000_0000,
        0 <= lo <= hi <= ids.len(),
    ensures
        spec_read_refs(d, off + a + lo * rs, (hi - lo) as usize, rs as usize) == Ok::<Seq<usize>, SpecParseError>(
            Seq::new((hi - lo) as nat, |i: int| ids[lo + i] as usize),
        ),
{
    let parts = Seq::new(ids.len(), |i: int| be_bytes(ids[i], rs));
    let cnt = hi - lo;
    assert(lo * rs + cnt * rs == hi * rs) by (nonlinear_arith)
        requires cnt == hi - lo;
    assert(hi * rs <= ids.len() * rs) by (nonlinear_arith)
        requires hi <= ids.len(), rs >= 1;
    assert(0 <= lo * rs) by (nonlinear_arith)
        requires lo >= 0, rs >= 1;
    let p = off + a + lo * rs;
    assert(cnt <= cnt * rs) by (nonlinear_arith)
        requires cnt >= 0, rs >= 1;
    assert(((cnt as usize) * (rs as usize)) as int == cnt * rs);
    lemma_read_inside(d, off, e, a + lo * rs, cnt * rs);
    let b = e.subrange(a + lo * rs, a + lo * rs + cnt * rs);
    assert forall|i: int| 0 <= i < cnt implies #[trigger] b.subrange(i * rs, i * rs + rs) == be_bytes(ids[lo + i], rs) by {
        lemma_concat_part(parts, lo + i);
        lemma_concat_uniform(parts, rs, lo + i);
        assert((lo + i) * rs == lo * rs + i * rs) by (nonlinear_arith);
        assert(i * rs + rs <= cnt * rs) by (nonlinear_arith)
            requires i < cnt, rs >= 1;
        assert(0 <= i * rs) by (nonlinear_arith)
            requires i >= 0, rs >= 1;
        assert(b.subrange(i * rs, i * rs + rs) =~= e.subrange(a + (lo + i) * rs, a + (lo + i) * rs + rs));
        assert(e.subrange(a + (lo + i) * rs, a + (lo + i) * rs + rs) =~= refs_bytes(ids, rs).subrange(
            (lo + i) * rs,
            (lo + i) * rs + rs,
        )) by {
            assert forall|t: int| 0 <= t < rs implies #[trigger] e.subrange(a + (lo + i) * rs, a + (lo + i) * rs + rs)[t]
                == refs_bytes(ids, rs).subrange((lo + i) * rs, (lo + i) * rs + rs)[t] by {
                assert(e.subrange(a, a + ids.len() * rs)[(lo + i) * rs + t] == e[a + (lo + i) * rs + t]);
            }
        }
        lemma_be_bytes_exact(ids[lo + i], rs);
    }
    assert(spec_refs(b, cnt as nat, rs) =~= Seq::new(cnt as nat, |i: int| ids[lo + i] as usize)) by {
        assert forall|i: int| 0 <= i < cnt implies #[trigger] spec_refs(b, cnt as nat, rs)[i] == ids[lo + i] as usize by {
            lemma_be_bytes_exact(ids[lo + i], rs);
        }
    }
}

/// Objects that each read back read back in order.
proof fn lemma_objs(d: Seq<u8>, offs: Seq<u64>, rs: nat, refs: Seq<usize>, vals: Seq<SpecValue>, depth: nat)
    requires
        refs.len() == vals.len(),
        forall|j: int| 0 <= j < refs.len() ==> spec_obj(d, offs, rs, #[trigger] refs[j], depth) == Ok::<SpecValue, SpecParseError>(vals[j]),
    ensures
        spec_objs(d, offs, rs, refs, depth) == Ok::<Seq<SpecValue>, SpecParseError>(vals),
    decreases refs.len(),
{
    if refs.len() > 0 {
        assert(spec_obj(d, offs, rs, refs[0], depth) == Ok::<SpecValue, SpecParseError>(vals[0]));
        assert forall|j: int| 0 <= j < refs.skip(1).len() implies spec_obj(d, offs, rs, #[trigger] refs.skip(1)[j], depth)
            == Ok::<SpecValue, SpecParseError>(vals.skip(1)[j]) by {
            assert(refs.skip(1)[j] == refs[j + 1]);
        }
        lemma_objs(d, offs, rs, refs.skip(1), vals.skip(1), depth);
        assert(depth <= MAX_DEPTH);
        assert(seq![vals[0]] + vals.skip(1) =~= vals);
        assert(spec_objs(d, offs, rs, refs, depth) == Ok::<Seq<SpecValue>, SpecParseError>(seq![vals[0]] + vals.skip(1)));
    } else {
        assert(vals =~= Seq::<SpecValue>::empty());
    }
}

/// Pairs whose keys and values each read back read back in order.
proof fn lemma_pairs(
    d: Seq<u8>,
    offs: Seq<u64>,
    rs: nat,
    keys: Seq<usize>,
    vals: Seq<usize>,
    ps: Seq<(SpecValue, SpecValue)>,
    depth: nat,
)
    requires
        keys.len() == ps.len(),
        vals.len() == ps.len(),
        forall|j: int| 0 <= j < ps.len() ==> spec_obj(d, offs, rs, #[trigger] keys[j], depth) == Ok::<SpecValue, SpecParseError>(ps[j].0),
        forall|j: int| 0 <= j < ps.len() ==> spec_obj(d, offs, rs, #[trigger] vals[j], depth) == Ok::<SpecValue, SpecParseError>(ps[j].1),
    ensures
        spec_pairs(d, offs, rs, keys, vals, depth) == Ok::<Seq<(SpecValue, SpecValue)>, SpecParseError>(ps),
    decreases ps.len(),
{
    if ps.len() > 0 {
        assert(spec_obj(d, offs, rs, keys[0], depth) == Ok::<SpecValue, SpecParseError>(ps[0].0));
        assert(spec_obj(d, offs, rs, vals[0], depth) == Ok::<SpecValue, SpecParseError>(ps[0].1));
        assert forall|j: int| 0 <= j < ps.skip(1).len() implies spec_obj(d, offs, rs, #[trigger] keys.skip(1)[j], depth)
            == Ok::<SpecValue, SpecParseError>(ps.skip(1)[j].0) by {
            assert(keys.skip(1)[j] == keys[j + 1]);
        }
        assert forall|j: int| 0 <= j < ps.skip(1).len() implies spec_obj(d, offs, rs, #[trigger] vals.skip(1)[j], depth)
            == Ok::<SpecValue, SpecParseError>(ps.skip(1)[j].1) by {
            assert(vals.skip(1)[j] == vals[j + 1]);
        }
        lemma_pairs(d, offs, rs, keys.skip(1), vals.skip(1), ps.skip(1), depth);
        assert(depth <= MAX_DEPTH);
        assert(seq![(ps[0].0, ps[0].1)] + ps.skip(1) =~= ps);
        assert(spec_pairs(d, offs, rs, keys, vals, depth) == Ok::<Seq<(SpecValue, SpecValue)>, SpecParseError>(seq![(ps[0].0, ps[0].1)] + ps.skip(1)));
    } else {
        assert(ps =~= Seq::<(SpecValue, SpecValue)>::empty());
    }
}

/// References of `rs` bytes each take `rs` bytes per reference.
proof fn lemma_refs_len(ids: Seq<nat>, rs: nat)
    ensures
        refs_bytes(ids, rs).len() == ids.len() * rs,
{
    let parts = Seq::new(ids.len(), |i: int| be_bytes(ids[i], rs));
    lemma_concat_uniform(parts, rs, ids.len() as int);
    assert(parts.take(ids.len() as int) =~= parts);
}

/// An array, a set or a dictionary reads back, when each of its references
/// reads back as its child.
#[verifier::spinoff_prover]
#[verifier::rlimit(40)]
proof fn lemma_collection(
    d: Seq<u8>,
    offs: Seq<u64>,
    rs: nat,
    off: int,
    node: SpecValue,
    ids: Seq<nat>,
    depth: nat,
)
    requires
        node is Array || node is UnorderedSet || node is Dictionary,
        stands_at(d, off, encode_node(node, ids, rs)),
        d.len() <= usize::MAX,
        1 <= rs <= 8,
        depth <= MAX_DEPTH,
        ids.len() == children(node).len(),
        forall|j: int| 0 <= j < ids.len() ==> #[trigger] ids[j] < pow2(8 * rs) && ids[j] < 0x1_0000_0000_0000_0000,
        forall|j: int| 0 <= j < ids.len() ==> spec_obj(d, offs, rs, #[trigger] (ids[j] as usize), depth + 1)
            == Ok::<SpecValue, SpecParseError>(children(node)[j]),
    ensures
        d[off] / 16 == 0xA || d[off] / 16 == 0xC || d[off] / 16 == 0xD,
        spec_collection(d, offs, rs, d[off], off + 1, depth) == Ok::<SpecValue, SpecParseError>(node),
{
    let e = encode_node(node, ids, rs);
    lemma_refs_len(ids, rs);
    let refs = Seq::new(ids.len(), |i: int| ids[0 + i] as usize);
    match node {
        SpecValue::Array(items) => {
            let cb = count_bytes(0xA, items.len() as u64);
            assert(e.subrange(0, cb.len() as int) =~= cb);
            lemma_count(d, off, 0xA, items.len() as u64, e);
            assert(e.subrange(cb.len() as int, (cb.len() + ids.len() * rs) as int) =~= refs_bytes(ids, rs));
            lemma_refs(d, off, e, cb.len() as int, ids, rs, 0, ids.len() as int);
            assert(off + cb.len() as int + 0 * rs == off + cb.len());
            lemma_objs(d, offs, rs, refs, items, depth + 1);
        },
        SpecValue::UnorderedSet(items) => {
            let cb = count_bytes(0xC, items.len() as u64);
            assert(e.subrange(0, cb.len() as int) =~= cb);
            lemma_count(d, off, 0xC, items.len() as u64, e);
            assert(e.subrange(cb.len() as int, (cb.len() + ids.len() * rs) as int) =~= refs_bytes(ids, rs));
            lemma_refs(d, off, e, cb.len() as int, ids, rs, 0, ids.len() as int);
            assert(off + cb.len() as int + 0 * rs == off + cb.len());
            lemma_objs(d, offs, rs, refs, items, depth + 1);
        },
        SpecValue::Dictionary(ps) => {
            let np = ps.len() as int;
            let cb = count_bytes(0xD, ps.len() as u64);
            assert(e.subrange(0, cb.len() as int) =~= cb);
            lemma_count(d, off, 0xD, ps.len() as u64, e);
            assert(e.subrange(cb.len() as int, (cb.len() + ids.len() * rs) as int) =~= refs_bytes(ids, rs));
            lemma_refs(d, off, e, cb.len() as int, ids, rs, 0, np);
            lemma_refs(d, off, e, cb.len() as int, ids, rs, np, 2 * np);
            assert(off + cb.len() as int + 0 * rs == off + cb.len());
            assert(off + cb.len() as int + np * rs == off + 1 + cb.len() - 1 + np * rs);
            let keys = Seq::new(np as nat, |i: int| ids[0 + i] as usize);
            let vals = Seq::new(np as nat, |i: int| ids[np + i] as usize);
            assert forall|j: int| 0 <= j < np implies spec_obj(d, offs, rs, #[trigger] keys[j], depth + 1)
                == Ok::<SpecValue, SpecParseError>(ps[j].0) by {
                assert(children(node)[j] == ps[j].0);
                assert(keys[j] == ids[j] as usize);
            }
            assert forall|j: int| 0 <= j < np implies spec_obj(d, offs, rs, #[trigger] vals[j], depth + 1)
                == Ok::<SpecValue, SpecParseError>(ps[j].1) by {
                assert(children(node)[np + j] == ps[j].1);
                assert(vals[j] == ids[np + j] as usize);
            }
            lemma_pairs(d, offs, rs, keys, vals, ps, depth + 1);
        },
        _ => {},
    }
}

/// What the parser needs of a file: objects `objs` stand at the offsets of
/// `table`, with references of `rs` bytes, and each child ID names the
/// object of that child.
spec fn laid_out(d: Seq<u8>, table: Seq<u64>, rs: nat, objs: Seq<(SpecValue, Seq<nat>)>) -> bool {
    &&& d.len() <= usize::MAX
    &&& 1 <= rs <= 8
    &&& table.len() == objs.len()
    &&& objs.len() <= d.len()
    &&& forall|k: int| 0 <= k < objs.len() ==> stands_at(
        d,
        #[trigger] table[k] as int,
        encode_node(objs[k].0, objs[k].1, rs),
    )
    &&& forall|k: int| 0 <= k < objs.len() ==> (#[trigger] objs[k]).1.len() == children(objs[k].0).len()
    &&& forall|k: int, t: int|
        0 <= k < objs.len() && 0 <= t < objs[k].1.len() ==> #[trigger] objs[k].1[t] < objs.len()
            && objs[k].1[t] < pow2(8 * rs) && objs[objs[k].1[t] as int].0 == children(objs[k].0)[t]
}

/// Object `k` of a laid-out file reads back as its node, when its nodes lie
/// within the parser's nesting limit.
#[verifier::spinoff_prover]
#[verifier::rlimit(40)]
proof fn lemma_object(d: Seq<u8>, table: Seq<u64>, rs: nat, objs: Seq<(SpecValue, Seq<nat>)>, k: int, depth: nat)
    requires
        laid_out(d, table, rs, objs),
        0 <= k < objs.len(),
        depth + height(objs[k].0) <= MAX_DEPTH,
    ensures
        spec_obj(d, table, rs, k as usize, depth) == Ok::<SpecValue, SpecParseError>(objs[k].0),
    decreases objs[k].0,
{
    let node = objs[k].0;
    let ids = objs[k].1;
    let off = table[k] as int;
    assert(stands_at(d, off, encode_node(node, ids, rs)));
    assert(off < d.len());
    if node is Null || node is Bool || node is Integer || node is Real || node is Date || node is Uid {
        lemma_scalar(d, off, node, ids, rs);
    } else if node is Data || node is String {
        lemma_text(d, off, node, ids, rs);
    } else {
        assert(ids.len() == children(node).len());
        assert forall|j: int| 0 <= j < ids.len() implies #[trigger] ids[j] < pow2(8 * rs) && ids[j]
            < 0x1_0000_0000_0000_0000 by {
            assert(ids[j] < objs.len());
        }
        assert forall|j: int| 0 <= j < ids.len() implies spec_obj(d, table, rs, #[trigger] (ids[j] as usize), depth + 1)
            == Ok::<SpecValue, SpecParseError>(children(node)[j]) by {
            assert(ids[j] < objs.len());
            assert(objs[ids[j] as int].0 == children(node)[j]);
            lemma_height_child(node, j);
            lemma_child_decreases(node, j);
            lemma_object(d, table, rs, objs, ids[j] as int, depth + 1);
        }
        if ids.len() > 0 {
            lemma_height_child(node, 0);
        }
        lemma_collection(d, table, rs, off, node, ids, depth);
    }
}

/// The file written for `v` is laid out for the parser.
proof fn lemma_laid_out(v: SpecValue)
    requires
        spec_write(v).len() <= usize::MAX,
    ensures
        laid_out(spec_write(v), table_of(v), rs_of(v), flat(v, 0)),
{
    let d = spec_write(v);
    let objs = flat(v, 0);
    let n = objs.len();
    let rs = rs_of(v);
    lemma_flat_len(v, 0);
    lemma_flat_ids(v, 0);
    lemma_file_len(v);
    lemma2_to64();
    lemma2_to64_rest();
    lemma_widths((n - 1) as u64);
    assert forall|k: int| 0 <= k < n implies stands_at(
        d,
        #[trigger] table_of(v)[k] as int,
        encode_node(objs[k].0, objs[k].1, rs),
    ) by {
        lemma_object_bytes(v, k);
    }
    assert forall|k: int, t: int| 0 <= k < n && 0 <= t < objs[k].1.len() implies #[trigger] objs[k].1[t] < n
        && objs[k].1[t] < pow2(8 * rs) && objs[objs[k].1[t] as int].0 == children(objs[k].0)[t] by {
        lemma_flat_link(v, 0, k, t);
    }
}

/// Reading back the binary property list written for any value gives that
/// value, when its nodes lie within the parser's nesting limit and the file
/// fits in memory.
pub proof fn lemma_parse_write(v: SpecValue)
    requires
        height(v) <= MAX_DEPTH,
        spec_write(v).len() <= usize::MAX,
    ensures
        spec_parse(spec_write(v)) == Ok::<SpecValue, SpecParseError>(v),
{
    lemma_trailer(v);
    lemma_flat_len(v, 0);
    lemma_laid_out(v);
    lemma_object(spec_write(v), table_of(v), rs_of(v), flat(v, 0), 0, 0);
}

/// Reading back the bytes that `append_be_uint` writes: `size` bytes (one
/// to eight) of a value that fits in them read as the value.
pub proof fn lemma_be_roundtrip(val: u64, size: nat)
    requires
        1 <= size <= 8,
        (val as nat) < pow2(8 * size),
    ensures
        be_uint(be_bytes(val as nat, size)) == val,
{
    lemma_be_bytes_exact(val as nat, size);
}

/// Reading back a marker and count that `encode_count` writes, whatever
/// follows them: the marker's high nibble is the type, and reading the
/// count from its low nibble gives the count, ending just past it.
pub proof fn lemma_count_roundtrip(tag: u8, count: u64, rest: Seq<u8>)
    requires
        tag < 16,
        count <= usize::MAX,
    ensures
        (count_bytes(tag, count) + rest)[0] / 16 == tag,
        spec_read_count(count_bytes(tag, count) + rest, 1, (count_bytes(tag, count) + rest)[0] % 16) == Ok::<
            (usize, int),
            SpecParseError,
        >((count as usize, count_bytes(tag, count).len() as int)),
{
    let cb = count_bytes(tag, count);
    let m = cb + rest;
    assert(m.subrange(0, m.len() as int) =~= m);
    assert(m.subrange(0, cb.len() as int) =~= cb);
    lemma_count(m, 0, tag, count, m);
}

} // verus!
