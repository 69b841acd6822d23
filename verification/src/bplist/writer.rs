//! Binary property list (`bplist00`) serializer.
//!
//! Writing takes two passes.  Pass 1 flattens the value tree into its
//! objects in pre-order, each with the IDs of its children, walking the
//! tree with a stack of pending nodes rather than by recursion.  Pass 2 encodes
//! each object, recording where it starts; the offset table and the 32-byte
//! trailer follow once the largest offset is known.
use vstd::prelude::*;

use crate::bplist::layout::{
    child_flats, child_id, child_ids, child_sizes, children, concat, flat, lemma_children,
    lemma_concat_prefix, lemma_concat_take, lemma_flat_ids, lemma_flat_len, lemma_sum_prefix,
    lemma_sum_take_all, size, sum,
};
use crate::value::{SpecValue, Value};
use crate::unicode::{encode_utf16, utf16_encode};
use vstd::arithmetic::power2::*;
use vstd::string::*;

verus! {

/// Why writing a binary property list failed.
#[derive(Debug)]
pub enum WriteError {
    /// The underlying writer failed.
    Io(crate::bplist::parser::IoErrorKind),
}

/// A node of the flattened value, with the IDs of its children: for an array
/// or a set, the element IDs in document order; for a dictionary, all key
/// IDs in document order, then all value IDs.
struct FlatObject<'a> {
    value: &'a Value,
    child_ids: Vec<usize>,
}

/// The model of a flattened object.
spec fn object_model(o: FlatObject) -> (SpecValue, Seq<nat>) {
    (o.value@, o.child_ids@.map_values(|x: usize| x as nat))
}

/// The models of flattened objects.
spec fn object_models(s: Seq<FlatObject>) -> Seq<(SpecValue, Seq<nat>)> {
    Seq::new(s.len(), |i: int| object_model(s[i]))
}

/// The children of `v` (see [`children`]).
fn children_of<'a>(v: &'a Value) -> (kids: Vec<&'a Value>)
    ensures
        kids@.len() == children(v@).len(),
        forall|j: int| 0 <= j < kids@.len() ==> (#[trigger] kids@[j])@ == children(v@)[j],
{
    let mut kids: Vec<&'a Value> = Vec::new();
    match v {
        Value::Array(items) | Value::UnorderedSet(items) => {
            proof {
                crate::value::lemma_items_views(*items);
            }
            let mut i: usize = 0;
            while i < items.len()
                invariant
                    i <= items@.len(),
                    children(v@) == crate::value::views(items@),
                    kids@.len() == i,
                    forall|j: int| 0 <= j < i ==> (#[trigger] kids@[j])@ == children(v@)[j],
                decreases items@.len() - i,
            {
                kids.push(&items[i]);
                i = i + 1;
            }
        },
        Value::Dictionary(pairs) => {
            proof {
                crate::value::lemma_pairs_views(*pairs);
            }
            let n = pairs.len();
            let mut i: usize = 0;
            while i < n
                invariant
                    n == pairs@.len(),
                    i <= n,
                    v@ == SpecValue::Dictionary(crate::value::pair_views(pairs@)),
                    kids@.len() == i,
                    forall|j: int| 0 <= j < i ==> (#[trigger] kids@[j])@ == children(v@)[j],
                decreases n - i,
            {
                kids.push(&pairs[i].0);
                i = i + 1;
            }
            let mut i: usize = 0;
            while i < n
                invariant
                    n == pairs@.len(),
                    i <= n,
                    v@ == SpecValue::Dictionary(crate::value::pair_views(pairs@)),
                    kids@.len() == n + i,
                    forall|j: int| 0 <= j < n + i ==> (#[trigger] kids@[j])@ == children(v@)[j],
                decreases n - i,
            {
                kids.push(&pairs[i].1);
                assert(children(v@)[n + i] == pairs@[i as int].1@);
                i = i + 1;
            }
        },
        _ => {},
    }
    kids
}

/// A node being laid out: its children, the IDs given to the first `next`
/// of them so far, and its own ID.
struct Pending<'a> {
    node: &'a Value,
    kids: Vec<&'a Value>,
    ids: Vec<usize>,
    id: usize,
    next: usize,
}

/// `p` is consistent: its children are those of its node, the IDs given
/// so far are theirs, `start` (the objects before it) ends at its ID, and
/// its objects end within `total`.
spec fn pending_ok(p: Pending, start: Seq<(SpecValue, Seq<nat>)>, total: nat) -> bool {
    &&& p.kids@.len() == children(p.node@).len()
    &&& forall|j: int| 0 <= j < p.kids@.len() ==> (#[trigger] p.kids@[j])@ == children(p.node@)[j]
    &&& p.next <= p.kids@.len()
    &&& p.ids@.len() == p.next
    &&& forall|j: int| 0 <= j < p.next ==> #[trigger] p.ids@[j] == child_id(p.node@, p.id as nat, j)
    &&& start.len() == p.id
    &&& p.id + size(p.node@) <= total
}

/// The objects laid out once `p` has been placed after `start` and its
/// first `p.next` children laid out (`p` itself still without child IDs).
spec fn laid_out(p: Pending, start: Seq<(SpecValue, Seq<nat>)>) -> Seq<(SpecValue, Seq<nat>)> {
    start + seq![(p.node@, Seq::<nat>::empty())] + concat(child_flats(p.node@, p.id as nat).take(p.next as int))
}

/// The node pending at `k + 1` is the child of the node at `k` that was
/// entered last, and starts where that one's objects had reached.
spec fn linked(ps: Seq<Pending>, starts: Seq<Seq<(SpecValue, Seq<nat>)>>, k: int) -> bool {
    let p = ps[k];
    let c = ps[k + 1];
    &&& p.next >= 1
    &&& c.node@ == children(p.node@)[p.next - 1]
    &&& c.id == child_id(p.node@, p.id as nat, p.next - 1)
    &&& starts[k + 1] == starts[k] + seq![(p.node@, Seq::<nat>::empty())] + concat(
        child_flats(p.node@, p.id as nat).take(p.next - 1),
    )
}

/// The state of the walk: `fs` the pending nodes from the root up,
/// `starts` the objects laid out before each, `model` and `len` the objects
/// laid out so far.
spec fn walk_ok(
    fs: Seq<Pending>,
    starts: Seq<Seq<(SpecValue, Seq<nat>)>>,
    model: Seq<(SpecValue, Seq<nat>)>,
    len: nat,
    root: SpecValue,
    total: nat,
) -> bool {
    &&& fs.len() == starts.len()
    &&& total == size(root)
    &&& len <= total
    &&& model.len() == len
    &&& forall|k: int| 0 <= k < fs.len() ==> pending_ok(#[trigger] fs[k], starts[k], total)
    &&& forall|k: int| 0 <= k < fs.len() - 1 ==> #[trigger] linked(fs, starts, k)
    &&& fs.len() > 0 ==> fs[0].node@ == root && fs[0].id == 0 && starts[0] == Seq::<(SpecValue, Seq<nat>)>::empty()
    &&& fs.len() > 0 ==> model == laid_out(fs.last(), starts.last()) && len == child_id(
        fs.last().node@,
        fs.last().id as nat,
        fs.last().next as int,
    )
    &&& fs.len() == 0 ==> model == flat(root, 0)
}

/// The next child of a pending node gets the next free ID, and its
/// objects end within its parent's.
proof fn lemma_enter_node(top: Pending, start: Seq<(SpecValue, Seq<nat>)>, total: nat, len: nat)
    requires
        pending_ok(top, start, total),
        top.next < top.kids@.len(),
        len == child_id(top.node@, top.id as nat, top.next as int),
    ensures
        ({
            let child = children(top.node@)[top.next as int];
            &&& top.kids@[top.next as int]@ == child
            &&& len + size(child) <= total
            &&& len + size(child) == child_id(top.node@, top.id as nat, top.next + 1)
        }),
{
    let v = top.node@;
    let i = top.next as int;
    lemma_children(v, top.id as nat);
    lemma_sum_take_all(child_sizes(v));
    lemma_sum_prefix(child_sizes(v), i, i + 1);
    lemma_sum_prefix(child_sizes(v), i + 1, child_sizes(v).len() as int);
}

/// A node just entered has laid out nothing below it.
proof fn lemma_enter_fresh(c: Pending, model: Seq<(SpecValue, Seq<nat>)>, total: nat)
    requires
        c.id == model.len(),
        c.next == 0,
    ensures
        laid_out(c, model) == model + seq![(c.node@, Seq::<nat>::empty())],
        child_id(c.node@, c.id as nat, 0) == c.id + 1,
{
    assert(child_sizes(c.node@).take(0) =~= Seq::<nat>::empty());
    assert(child_flats(c.node@, c.id as nat).take(0) =~= Seq::<Seq<(SpecValue, Seq<nat>)>>::empty());
    assert(concat(child_flats(c.node@, c.id as nat).take(0)) =~= Seq::<(SpecValue, Seq<nat>)>::empty());
    assert(laid_out(c, model) =~= model + seq![(c.node@, Seq::<nat>::empty())]);
}

/// Entering the next child of the last pending node keeps the walk
/// consistent.
#[verifier::spinoff_prover]
proof fn lemma_walk_enter(
    fs: Seq<Pending>,
    starts: Seq<Seq<(SpecValue, Seq<nat>)>>,
    model: Seq<(SpecValue, Seq<nat>)>,
    len: nat,
    root: SpecValue,
    total: nat,
    nfs: Seq<Pending>,
)
    requires
        walk_ok(fs, starts, model, len, root, total),
        fs.len() > 0,
        fs.last().next < fs.last().kids@.len(),
        nfs.len() == fs.len() + 1,
        forall|k: int| 0 <= k < fs.len() - 1 ==> nfs[k] == fs[k],
        nfs[fs.len() - 1].node == fs.last().node,
        nfs[fs.len() - 1].kids == fs.last().kids,
        nfs[fs.len() - 1].id == fs.last().id,
        nfs[fs.len() - 1].next == fs.last().next + 1,
        nfs[fs.len() - 1].ids@ == fs.last().ids@.push(len as usize),
        nfs.last().node == fs.last().kids@[fs.last().next as int],
        nfs.last().kids@.len() == children(nfs.last().node@).len(),
        forall|j: int| 0 <= j < nfs.last().kids@.len() ==> (#[trigger] nfs.last().kids@[j])@ == children(
            nfs.last().node@,
        )[j],
        nfs.last().ids@.len() == 0,
        nfs.last().id == len,
        nfs.last().next == 0,
    ensures
        walk_ok(
            nfs,
            starts.push(model),
            model + seq![(nfs.last().node@, Seq::<nat>::empty())],
            len + 1,
            root,
            total,
        ),
{
    let m = fs.len() as int;
    let top = fs.last();
    let i = top.next as int;
    let child = nfs.last().node@;
    let nstarts = starts.push(model);
    let nmodel = model + seq![(child, Seq::<nat>::empty())];
    assert(pending_ok(fs[m - 1], starts[m - 1], total));
    lemma_enter_node(top, starts[m - 1], total, len);
    lemma_enter_fresh(nfs.last(), model, total);
    assert(nmodel =~= laid_out(nfs.last(), nstarts.last()));
    assert forall|k: int| 0 <= k < nfs.len() implies pending_ok(#[trigger] nfs[k], nstarts[k], total) by {
        if k < m - 1 {
            assert(nfs[k] == fs[k]);
            assert(pending_ok(fs[k], starts[k], total));
        } else if k == m - 1 {
            assert forall|j: int| 0 <= j < nfs[k].next implies #[trigger] nfs[k].ids@[j] == child_id(
                nfs[k].node@,
                nfs[k].id as nat,
                j,
            ) by {
                if j < i {
                    assert(nfs[k].ids@[j] == top.ids@[j]);
                }
            }
        }
    }
    assert forall|k: int| 0 <= k < nfs.len() - 1 implies #[trigger] linked(nfs, nstarts, k) by {
        if k < m - 2 {
            assert(linked(fs, starts, k));
            assert(nfs[k] == fs[k] && nfs[k + 1] == fs[k + 1]);
        } else if k == m - 2 {
            assert(linked(fs, starts, k));
            assert(nfs[k] == fs[k]);
        }
    }
    if m > 1 {
        assert(nfs[0] == fs[0]);
    }
}

/// A pending node whose children are all laid out, given their IDs, is
/// laid out whole.
proof fn lemma_leave_node(top: Pending, start: Seq<(SpecValue, Seq<nat>)>, total: nat)
    requires
        pending_ok(top, start, total),
        top.next == top.kids@.len(),
    ensures
        top.id < laid_out(top, start).len(),
        laid_out(top, start).update(top.id as int, (top.node@, top.ids@.map_values(|x: usize| x as nat))) == start
            + flat(top.node@, top.id as nat),
        flat(top.node@, top.id as nat).len() == size(top.node@),
        child_id(top.node@, top.id as nat, top.next as int) == top.id + size(top.node@),
{
    let v = top.node@;
    let base = top.id as nat;
    let flats = child_flats(v, base);
    lemma_children(v, base);
    lemma_sum_take_all(child_sizes(v));
    assert(flats.take(top.next as int) =~= flats);
    assert(top.ids@.map_values(|x: usize| x as nat) =~= child_ids(v, base));
    assert(laid_out(top, start).update(base as int, (v, child_ids(v, base))) =~= start + flat(v, base));
    lemma_flat_len(v, base);
}

/// Once the child entered last is laid out whole, its parent has laid out
/// one more child.
proof fn lemma_leave_child(p: Pending, pstart: Seq<(SpecValue, Seq<nat>)>, cv: SpecValue, cid: nat, cstart: Seq<(SpecValue, Seq<nat>)>, total: nat)
    requires
        pending_ok(p, pstart, total),
        p.next >= 1,
        cv == children(p.node@)[p.next - 1],
        cid == child_id(p.node@, p.id as nat, p.next - 1),
        cstart == pstart + seq![(p.node@, Seq::<nat>::empty())] + concat(child_flats(p.node@, p.id as nat).take(p.next - 1)),
    ensures
        cstart + flat(cv, cid) == laid_out(p, pstart),
        cid + size(cv) == child_id(p.node@, p.id as nat, p.next as int),
{
    lemma_children(p.node@, p.id as nat);
    lemma_concat_take(child_flats(p.node@, p.id as nat), p.next - 1);
    lemma_sum_prefix(child_sizes(p.node@), p.next - 1, p.next as int);
    assert(cstart + flat(cv, cid) =~= laid_out(p, pstart));
}

/// Leaving the last pending node once all its children are laid out,
/// giving it their IDs, keeps the walk consistent.
#[verifier::spinoff_prover]
proof fn lemma_walk_leave(
    fs: Seq<Pending>,
    starts: Seq<Seq<(SpecValue, Seq<nat>)>>,
    model: Seq<(SpecValue, Seq<nat>)>,
    len: nat,
    root: SpecValue,
    total: nat,
)
    requires
        walk_ok(fs, starts, model, len, root, total),
        fs.len() > 0,
        fs.last().next == fs.last().kids@.len(),
    ensures
        fs.last().id < model.len(),
        walk_ok(
            fs.drop_last(),
            starts.drop_last(),
            model.update(fs.last().id as int, (fs.last().node@, fs.last().ids@.map_values(|x: usize| x as nat))),
            len,
            root,
            total,
        ),
{
    let m = fs.len() as int;
    let top = fs.last();
    assert(pending_ok(fs[m - 1], starts[m - 1], total));
    lemma_leave_node(top, starts[m - 1], total);
    let nmodel = model.update(top.id as int, (top.node@, top.ids@.map_values(|x: usize| x as nat)));
    let nfs = fs.drop_last();
    let nstarts = starts.drop_last();
    if m > 1 {
        let p = fs[m - 2];
        assert(linked(fs, starts, m - 2));
        assert(pending_ok(p, starts[m - 2], total));
        lemma_leave_child(p, starts[m - 2], top.node@, top.id as nat, starts[m - 1], total);
        assert(nfs.last() == p);
        assert(nstarts.last() == starts[m - 2]);
        assert(nmodel == laid_out(nfs.last(), nstarts.last()));
    } else {
        assert(Seq::<(SpecValue, Seq<nat>)>::empty() + flat(root, 0) =~= flat(root, 0));
        assert(nmodel == flat(root, 0));
    }
    assert forall|k: int| 0 <= k < nfs.len() implies pending_ok(#[trigger] nfs[k], nstarts[k], total) by {
        assert(pending_ok(fs[k], starts[k], total));
    }
    assert forall|k: int| 0 <= k < nfs.len() - 1 implies #[trigger] linked(nfs, nstarts, k) by {
        assert(linked(fs, starts, k));
    }
}

/// Flattens `root` into its objects in pre-order; the root gets ID 0.  The
/// tree is walked with a stack of pending nodes, so the depth of the value
/// does not bound the walk.
fn flatten<'a>(root: &'a Value) -> (objects: Vec<FlatObject<'a>>)
    ensures
        object_models(objects@) == flat(root@, 0),
{
    let ghost total = size(root@);
    let mut objects: Vec<FlatObject<'a>> = Vec::new();
    objects.push(FlatObject { value: root, child_ids: Vec::new() });
    let mut frames: Vec<Pending<'a>> = Vec::new();
    frames.push(Pending { node: root, kids: children_of(root), ids: Vec::new(), id: 0, next: 0 });
    let ghost mut starts: Seq<Seq<(SpecValue, Seq<nat>)>> = seq![Seq::empty()];
    proof {
        lemma_children(root@, 0);
        assert(Seq::<usize>::empty().map_values(|x: usize| x as nat) =~= Seq::<nat>::empty());
        assert(concat(child_flats(root@, 0).take(0)) =~= Seq::<(SpecValue, Seq<nat>)>::empty());
        assert(object_models(objects@) =~= laid_out(frames@[0], starts[0]));
    }
    while frames.len() > 0
        invariant
            walk_ok(frames@, starts, object_models(objects@), objects@.len() as nat, root@, total),
        decreases 2 * (total - objects@.len()) + frames@.len(),
    {
        let ghost before = object_models(objects@);
        let ghost old_frames = frames@;
        let ghost old_starts = starts;
        let mut top = frames.pop().unwrap();
        proof {
            assert(top == old_frames.last());
        }
        if top.next < top.kids.len() {
            let i = top.next;
            let child = top.kids[i];
            let id = objects.len();
            top.ids.push(id);
            top.next = i + 1;
            frames.push(top);
            objects.push(FlatObject { value: child, child_ids: Vec::new() });
            let kids = children_of(child);
            frames.push(Pending { node: child, kids, ids: Vec::new(), id, next: 0 });
            proof {
                assert(Seq::<usize>::empty().map_values(|x: usize| x as nat) =~= Seq::<nat>::empty());
                assert(object_models(objects@) =~= before + seq![(child@, Seq::<nat>::empty())]);
                lemma_walk_enter(old_frames, old_starts, before, id as nat, root@, total, frames@);
                starts = starts.push(before);
            }
        } else {
            proof {
                lemma_walk_leave(old_frames, old_starts, before, objects@.len() as nat, root@, total);
            }
            let ghost ids = top.ids@;
            objects.set(top.id, FlatObject { value: top.node, child_ids: top.ids });
            proof {
                assert(object_models(objects@) =~= before.update(
                    old_frames.last().id as int,
                    (old_frames.last().node@, ids.map_values(|x: usize| x as nat)),
                ));
                starts = starts.drop_last();
            }
        }
    }
    objects
}


// ── Encoding ────────────────────────────────────────────────────────────────

/// The last `k` bytes of `x` in big-endian order.
pub open spec fn be_bytes(x: nat, k: nat) -> Seq<u8> {
    Seq::new(k, |i: int| ((x / pow2((8 * (k - 1 - i)) as nat)) % 256) as u8)
}

/// `n` such that `2^n` bytes is the fewest of 1, 2, 4 or 8 that hold `val`.
pub open spec fn width_exp(val: u64) -> u8 {
    if val <= 0xFF {
        0
    } else if val <= 0xFFFF {
        1
    } else if val <= 0xFFFF_FFFF {
        2
    } else {
        3
    }
}

/// `n` such that `2^n` bytes hold the integer `val`: negative values take
/// eight bytes (two's complement).
pub open spec fn int_width(val: i64) -> u8 {
    if val < 0 {
        3
    } else {
        width_exp(val as u64)
    }
}

/// The fewest bytes (1 to 8) that hold `val`.
pub open spec fn uid_width(val: u64) -> u8 {
    if val <= 0xFF {
        1
    } else if val <= 0xFFFF {
        2
    } else if val <= 0xFF_FFFF {
        3
    } else if val <= 0xFFFF_FFFF {
        4
    } else if val <= 0xFF_FFFF_FFFF {
        5
    } else if val <= 0xFFFF_FFFF_FFFF {
        6
    } else if val <= 0xFF_FFFF_FFFF_FFFF {
        7
    } else {
        8
    }
}

/// The fewest of 1, 2, 4 or 8 bytes that hold `val`.
pub open spec fn pow2_width(val: u64) -> u8 {
    if val <= 0xFF {
        1
    } else if val <= 0xFFFF {
        2
    } else if val <= 0xFFFF_FFFF {
        4
    } else {
        8
    }
}

/// A marker with type `tag` and count `count`: the count in the low nibble
/// when it is below 15, else `0xF` and an integer object holding it.
pub open spec fn count_bytes(tag: u8, count: u64) -> Seq<u8> {
    if count < 15 {
        seq![(tag * 16 + count) as u8]
    } else {
        let n = width_exp(count);
        seq![(tag * 16 + 15) as u8, (0x10 + n) as u8] + be_bytes(count as nat, pow2(n as nat))
    }
}

/// The big-endian bytes of UTF-16 code units.
pub open spec fn units_bytes(u: Seq<u16>) -> Seq<u8> {
    Seq::new(
        2 * u.len(),
        |i: int| if i % 2 == 0 { (u[i / 2] / 256) as u8 } else { (u[i / 2] % 256) as u8 },
    )
}

/// Object references of `rs` bytes each.
pub open spec fn refs_bytes(ids: Seq<nat>, rs: nat) -> Seq<u8> {
    concat(Seq::new(ids.len(), |i: int| be_bytes(ids[i], rs)))
}

/// The bytes of one object: node `v` whose children have IDs `ids`, with
/// object references of `rs` bytes.
pub open spec fn encode_node(v: SpecValue, ids: Seq<nat>, rs: nat) -> Seq<u8> {
    match v {
        SpecValue::Null => seq![0x00u8],
        SpecValue::Bool(b) => if b { seq![0x09u8] } else { seq![0x08u8] },
        SpecValue::Integer(i) => {
            let n = int_width(i);
            seq![(0x10 + n) as u8] + be_bytes((i as u64) as nat, pow2(n as nat))
        },
        SpecValue::Real(b) => seq![0x23u8] + be_bytes(b as nat, 8),
        SpecValue::Date(b) => seq![0x33u8] + be_bytes(b as nat, 8),
        SpecValue::Data(d) => count_bytes(4, d.len() as u64) + d,
        SpecValue::String(s) => if vstd::utf8::is_ascii_chars(s) {
            count_bytes(5, s.len() as u64) + Seq::new(s.len(), |i: int| s[i] as u8)
        } else {
            let u = utf16_encode(s);
            count_bytes(6, u.len() as u64) + units_bytes(u)
        },
        SpecValue::Uid(u) => {
            let bc = uid_width(u);
            seq![(0x80 + bc - 1) as u8] + be_bytes(u as nat, bc as nat)
        },
        SpecValue::Array(items) => count_bytes(0xA, items.len() as u64) + refs_bytes(ids, rs),
        SpecValue::UnorderedSet(items) => count_bytes(0xC, items.len() as u64) + refs_bytes(ids, rs),
        SpecValue::Dictionary(ps) => count_bytes(0xD, ps.len() as u64) + refs_bytes(ids, rs),
    }
}

proof fn lemma_byte_of(val: u64, s: u64)
    requires
        s < 64,
    ensures
        ((val >> s) as u8) == ((val as nat / pow2(s as nat)) % 256) as u8,
{
    vstd::bits::lemma_u64_shr_is_div(val, s);
    let x = val >> s;
    assert((x as u8) == (x % 256) as u8) by (bit_vector);
}

/// Append `val` as a big-endian unsigned integer of exactly `size` bytes.
pub fn append_be_uint(buf: &mut Vec<u8>, val: u64, size: usize)
    requires
        size <= 8,
    ensures
        final(buf)@ == old(buf)@ + be_bytes(val as nat, size as nat),
{
    let ghost start = buf@;
    let mut i: usize = 0;
    while i < size
        invariant
            size <= 8,
            i <= size,
            buf@ == start + be_bytes(val as nat, size as nat).take(i as int),
        decreases size - i,
    {
        let sh = (8 * (size - 1 - i)) as u64;
        proof {
            lemma_byte_of(val, sh);
        }
        buf.push((val >> sh) as u8);
        assert(buf@ =~= start + be_bytes(val as nat, size as nat).take(i + 1));
        i = i + 1;
    }
    assert(be_bytes(val as nat, size as nat).take(size as int) =~= be_bytes(val as nat, size as nat));
}

/// Returns `n` such that `2^n` bytes is the minimum to represent `val` as an
/// unsigned big-endian integer.
pub fn int_width_exp_u64(val: u64) -> (n: u8)
    ensures
        n == width_exp(val),
{
    if val <= 0xFF {
        0
    } else if val <= 0xFFFF {
        1
    } else if val <= 0xFFFF_FFFF {
        2
    } else {
        3
    }
}

/// Returns `n` such that `2^n` bytes is the minimum to represent `val` as a
/// signed big-endian integer.  Negative values always return 3 (8 bytes).
pub fn int_width_exp(val: i64) -> (n: u8)
    ensures
        n == int_width(val),
{
    if val < 0 {
        return 3;
    }
    int_width_exp_u64(val as u64)
}

/// Minimum number of bytes to store a UID value (1-8, not forced to a power
/// of 2).
pub fn uid_byte_count(val: u64) -> (n: u8)
    ensures
        n == uid_width(val),
{
    if val <= 0xFF {
        1
    } else if val <= 0xFFFF {
        2
    } else if val <= 0xFF_FFFF {
        3
    } else if val <= 0xFFFF_FFFF {
        4
    } else if val <= 0xFF_FFFF_FFFF {
        5
    } else if val <= 0xFFFF_FFFF_FFFF {
        6
    } else if val <= 0xFF_FFFF_FFFF_FFFF {
        7
    } else {
        8
    }
}

/// Minimum power-of-2 byte count (1, 2, 4, or 8) needed to represent `val`
/// as an unsigned integer.  Used for `object_ref_size` and `offset_int_size`.
pub fn min_bytes_pow2(val: u64) -> (n: u8)
    ensures
        n == pow2_width(val),
{
    if val <= 0xFF {
        1
    } else if val <= 0xFFFF {
        2
    } else if val <= 0xFFFF_FFFF {
        4
    } else {
        8
    }
}

/// Write the marker byte(s) for a type and a count.
pub fn encode_count(buf: &mut Vec<u8>, type_tag: u8, count: usize)
    requires
        type_tag < 16,
    ensures
        final(buf)@ == old(buf)@ + count_bytes(type_tag, count as u64),
{
    if count < 15 {
        let c = count as u8;
        assert((type_tag << 4) | c == type_tag * 16 + c) by (bit_vector)
            requires type_tag < 16, c < 15;
        buf.push((type_tag << 4) | c);
    } else {
        assert((type_tag << 4) | 0x0F == type_tag * 16 + 15) by (bit_vector)
            requires type_tag < 16;
        buf.push((type_tag << 4) | 0x0F);
        let n = int_width_exp_u64(count as u64);
        assert(0x10 | n == 0x10 + n) by (bit_vector)
            requires n < 4;
        buf.push(0x10 | n);
        let byte_count: usize = 1usize << (n as usize);
        proof {
            lemma2_to64();
            vstd::bits::lemma_usize_shl_is_mul(1, n as usize);
        }
        append_be_uint(buf, count as u64, byte_count);
    }
}


/// The length of a byte vector; a `Vec` never holds more than `isize::MAX`
/// bytes (std's documented allocation limit).
#[verifier::external_body]
pub(crate) fn byte_len(v: &Vec<u8>) -> (n: usize)
    ensures
        n == v@.len(),
        n <= isize::MAX,
{
    v.len()
}

/// Appends `bytes` to `buf`.
pub(crate) fn extend_bytes(buf: &mut Vec<u8>, bytes: &[u8])
    ensures
        final(buf)@ == old(buf)@ + bytes@,
{
    let ghost start = buf@;
    let mut i: usize = 0;
    while i < bytes.len()
        invariant
            i <= bytes@.len(),
            buf@ == start + bytes@.take(i as int),
        decreases bytes@.len() - i,
    {
        buf.push(bytes[i]);
        assert(buf@ =~= start + bytes@.take(i + 1));
        i = i + 1;
    }
    assert(bytes@.take(i as int) =~= bytes@);
}

/// Appends the references in `ids`, `size` bytes each.
fn append_refs(buf: &mut Vec<u8>, ids: &Vec<usize>, size: u8)
    requires
        1 <= size <= 8,
    ensures
        final(buf)@ == old(buf)@ + refs_bytes(ids@.map_values(|x: usize| x as nat), size as nat),
{
    let ghost start = buf@;
    let ghost all = ids@.map_values(|x: usize| x as nat);
    let mut i: usize = 0;
    while i < ids.len()
        invariant
            1 <= size <= 8,
            i <= ids@.len(),
            all == ids@.map_values(|x: usize| x as nat),
            buf@ == start + refs_bytes(all.take(i as int), size as nat),
        decreases ids@.len() - i,
    {
        let ghost parts = Seq::new((i + 1) as nat, |k: int| be_bytes(all.take(i + 1)[k], size as nat));
        assert(parts.drop_last() =~= Seq::new(i as nat, |k: int| be_bytes(all.take(i as int)[k], size as nat)));
        append_be_uint(buf, ids[i] as u64, size as usize);
        assert(buf@ =~= start + refs_bytes(all.take(i + 1), size as nat));
        i = i + 1;
    }
    assert(all.take(i as int) =~= all);
}

/// Append the serialised bytes of `obj` to `buf`.
fn encode_object(buf: &mut Vec<u8>, obj: &FlatObject, obj_ref_size: u8)
    requires
        1 <= obj_ref_size <= 8,
        obj.child_ids@.len() == children(obj.value@).len(),
    ensures
        final(buf)@ == old(buf)@ + encode_node(object_model(*obj).0, object_model(*obj).1, obj_ref_size as nat),
{
    let ghost start = buf@;
    let ghost ids = obj.child_ids@.map_values(|x: usize| x as nat);
    proof {
        lemma2_to64();
    }
    match obj.value {
        Value::Null => buf.push(0x00),
        Value::Bool(b) => {
            if *b {
                buf.push(0x09);
            } else {
                buf.push(0x08);
            }
        },
        Value::Integer(i) => {
            // Negative values take 8 bytes (two's complement); others the
            // fewest power-of-2 bytes that hold them.
            let n = int_width_exp(*i);
            assert(0x10 | n == 0x10 + n) by (bit_vector)
                requires n < 4;
            buf.push(0x10 | n);
            let byte_count: usize = 1usize << (n as usize);
            proof {
                vstd::bits::lemma_usize_shl_is_mul(1, n as usize);
            }
            append_be_uint(buf, *i as u64, byte_count);
        },
        Value::Real(f) => {
            // Always written as a double (0x23), which keeps every bit.
            buf.push(0x23);
            append_be_uint(buf, *f, 8);
        },
        Value::Date(d) => {
            buf.push(0x33);
            append_be_uint(buf, *d, 8);
        },
        Value::Data(bytes) => {
            encode_count(buf, 0x4, bytes.len());
            extend_bytes(buf, bytes.as_slice());
        },
        Value::String(s) => {
            // ASCII when every code point fits in a byte; otherwise UTF-16 BE,
            // counting code units.
            if s.is_ascii() {
                let st = s.as_str();
                let b = st.as_bytes();
                proof {
                    vstd::string::is_ascii_spec_bytes(st);
                }
                let n = b.len();
                assert(b@ =~= Seq::new(s@.len(), |i: int| s@[i] as u8));
                encode_count(buf, 0x5, n);
                extend_bytes(buf, b);
            } else {
                let units = encode_utf16(s.as_str());
                encode_count(buf, 0x6, units.len());
                let ghost mid = buf@;
                let mut k: usize = 0;
                while k < units.len()
                    invariant
                        k <= units@.len(),
                        buf@ == mid + units_bytes(units@).take(2 * k),
                    decreases units@.len() - k,
                {
                    let u = units[k];
                    buf.push((u / 256) as u8);
                    buf.push((u % 256) as u8);
                    assert(buf@ =~= mid + units_bytes(units@).take(2 * k + 2));
                    k = k + 1;
                }
                assert(units_bytes(units@).take(2 * k) =~= units_bytes(units@));
            }
        },
        Value::Uid(u) => {
            // Marker nibble = byte_count - 1.
            let byte_count = uid_byte_count(*u);
            buf.push(0x80 + (byte_count - 1));
            append_be_uint(buf, *u, byte_count as usize);
        },
        Value::Array(items) => {
            proof {
                crate::value::lemma_items_views(*items);
            }
            encode_count(buf, 0xA, obj.child_ids.len());
            append_refs(buf, &obj.child_ids, obj_ref_size);
        },
        Value::UnorderedSet(items) => {
            proof {
                crate::value::lemma_items_views(*items);
            }
            encode_count(buf, 0xC, obj.child_ids.len());
            append_refs(buf, &obj.child_ids, obj_ref_size);
        },
        Value::Dictionary(pairs) => {
            // References: all key IDs, then all value IDs.
            proof {
                crate::value::lemma_pairs_views(*pairs);
            }
            encode_count(buf, 0xD, pairs.len());
            append_refs(buf, &obj.child_ids, obj_ref_size);
        },
    }
    assert(buf@ =~= start + encode_node(object_model(*obj).0, object_model(*obj).1, obj_ref_size as nat));
}


/// The encodings of the objects `objs`, with references of `rs` bytes.
pub open spec fn encodings(objs: Seq<(SpecValue, Seq<nat>)>, rs: nat) -> Seq<Seq<u8>> {
    Seq::new(objs.len(), |k: int| encode_node(objs[k].0, objs[k].1, rs))
}

/// Where each encoded object starts in the file (after the 8-byte header).
pub open spec fn offsets_of(encs: Seq<Seq<u8>>) -> Seq<nat> {
    Seq::new(encs.len(), |k: int| 8 + concat(encs.take(k)).len())
}

/// The number of bytes an object reference takes when there are `n` objects.
pub open spec fn ref_size_for(n: nat) -> nat {
    pow2_width(if n == 0 { 0 } else { (n - 1) as u64 }) as nat
}

/// The 8-byte header.
pub open spec fn magic() -> Seq<u8> {
    seq![0x62u8, 0x70, 0x6C, 0x69, 0x73, 0x74, 0x30, 0x30]
}

/// The trailer: sizes, object count, root object 0 and where the offset
/// table starts.
pub open spec fn trailer_bytes(ois: nat, rs: nat, n: nat, ot_offset: nat) -> Seq<u8> {
    seq![0u8, 0, 0, 0, 0, 0, ois as u8, rs as u8] + be_bytes(n, 8) + be_bytes(0, 8) + be_bytes(ot_offset, 8)
}

/// The binary property list of `v`.
pub open spec fn spec_write(v: SpecValue) -> Seq<u8> {
    let objs = flat(v, 0);
    let n = objs.len();
    let rs = ref_size_for(n);
    let encs = encodings(objs, rs);
    let body = concat(encs);
    let offs = offsets_of(encs);
    let max_offset: nat = if n == 0 { 8 } else { offs.last() };
    let ois = pow2_width(max_offset as u64) as nat;
    let ot = concat(Seq::new(n, |k: int| be_bytes(offs[k], ois)));
    magic() + body + ot + trailer_bytes(ois, rs, n, 8 + body.len())
}

/// Serialise `value` as a `bplist00` binary property list, appending it to
/// `writer`.
pub fn write(value: &Value, writer: &mut Vec<u8>) -> (res: Result<(), WriteError>)
    ensures
        res is Ok,
        final(writer)@ == old(writer)@ + spec_write(value@),
{
    // Pass 1: flatten the value tree.
    let objects = flatten(value);
    let num_objects = objects.len();
    let ghost objs = flat(value@, 0);
    proof {
        lemma_flat_ids(value@, 0);
    }
    // The largest object reference is num_objects - 1.
    let obj_ref_size = min_bytes_pow2(if num_objects == 0 { 0 } else { (num_objects - 1) as u64 });
    let ghost rs = obj_ref_size as nat;
    let ghost encs = encodings(objs, rs);
    // Pass 2: encode each object, tracking file offsets.
    let mut body: Vec<u8> = Vec::new();
    let mut offsets: Vec<u64> = Vec::new();
    let mut k: usize = 0;
    assert(encs.take(0) =~= Seq::<Seq<u8>>::empty());
    while k < num_objects
        invariant
            num_objects == objects@.len(),
            object_models(objects@) == objs,
            objs == flat(value@, 0),
            forall|j: int| 0 <= j < objs.len() ==> (#[trigger] objs[j]).1.len() == children(objs[j].0).len(),
            rs == ref_size_for(objs.len()),
            rs == obj_ref_size as nat,
            1 <= obj_ref_size <= 8,
            encs == encodings(objs, rs),
            k <= num_objects,
            body@ == concat(encs.take(k as int)),
            offsets@.len() == k,
            forall|j: int| 0 <= j < k ==> offsets@[j] == offsets_of(encs)[j],
        decreases num_objects - k,
    {
        proof {
            lemma_concat_take(encs, k as int);
            assert(object_model(objects@[k as int]) == objs[k as int]);
        }
        let blen = byte_len(&body);
        offsets.push(8 + blen as u64);
        encode_object(&mut body, &objects[k], obj_ref_size);
        k = k + 1;
    }
    proof {
        assert(encs.take(num_objects as int) =~= encs);
    }
    let ghost offs = offsets_of(encs);
    // The largest value in the offset table is the last object's offset.
    let max_offset: u64 = if num_objects == 0 { 8 } else { offsets[num_objects - 1] };
    let off_int_size = min_bytes_pow2(max_offset);
    // The offset table.
    let ot_offset = 8 + byte_len(&body) as u64;
    let mut ot: Vec<u8> = Vec::new();
    let mut k: usize = 0;
    while k < num_objects
        invariant
            k <= num_objects,
            offsets@.len() == num_objects,
            off_int_size <= 8,
            ot@ == concat(Seq::new(k as nat, |j: int| be_bytes(offsets@[j] as nat, off_int_size as nat))),
        decreases num_objects - k,
    {
        let ghost parts = Seq::new((k + 1) as nat, |j: int| be_bytes(offsets@[j] as nat, off_int_size as nat));
        assert(parts.drop_last() =~= Seq::new(k as nat, |j: int| be_bytes(offsets@[j] as nat, off_int_size as nat)));
        append_be_uint(&mut ot, offsets[k], off_int_size as usize);
        k = k + 1;
    }
    proof {
        assert(Seq::new(num_objects as nat, |j: int| be_bytes(offsets@[j] as nat, off_int_size as nat))
            =~= Seq::new(objs.len(), |j: int| be_bytes(offs[j], off_int_size as nat)));
    }
    // The trailer: 5 unused bytes, sort_version, the two sizes, then the
    // object count, the root object (always 0) and the offset table offset.
    let mut trailer: Vec<u8> = Vec::new();
    let mut z: usize = 0;
    while z < 6
        invariant
            z <= 6,
            trailer@ == Seq::new(z as nat, |j: int| 0u8),
        decreases 6 - z,
    {
        trailer.push(0);
        assert(trailer@ =~= Seq::new((z + 1) as nat, |j: int| 0u8));
        z = z + 1;
    }
    trailer.push(off_int_size);
    trailer.push(obj_ref_size);
    append_be_uint(&mut trailer, num_objects as u64, 8);
    append_be_uint(&mut trailer, 0, 8);
    append_be_uint(&mut trailer, ot_offset, 8);
    proof {
        let n = objs.len();
        let mo: nat = if n == 0 { 8 } else { offs.last() };
        assert(mo == max_offset);
        assert(trailer@ =~= trailer_bytes(pow2_width(mo as u64) as nat, rs, n, 8 + concat(encs).len()));
    }
    // Write everything in one sweep.
    let header: [u8; 8] = [0x62, 0x70, 0x6C, 0x69, 0x73, 0x74, 0x30, 0x30];
    assert(header@ =~= magic());
    let ghost start = writer@;
    extend_bytes(writer, header.as_slice());
    extend_bytes(writer, body.as_slice());
    extend_bytes(writer, ot.as_slice());
    extend_bytes(writer, trailer.as_slice());
    assert(writer@ =~= start + spec_write(value@));
    Ok(())
}

} // verus!
