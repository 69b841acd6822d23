//! The object layout of a binary property list: which objects a value is
//! written as, in which order, and with which object IDs.
//!
//! A value is written as the pre-order sequence of its nodes: a node, then
//! the objects of each of its children in turn.  A dictionary's children are
//! all its keys, then all its values.  The root gets ID 0 and every node
//! records the IDs of its children.
use vstd::prelude::*;

use crate::value::SpecValue;

verus! {

/// The sum of a sequence of naturals.
pub open spec fn sum(s: Seq<nat>) -> nat
    decreases s.len(),
{
    if s.len() == 0 {
        0
    } else {
        sum(s.drop_last()) + s.last()
    }
}

/// The concatenation of a sequence of sequences.
pub open spec fn concat<A>(s: Seq<Seq<A>>) -> Seq<A>
    decreases s.len(),
{
    if s.len() == 0 {
        Seq::empty()
    } else {
        concat(s.drop_last()) + s.last()
    }
}

/// The children of a node: the elements of an array or a set; the keys, then
/// the values, of a dictionary; none for a scalar.
pub open spec fn children(v: SpecValue) -> Seq<SpecValue> {
    match v {
        SpecValue::Array(items) => items,
        SpecValue::UnorderedSet(items) => items,
        SpecValue::Dictionary(ps) => Seq::new(ps.len(), |i: int| ps[i].0) + Seq::new(
            ps.len(),
            |i: int| ps[i].1,
        ),
        _ => Seq::empty(),
    }
}

/// The number of objects each child of `v` is written as.
pub open spec fn child_sizes(v: SpecValue) -> Seq<nat>
    decreases v, 0nat,
{
    match v {
        SpecValue::Array(items) => Seq::new(
            items.len(),
            |i: int| if 0 <= i < items.len() { size(items[i]) } else { 0 },
        ),
        SpecValue::UnorderedSet(items) => Seq::new(
            items.len(),
            |i: int| if 0 <= i < items.len() { size(items[i]) } else { 0 },
        ),
        SpecValue::Dictionary(ps) => Seq::new(
            ps.len(),
            |i: int| if 0 <= i < ps.len() { size(ps[i].0) } else { 0 },
        ) + Seq::new(ps.len(), |i: int| if 0 <= i < ps.len() { size(ps[i].1) } else { 0 }),
        _ => Seq::empty(),
    }
}

/// The number of objects `v` is written as.
pub open spec fn size(v: SpecValue) -> nat
    decreases v, 1nat,
{
    1 + sum(child_sizes(v))
}

/// The ID of child `j` of a node whose ID is `base`.
pub open spec fn child_id(v: SpecValue, base: nat, j: int) -> nat {
    base + 1 + sum(child_sizes(v).take(j))
}

/// The IDs of the children of a node whose ID is `base`.
pub open spec fn child_ids(v: SpecValue, base: nat) -> Seq<nat> {
    Seq::new(children(v).len(), |j: int| child_id(v, base, j))
}

/// The objects each child of `v` is written as, when `v` has ID `base`.
pub open spec fn child_flats(v: SpecValue, base: nat) -> Seq<Seq<(SpecValue, Seq<nat>)>>
    decreases v, 0nat,
{
    match v {
        SpecValue::Array(items) => Seq::new(
            items.len(),
            |i: int|
                if 0 <= i < items.len() {
                    flat(items[i], child_id(v, base, i))
                } else {
                    Seq::empty()
                },
        ),
        SpecValue::UnorderedSet(items) => Seq::new(
            items.len(),
            |i: int|
                if 0 <= i < items.len() {
                    flat(items[i], child_id(v, base, i))
                } else {
                    Seq::empty()
                },
        ),
        SpecValue::Dictionary(ps) => Seq::new(
            ps.len(),
            |i: int|
                if 0 <= i < ps.len() {
                    flat(ps[i].0, child_id(v, base, i))
                } else {
                    Seq::empty()
                },
        ) + Seq::new(
            ps.len(),
            |i: int|
                if 0 <= i < ps.len() {
                    flat(ps[i].1, child_id(v, base, ps.len() + i))
                } else {
                    Seq::empty()
                },
        ),
        _ => Seq::empty(),
    }
}

/// The objects `v` is written as when its ID is `base`, in ID order: each
/// object is a node and the IDs of its children.
pub open spec fn flat(v: SpecValue, base: nat) -> Seq<(SpecValue, Seq<nat>)>
    decreases v, 1nat,
{
    seq![(v, child_ids(v, base))] + concat(child_flats(v, base))
}

/// The heights of the children of `v`.
pub open spec fn child_heights(v: SpecValue) -> Seq<nat>
    decreases v, 0nat,
{
    match v {
        SpecValue::Array(items) => Seq::new(
            items.len(),
            |i: int| if 0 <= i < items.len() { height(items[i]) } else { 0 },
        ),
        SpecValue::UnorderedSet(items) => Seq::new(
            items.len(),
            |i: int| if 0 <= i < items.len() { height(items[i]) } else { 0 },
        ),
        SpecValue::Dictionary(ps) => Seq::new(
            ps.len(),
            |i: int| if 0 <= i < ps.len() { height(ps[i].0) } else { 0 },
        ) + Seq::new(ps.len(), |i: int| if 0 <= i < ps.len() { height(ps[i].1) } else { 0 }),
        _ => Seq::empty(),
    }
}

/// The depth of the deepest node below `v`: 0 for a scalar or an empty
/// collection, else one more than the deepest child.
pub open spec fn height(v: SpecValue) -> nat
    decreases v, 1nat,
{
    if child_heights(v).len() == 0 {
        0
    } else {
        1 + max_of(child_heights(v))
    }
}

/// The largest element of a sequence of naturals (0 when empty).
pub open spec fn max_of(s: Seq<nat>) -> nat
    decreases s.len(),
{
    if s.len() == 0 {
        0
    } else {
        let m = max_of(s.drop_last());
        if s.last() > m {
            s.last()
        } else {
            m
        }
    }
}


/// Sums of prefixes grow with the prefix.
pub proof fn lemma_sum_prefix(s: Seq<nat>, i: int, j: int)
    requires
        0 <= i <= j <= s.len(),
    ensures
        sum(s.take(i)) <= sum(s.take(j)),
        j == i + 1 ==> sum(s.take(j)) == sum(s.take(i)) + s[i],
    decreases j - i,
{
    if i < j {
        lemma_sum_prefix(s, i, j - 1);
        assert(s.take(j).drop_last() =~= s.take(j - 1));
    }
    assert(s.take(s.len() as int) =~= s);
}

/// The sum of a whole sequence bounds the sum of any prefix.
pub proof fn lemma_sum_take_all(s: Seq<nat>)
    ensures
        sum(s.take(s.len() as int)) == sum(s),
{
    assert(s.take(s.len() as int) =~= s);
}

/// Appending one more sequence to a concatenation.
pub proof fn lemma_concat_take<A>(s: Seq<Seq<A>>, i: int)
    requires
        0 <= i < s.len(),
    ensures
        concat(s.take(i + 1)) == concat(s.take(i)) + s[i],
{
    assert(s.take(i + 1).drop_last() =~= s.take(i));
}

/// The children of a node, their sizes and their objects line up.
pub proof fn lemma_children(v: SpecValue, base: nat)
    ensures
        child_sizes(v).len() == children(v).len(),
        child_flats(v, base).len() == children(v).len(),
        forall|j: int|
            0 <= j < children(v).len() ==> #[trigger] child_sizes(v)[j] == size(children(v)[j])
                && child_flats(v, base)[j] == flat(children(v)[j], child_id(v, base, j)),
{
    match v {
        SpecValue::Dictionary(ps) => {
            let n = ps.len() as int;
            assert forall|j: int| 0 <= j < children(v).len() implies #[trigger] child_sizes(v)[j]
                == size(children(v)[j]) && child_flats(v, base)[j] == flat(
                children(v)[j],
                child_id(v, base, j),
            ) by {
                if j < n {
                } else {
                    assert(children(v)[j] == ps[j - n].1);
                    assert(n + (j - n) == j);
                }
            }
        },
        _ => {},
    }
}

/// Concatenated length is the sum of the lengths.
pub proof fn lemma_concat_len<A>(s: Seq<Seq<A>>, lens: Seq<nat>)
    requires
        lens.len() == s.len(),
        forall|j: int| 0 <= j < s.len() ==> #[trigger] lens[j] == s[j].len(),
    ensures
        concat(s).len() == sum(lens),
    decreases s.len(),
{
    if s.len() > 0 {
        lemma_concat_len(s.drop_last(), lens.drop_last());
    }
}

/// Every child of a node is a proper part of it.
pub proof fn lemma_child_decreases(v: SpecValue, j: int)
    requires
        0 <= j < children(v).len(),
    ensures
        decreases_to!(v => children(v)[j]),
{
    match v {
        SpecValue::Array(items) => {
            assert(decreases_to!(v => items));
            assert(decreases_to!(items => items[j]));
        },
        SpecValue::UnorderedSet(items) => {
            assert(decreases_to!(v => items));
            assert(decreases_to!(items => items[j]));
        },
        SpecValue::Dictionary(ps) => {
            let n = ps.len() as int;
            assert(decreases_to!(v => ps));
            if j < n {
                assert(decreases_to!(ps => ps[j]));
                assert(decreases_to!(ps[j] => ps[j].0));
                assert(children(v)[j] == ps[j].0);
            } else {
                assert(decreases_to!(ps => ps[j - n]));
                assert(decreases_to!(ps[j - n] => ps[j - n].1));
                assert(children(v)[j] == ps[j - n].1);
            }
        },
        _ => {},
    }
}

/// A value is written as `size(v)` objects.
pub proof fn lemma_flat_len(v: SpecValue, base: nat)
    ensures
        flat(v, base).len() == size(v),
    decreases v,
{
    lemma_children(v, base);
    let cs = child_flats(v, base);
    assert forall|j: int| 0 <= j < cs.len() implies #[trigger] child_sizes(v)[j] == cs[j].len() by {
        lemma_child_decreases(v, j);
        lemma_flat_len(children(v)[j], child_id(v, base, j));
    }
    lemma_concat_len(cs, child_sizes(v));
}

/// A property that holds of every element of every part holds of every
/// element of the concatenation.
pub proof fn lemma_concat_forall<A>(s: Seq<Seq<A>>, p: spec_fn(A) -> bool)
    requires
        forall|j: int, k: int| 0 <= j < s.len() && 0 <= k < s[j].len() ==> p(#[trigger] s[j][k]),
    ensures
        forall|k: int| 0 <= k < concat(s).len() ==> p(#[trigger] concat(s)[k]),
    decreases s.len(),
{
    if s.len() > 0 {
        let init = s.drop_last();
        assert forall|j: int, k: int| 0 <= j < init.len() && 0 <= k < init[j].len() implies p(
            #[trigger] init[j][k],
        ) by {
            assert(init[j] == s[j]);
        }
        lemma_concat_forall(init, p);
        let c = concat(s);
        let ci = concat(init);
        assert forall|k: int| 0 <= k < c.len() implies p(#[trigger] c[k]) by {
            if k < ci.len() {
                assert(c[k] == ci[k]);
            } else {
                assert(c[k] == s.last()[k - ci.len()]);
                assert(s[s.len() - 1] == s.last());
            }
        }
    }
}

/// A prefix of the parts concatenates to a prefix of the whole.
pub proof fn lemma_concat_prefix<A>(s: Seq<Seq<A>>, i: int)
    requires
        0 <= i <= s.len(),
    ensures
        concat(s.take(i)).len() <= concat(s).len(),
        concat(s) == concat(s.take(i)) + concat(s).subrange(concat(s.take(i)).len() as int, concat(s).len() as int),
    decreases s.len() - i,
{
    if i == s.len() {
        assert(s.take(i) =~= s);
        assert(concat(s) =~= concat(s) + concat(s).subrange(concat(s).len() as int, concat(s).len() as int));
    } else {
        lemma_concat_take(s, i);
        lemma_concat_prefix(s, i + 1);
        let a = concat(s.take(i));
        let b = concat(s.take(i + 1));
        let c = concat(s);
        assert(c =~= a + c.subrange(a.len() as int, c.len() as int));
    }
}

/// Every object of the layout records as many child IDs as its node has
/// children.
pub proof fn lemma_flat_ids(v: SpecValue, base: nat)
    ensures
        forall|k: int|
            0 <= k < flat(v, base).len() ==> (#[trigger] flat(v, base)[k]).1.len() == children(
                flat(v, base)[k].0,
            ).len(),
    decreases v,
{
    let p = |o: (SpecValue, Seq<nat>)| o.1.len() == children(o.0).len();
    lemma_children(v, base);
    let cs = child_flats(v, base);
    assert forall|j: int, k: int| 0 <= j < cs.len() && 0 <= k < cs[j].len() implies p(
        #[trigger] cs[j][k],
    ) by {
        lemma_child_decreases(v, j);
        let sub = flat(children(v)[j], child_id(v, base, j));
        lemma_flat_ids(children(v)[j], child_id(v, base, j));
        assert(cs[j] == sub);
        assert(sub[k].1.len() == children(sub[k].0).len());
    }
    lemma_concat_forall(cs, p);
    let f = flat(v, base);
    assert forall|k: int| 0 <= k < f.len() implies (#[trigger] f[k]).1.len() == children(f[k].0).len() by {
        if k > 0 {
            assert(f[k] == concat(cs)[k - 1]);
            assert(p(concat(cs)[k - 1]));
        }
    }
}

/// The largest element bounds every element.
pub proof fn lemma_max_of(s: Seq<nat>, j: int)
    requires
        0 <= j < s.len(),
    ensures
        s[j] <= max_of(s),
    decreases s.len(),
{
    if j < s.len() - 1 {
        lemma_max_of(s.drop_last(), j);
    }
}

/// A child is less deep than its parent.
pub proof fn lemma_height_child(v: SpecValue, j: int)
    requires
        0 <= j < children(v).len(),
    ensures
        height(children(v)[j]) + 1 <= height(v),
{
    let hs = child_heights(v);
    assert(hs.len() == children(v).len());
    lemma_max_of(hs, j);
    match v {
        SpecValue::Dictionary(ps) => {
            let n = ps.len() as int;
            if j >= n {
                assert(children(v)[j] == ps[j - n].1);
                assert(hs[j] == height(ps[j - n].1));
            }
        },
        _ => {},
    }
}

/// The position of an element of a concatenation: part `j`, element `i`.
pub proof fn lemma_concat_locate<A>(s: Seq<Seq<A>>, m: int) -> (ji: (int, int))
    requires
        0 <= m < concat(s).len(),
    ensures
        0 <= ji.0 < s.len(),
        0 <= ji.1 < s[ji.0].len(),
        m == concat(s.take(ji.0)).len() + ji.1,
        concat(s)[m] == s[ji.0][ji.1],
    decreases s.len(),
{
    let init = s.drop_last();
    let ci = concat(init);
    if m < ci.len() {
        let (j, i) = lemma_concat_locate(init, m);
        assert(init.take(j) =~= s.take(j));
        (j, i)
    } else {
        let j = s.len() - 1;
        assert(s.take(j) =~= init);
        (j, m - ci.len())
    }
}

/// Part `j` of a concatenation stands where the parts before it end.
pub proof fn lemma_concat_part<A>(s: Seq<Seq<A>>, j: int)
    requires
        0 <= j < s.len(),
    ensures
        concat(s.take(j)).len() + s[j].len() <= concat(s).len(),
        concat(s).subrange(concat(s.take(j)).len() as int, (concat(s.take(j)).len() + s[j].len()) as int) == s[j],
{
    lemma_concat_prefix(s, j + 1);
    lemma_concat_take(s, j);
    let p = concat(s.take(j)).len() as int;
    assert(concat(s).subrange(p, p + s[j].len()) =~= s[j]);
}

/// Earlier prefixes of the parts concatenate to shorter sequences.
pub proof fn lemma_concat_take_mono<A>(s: Seq<Seq<A>>, i: int, j: int)
    requires
        0 <= i <= j <= s.len(),
    ensures
        concat(s.take(i)).len() <= concat(s.take(j)).len(),
{
    lemma_concat_prefix(s.take(j), i);
    assert(s.take(j).take(i) =~= s.take(i));
}

/// Parts of one length `l`: the first `j` of them are `j * l` long.
pub proof fn lemma_concat_uniform<A>(s: Seq<Seq<A>>, l: nat, j: int)
    requires
        0 <= j <= s.len(),
        forall|i: int| 0 <= i < s.len() ==> (#[trigger] s[i]).len() == l,
    ensures
        concat(s.take(j)).len() == j * l,
    decreases j,
{
    if j == 0 {
        assert(s.take(0) =~= Seq::<Seq<A>>::empty());
    } else {
        lemma_concat_uniform(s, l, j - 1);
        lemma_concat_take(s, j - 1);
        assert(j * l == (j - 1) * l + l) by (nonlinear_arith);
    }
}

/// The objects of the children of a node, laid out one after another.
pub proof fn lemma_flat_parts(v: SpecValue, base: nat, j: int)
    requires
        0 <= j <= children(v).len(),
    ensures
        concat(child_flats(v, base).take(j)).len() == sum(child_sizes(v).take(j)),
        child_id(v, base, j) == base + 1 + concat(child_flats(v, base).take(j)).len(),
{
    lemma_children(v, base);
    let cs = child_flats(v, base);
    let sizes = child_sizes(v);
    assert forall|t: int| 0 <= t < cs.take(j).len() implies #[trigger] sizes.take(j)[t] == cs.take(j)[t].len() by {
        lemma_flat_len(children(v)[t], child_id(v, base, t));
    }
    lemma_concat_len(cs.take(j), sizes.take(j));
}

/// Child `t` of object `k` of the layout: its ID names the object of that
/// child.
#[verifier::spinoff_prover]
#[verifier::rlimit(50)]
pub proof fn lemma_flat_link(v: SpecValue, base: nat, k: int, t: int)
    requires
        0 <= k < flat(v, base).len(),
        0 <= t < flat(v, base)[k].1.len(),
    ensures
        base < flat(v, base)[k].1[t] < base + flat(v, base).len(),
        flat(v, base)[flat(v, base)[k].1[t] - base].0 == children(flat(v, base)[k].0)[t],
    decreases v,
{
    let f = flat(v, base);
    let cs = child_flats(v, base);
    let sizes = child_sizes(v);
    lemma_children(v, base);
    lemma_flat_len(v, base);
    if k == 0 {
        lemma_flat_parts(v, base, t);
        lemma_concat_part(cs, t);
        lemma_flat_len(children(v)[t], child_id(v, base, t));
        lemma_flat_parts(v, base, t + 1);
        lemma_concat_take(cs, t);
        lemma_concat_take_mono(cs, t + 1, cs.len() as int);
        assert(cs.take(cs.len() as int) =~= cs);
        let p = concat(cs.take(t)).len() as int;
        assert(cs[t][0] == concat(cs).subrange(p, p + cs[t].len())[0]);
        assert(f[1 + p] == concat(cs)[p]);
    } else {
        let (j, i) = lemma_concat_locate(cs, k - 1);
        let c = children(v)[j];
        let bj = child_id(v, base, j);
        lemma_child_decreases(v, j);
        assert(f[k] == cs[j][i]);
        lemma_flat_link(c, bj, i, t);
        lemma_flat_len(c, bj);
        lemma_flat_parts(v, base, j);
        lemma_flat_parts(v, base, j + 1);
        lemma_concat_take(cs, j);
        lemma_concat_take_mono(cs, j + 1, cs.len() as int);
        assert(cs.take(cs.len() as int) =~= cs);
        let id = cs[j][i].1[t];
        lemma_concat_part(cs, j);
        let p = concat(cs.take(j)).len() as int;
        assert(cs[j][id - bj] == concat(cs).subrange(p, p + cs[j].len())[id - bj]);
        assert(f[id - base] == concat(cs)[p + (id - bj)]);
    }
}

} // verus!
