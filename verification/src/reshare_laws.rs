//! Laws of resharing: a reshared tree inlines back to the value it was made
//! from, resharing a reshared tree changes nothing, every store the
//! resharer writes holds an immutable, shareable node, and a tree that
//! encoded still encodes once reshared.

use vstd::prelude::*;

use crate::reshare::{
    collect, collect_pairs, collect_seq, lemma_rebuilt_next, lemma_rebuilt_pairs_next,
    lemma_rebuilt_seq_next, rebuilt, rebuilt_pairs, rebuilt_seq, resolved,
    resolved_pairs, resolved_seq, share_key, shareable, slot_of, spec_inline, spec_reshare,
    table_get, tally, ShareState,
};
use crate::encode::{enc, enc_body, enc_pairs, enc_seq, enc_st, enc_start, first_bad_slot, repeat_from, spec_encode, storable, EncState};
use crate::opcodes::MAX_DEPTH;
use crate::roundtrip::lemma_decode_encode;
use crate::value::ValueView;

verus! {

// ---------------------------------------------------------------------------
// Sharing-free trees.
// ---------------------------------------------------------------------------

/// No `Shared` store and no `Ref` anywhere in the subtree.
pub open spec fn plain(v: ValueView) -> bool
    decreases v, 1nat,
{
    match v {
        ValueView::Shared { .. } => false,
        ValueView::Ref(_) => false,
        ValueView::Tuple(xs) => plain_seq(xs),
        ValueView::List(xs) => plain_seq(xs),
        ValueView::Dict(e) => plain_pairs(e),
        ValueView::Stream(inner) => plain(*inner),
        ValueView::Instance { class, state } => plain(*class) && plain(*state),
        ValueView::Reduce { ctor, items, pairs } => plain(*ctor) && plain_seq(items) && plain_pairs(pairs),
        _ => true,
    }
}

pub open spec fn plain_seq(s: Seq<ValueView>) -> bool
    decreases s, 0nat,
{
    forall|i: int| 0 <= i < s.len() ==> plain(#[trigger] s[i])
}

pub open spec fn plain_pairs(s: Seq<(ValueView, ValueView)>) -> bool
    decreases s, 0nat,
{
    forall|i: int| 0 <= i < s.len() ==> plain((#[trigger] s[i]).0) && plain(s[i].1)
}

/// A sharing-free tree has no stores.
proof fn lemma_plain_collect(v: ValueView)
    requires
        plain(v),
    ensures
        collect(v) == Seq::<(u32, ValueView)>::empty(),
    decreases v, 1nat,
{
    match v {
        ValueView::Tuple(xs) => lemma_plain_collect_seq(xs),
        ValueView::List(xs) => lemma_plain_collect_seq(xs),
        ValueView::Dict(e) => lemma_plain_collect_pairs(e),
        ValueView::Stream(inner) => lemma_plain_collect(*inner),
        ValueView::Instance { class, state } => {
            lemma_plain_collect(*class);
            lemma_plain_collect(*state);
            assert(collect(v) =~= Seq::<(u32, ValueView)>::empty());
        },
        ValueView::Reduce { ctor, items, pairs } => {
            lemma_plain_collect(*ctor);
            lemma_plain_collect_seq(items);
            lemma_plain_collect_pairs(pairs);
            assert(collect(v) =~= Seq::<(u32, ValueView)>::empty());
        },
        _ => {},
    }
}

proof fn lemma_plain_collect_seq(s: Seq<ValueView>)
    requires
        plain_seq(s),
    ensures
        collect_seq(s) == Seq::<(u32, ValueView)>::empty(),
    decreases s, 0nat,
{
    if s.len() > 0 {
        let init = s.subrange(0, s.len() - 1);
        assert(plain_seq(init)) by {
            assert forall|i: int| 0 <= i < init.len() implies plain(#[trigger] init[i]) by {
                assert(init[i] == s[i]);
            }
        }
        lemma_plain_collect_seq(init);
        assert(plain(s[s.len() - 1]));
        lemma_plain_collect(s[s.len() - 1]);
        assert(collect_seq(s) =~= Seq::<(u32, ValueView)>::empty());
    }
}

proof fn lemma_plain_collect_pairs(s: Seq<(ValueView, ValueView)>)
    requires
        plain_pairs(s),
    ensures
        collect_pairs(s) == Seq::<(u32, ValueView)>::empty(),
    decreases s, 0nat,
{
    if s.len() > 0 {
        let init = s.subrange(0, s.len() - 1);
        assert(plain_pairs(init)) by {
            assert forall|i: int| 0 <= i < init.len() implies plain((#[trigger] init[i]).0) && plain(
                init[i].1,
            ) by {
                assert(init[i] == s[i]);
            }
        }
        lemma_plain_collect_pairs(init);
        let last = s[s.len() - 1];
        assert(plain(last.0) && plain(last.1));
        lemma_plain_collect(last.0);
        lemma_plain_collect(last.1);
        assert(collect_pairs(s) =~= Seq::<(u32, ValueView)>::empty());
    }
}

/// Resolving a sharing-free tree gives it back, whatever the table.
proof fn lemma_plain_resolved(v: ValueView, t: Seq<(u32, ValueView)>, fuel: nat)
    requires
        plain(v),
    ensures
        resolved(v, t, fuel) == Some(v),
    decreases v, 1nat,
{
    match v {
        ValueView::Tuple(xs) => lemma_plain_resolved_seq(xs, t, fuel),
        ValueView::List(xs) => lemma_plain_resolved_seq(xs, t, fuel),
        ValueView::Dict(e) => lemma_plain_resolved_pairs(e, t, fuel),
        ValueView::Stream(inner) => lemma_plain_resolved(*inner, t, fuel),
        ValueView::Instance { class, state } => {
            lemma_plain_resolved(*class, t, fuel);
            lemma_plain_resolved(*state, t, fuel);
        },
        ValueView::Reduce { ctor, items, pairs } => {
            lemma_plain_resolved(*ctor, t, fuel);
            lemma_plain_resolved_seq(items, t, fuel);
            lemma_plain_resolved_pairs(pairs, t, fuel);
        },
        _ => {},
    }
}

proof fn lemma_plain_resolved_seq(s: Seq<ValueView>, t: Seq<(u32, ValueView)>, fuel: nat)
    requires
        plain_seq(s),
    ensures
        resolved_seq(s, t, fuel) == Some(s),
    decreases s, 0nat,
{
    if s.len() > 0 {
        let init = s.subrange(0, s.len() - 1);
        assert(plain_seq(init)) by {
            assert forall|i: int| 0 <= i < init.len() implies plain(#[trigger] init[i]) by {
                assert(init[i] == s[i]);
            }
        }
        lemma_plain_resolved_seq(init, t, fuel);
        assert(plain(s[s.len() - 1]));
        lemma_plain_resolved(s[s.len() - 1], t, fuel);
        assert(init.push(s[s.len() - 1]) =~= s);
    }
}

proof fn lemma_plain_resolved_pairs(s: Seq<(ValueView, ValueView)>, t: Seq<(u32, ValueView)>, fuel: nat)
    requires
        plain_pairs(s),
    ensures
        resolved_pairs(s, t, fuel) == Some(s),
    decreases s, 0nat,
{
    if s.len() > 0 {
        let init = s.subrange(0, s.len() - 1);
        assert(plain_pairs(init)) by {
            assert forall|i: int| 0 <= i < init.len() implies plain((#[trigger] init[i]).0) && plain(
                init[i].1,
            ) by {
                assert(init[i] == s[i]);
            }
        }
        lemma_plain_resolved_pairs(init, t, fuel);
        let last = s[s.len() - 1];
        assert(plain(last.0) && plain(last.1));
        lemma_plain_resolved(last.0, t, fuel);
        lemma_plain_resolved(last.1, t, fuel);
        assert(init.push((last.0, last.1)) =~= s);
    }
}

/// Two nodes with the same wire encoding are the same node.
proof fn lemma_key_injective(x: ValueView, y: ValueView)
    requires
        share_key(x) is Some,
        share_key(x) == share_key(y),
    ensures
        x == y,
{
    lemma_decode_encode(x);
    lemma_decode_encode(y);
}

// ---------------------------------------------------------------------------
// How the resharing state grows.
// ---------------------------------------------------------------------------

/// `b` starts with `a`.
pub open spec fn extends(a: Seq<(Seq<u8>, u32)>, b: Seq<(Seq<u8>, u32)>) -> bool {
    &&& a.len() <= b.len()
    &&& forall|i: int| 0 <= i < a.len() ==> #[trigger] a[i] == b[i]
}

proof fn lemma_extends_trans(a: Seq<(Seq<u8>, u32)>, b: Seq<(Seq<u8>, u32)>, c: Seq<(Seq<u8>, u32)>)
    requires
        extends(a, b),
        extends(b, c),
    ensures
        extends(a, c),
{
    assert forall|i: int| 0 <= i < a.len() implies #[trigger] a[i] == c[i] by {
        assert(a[i] == b[i]);
        assert(b[i] == c[i]);
    }
}

/// Rebuilding only ever appends slots.
proof fn lemma_rebuilt_extends(v: ValueView, keys: Seq<Seq<u8>>, st: ShareState)
    ensures
        extends(st.slots, rebuilt(v, keys, st).0.slots),
    decreases v, 1nat,
{
    if shareable(v) {
        match share_key(v) {
            Some(k) => {
                if crate::reshare::occurrences(keys, k) >= 2 && slot_of(st.slots, k) is None {
                    let s2 = st.slots.push((k, st.next as u32));
                    assert forall|i: int| 0 <= i < st.slots.len() implies #[trigger] st.slots[i] == s2[i] by {}
                }
            },
            None => {},
        }
    } else {
        match v {
            ValueView::Tuple(xs) => lemma_rebuilt_seq_extends(xs, keys, st),
            ValueView::List(xs) => lemma_rebuilt_seq_extends(xs, keys, st),
            ValueView::Dict(e) => lemma_rebuilt_pairs_extends(e, keys, st, true),
            ValueView::Instance { class, state } => {
                let st1 = rebuilt(*class, keys, st).0;
                lemma_rebuilt_extends(*class, keys, st);
                lemma_rebuilt_extends(*state, keys, st1);
                lemma_extends_trans(st.slots, st1.slots, rebuilt(*state, keys, st1).0.slots);
            },
            ValueView::Reduce { ctor, items, pairs } => {
                let st1 = rebuilt(*ctor, keys, st).0;
                let st2 = rebuilt_seq(items, keys, st1).0;
                let st3 = rebuilt_pairs(pairs, keys, st2, false).0;
                lemma_rebuilt_extends(*ctor, keys, st);
                lemma_rebuilt_seq_extends(items, keys, st1);
                lemma_rebuilt_pairs_extends(pairs, keys, st2, false);
                lemma_extends_trans(st.slots, st1.slots, st2.slots);
                lemma_extends_trans(st.slots, st2.slots, st3.slots);
            },
            _ => {},
        }
    }
}

proof fn lemma_rebuilt_seq_extends(s: Seq<ValueView>, keys: Seq<Seq<u8>>, st: ShareState)
    ensures
        extends(st.slots, rebuilt_seq(s, keys, st).0.slots),
    decreases s, 0nat,
{
    if s.len() > 0 {
        let init = s.subrange(0, s.len() - 1);
        let st1 = rebuilt_seq(init, keys, st).0;
        lemma_rebuilt_seq_extends(init, keys, st);
        lemma_rebuilt_extends(s[s.len() - 1], keys, st1);
        lemma_extends_trans(st.slots, st1.slots, rebuilt(s[s.len() - 1], keys, st1).0.slots);
    }
}

proof fn lemma_rebuilt_pairs_extends(
    s: Seq<(ValueView, ValueView)>,
    keys: Seq<Seq<u8>>,
    st: ShareState,
    value_first: bool,
)
    ensures
        extends(st.slots, rebuilt_pairs(s, keys, st, value_first).0.slots),
    decreases s, 0nat,
{
    if s.len() > 0 {
        let init = s.subrange(0, s.len() - 1);
        let st1 = rebuilt_pairs(init, keys, st, value_first).0;
        lemma_rebuilt_pairs_extends(init, keys, st, value_first);
        let (k, v) = s[s.len() - 1];
        let (first, second) = if value_first { (v, k) } else { (k, v) };
        let st2 = rebuilt(first, keys, st1).0;
        let st3 = rebuilt(second, keys, st2).0;
        lemma_rebuilt_extends(first, keys, st1);
        lemma_rebuilt_extends(second, keys, st2);
        lemma_extends_trans(st.slots, st1.slots, st2.slots);
        lemma_extends_trans(st.slots, st2.slots, st3.slots);
    }
}

/// Where `slot_of` found its answer.
proof fn lemma_slot_of_index(s: Seq<(Seq<u8>, u32)>, k: Seq<u8>) -> (i: int)
    requires
        slot_of(s, k) is Some,
    ensures
        0 <= i < s.len(),
        s[i] == (k, slot_of(s, k)->Some_0),
    decreases s.len(),
{
    if s.last().0 == k {
        s.len() - 1
    } else {
        let i = lemma_slot_of_index(s.drop_last(), k);
        assert(s.drop_last()[i] == s[i]);
        i
    }
}

// ---------------------------------------------------------------------------
// The stores a rebuild writes.
// ---------------------------------------------------------------------------

/// Slot `j + 1` is the `j`-th slot given out, and the next one is one past
/// the last.
pub open spec fn numbered(st: ShareState) -> bool {
    &&& st.next == st.slots.len() + 1
    &&& forall|j: int| 0 <= j < st.slots.len() ==> #[trigger] st.slots[j].1 == j + 1
}

/// Every store of `t` has a slot in `(from, to]`, holds a sharing-free
/// shareable node, and that node's key is the one the slot was given for.
pub open spec fn stores_in(t: Seq<(u32, ValueView)>, slots: Seq<(Seq<u8>, u32)>, from: int, to: int) -> bool {
    forall|a: int|
        #![trigger t[a]]
        0 <= a < t.len() ==> {
            &&& from < t[a].0 <= to
            &&& t[a].0 <= slots.len()
            &&& share_key(t[a].1) == Some(slots[t[a].0 - 1].0)
            &&& plain(t[a].1)
            &&& shareable(t[a].1)
        }
}

/// Some store of `t` uses slot `s`.
pub open spec fn has_slot(t: Seq<(u32, ValueView)>, s: int) -> bool {
    exists|a: int| 0 <= a < t.len() && t[a].0 == s
}

/// Every slot in `(from, to]` has a store in `t`.
pub open spec fn stored_all(t: Seq<(u32, ValueView)>, from: int, to: int) -> bool {
    forall|s: int| from < s <= to ==> #[trigger] has_slot(t, s)
}

/// No two stores of `t` use the same slot.
pub open spec fn distinct(t: Seq<(u32, ValueView)>) -> bool {
    forall|a: int, b: int| 0 <= a < b < t.len() ==> #[trigger] t[a].0 != #[trigger] t[b].0
}

/// With distinct slots, the table gives each slot the one store using it.
proof fn lemma_table_get_distinct(t: Seq<(u32, ValueView)>, a: int)
    requires
        0 <= a < t.len(),
        distinct(t),
    ensures
        table_get(t, t[a].0) == Some(t[a].1),
    decreases t.len(),
{
    if a < t.len() - 1 {
        assert(t[a].0 != t[t.len() - 1].0);
        let d = t.drop_last();
        assert(d[a] == t[a]);
        assert(distinct(d)) by {
            assert forall|x: int, y: int| 0 <= x < y < d.len() implies #[trigger] d[x].0 != #[trigger] d[y].0 by {
                assert(d[x] == t[x] && d[y] == t[y]);
            }
        }
        lemma_table_get_distinct(d, a);
    }
}

/// Stores described against some slots are described the same way against
/// any extension of them.
proof fn lemma_stores_lift(t: Seq<(u32, ValueView)>, s1: Seq<(Seq<u8>, u32)>, s2: Seq<(Seq<u8>, u32)>, from: int, to: int)
    requires
        stores_in(t, s1, from, to),
        extends(s1, s2),
        0 <= from,
    ensures
        stores_in(t, s2, from, to),
{
    assert forall|a: int| #![trigger t[a]] 0 <= a < t.len() implies {
        &&& from < t[a].0 <= to
        &&& t[a].0 <= s2.len()
        &&& share_key(t[a].1) == Some(s2[t[a].0 - 1].0)
        &&& plain(t[a].1)
        &&& shareable(t[a].1)
    } by {
        let i = t[a].0 - 1;
        assert(0 <= i < s1.len());
        assert(s1[i] == s2[i]);
    }
}

/// Two store lists over adjacent slot ranges join into one over their union.
proof fn lemma_join(
    a: Seq<(u32, ValueView)>,
    b: Seq<(u32, ValueView)>,
    slots: Seq<(Seq<u8>, u32)>,
    fa: int,
    ta: int,
    fb: int,
    tb: int,
)
    requires
        stores_in(a, slots, fa, ta),
        stored_all(a, fa, ta),
        distinct(a),
        stores_in(b, slots, fb, tb),
        stored_all(b, fb, tb),
        distinct(b),
        fa <= ta,
        fb <= tb,
        ta == fb || tb == fa,
    ensures
        ta == fb ==> stores_in(a + b, slots, fa, tb) && stored_all(a + b, fa, tb),
        tb == fa ==> stores_in(a + b, slots, fb, ta) && stored_all(a + b, fb, ta),
        distinct(a + b),
{
    let c = a + b;
    let lo = if ta == fb { fa } else { fb };
    let hi = if ta == fb { tb } else { ta };
    assert forall|i: int| 0 <= i < c.len() implies (i < a.len() ==> c[i] == a[i]) && (i >= a.len() ==> c[i] == b[i - a.len()]) by {}
    assert(stores_in(c, slots, lo, hi)) by {
        assert forall|i: int| #![trigger c[i]] 0 <= i < c.len() implies {
            &&& lo < c[i].0 <= hi
            &&& c[i].0 <= slots.len()
            &&& share_key(c[i].1) == Some(slots[c[i].0 - 1].0)
            &&& plain(c[i].1)
            &&& shareable(c[i].1)
        } by {
            if i < a.len() {
                assert(c[i] == a[i]);
            } else {
                assert(c[i] == b[i - a.len()]);
            }
        }
    }
    assert(stored_all(c, lo, hi)) by {
        assert forall|s: int| lo < s <= hi implies #[trigger] has_slot(c, s) by {
            if fa < s <= ta {
                assert(has_slot(a, s));
                let w = choose|w: int| 0 <= w < a.len() && a[w].0 == s;
                assert(c[w] == a[w]);
            } else {
                assert(fb < s <= tb);
                assert(has_slot(b, s));
                let w = choose|w: int| 0 <= w < b.len() && b[w].0 == s;
                assert(c[w + a.len()] == b[w]);
            }
        }
    }
    assert forall|x: int, y: int| 0 <= x < y < c.len() implies #[trigger] c[x].0 != #[trigger] c[y].0 by {
        if y < a.len() {
            assert(c[x] == a[x] && c[y] == a[y]);
        } else if x >= a.len() {
            assert(c[x] == b[x - a.len()] && c[y] == b[y - a.len()]);
        } else {
            assert(c[x] == a[x] && c[y] == b[y - a.len()]);
        }
    }
}

/// `t` is exactly the stores written for the slots in `(from, to]`.
pub open spec fn written(t: Seq<(u32, ValueView)>, slots: Seq<(Seq<u8>, u32)>, from: int, to: int) -> bool {
    &&& stores_in(t, slots, from, to)
    &&& stored_all(t, from, to)
    &&& distinct(t)
}

/// What a rebuild stores: one store per slot it hands out, each holding the
/// node the slot's key encodes.
#[verifier::spinoff_prover]
#[verifier::rlimit(40)]
proof fn lemma_rebuilt_stores(v: ValueView, keys: Seq<Seq<u8>>, st: ShareState)
    requires
        plain(v),
        numbered(st),
        rebuilt(v, keys, st).0.next <= u32::MAX + 1,
    ensures
        numbered(rebuilt(v, keys, st).0),
        written(
            collect(rebuilt(v, keys, st).1),
            rebuilt(v, keys, st).0.slots,
            st.slots.len() as int,
            rebuilt(v, keys, st).0.slots.len() as int,
        ),
    decreases v, 1nat,
{
    let (st2, y) = rebuilt(v, keys, st);
    let l = st.slots.len() as int;
    if shareable(v) {
        lemma_plain_collect(v);
        match share_key(v) {
            Some(k) => {
                if crate::reshare::occurrences(keys, k) >= 2 && slot_of(st.slots, k) is None {
                    assert(st2.slots[l] == (k, st.next as u32));
                    assert(numbered(st2)) by {
                        assert forall|j: int| 0 <= j < st2.slots.len() implies #[trigger] st2.slots[j].1 == j + 1 by {
                            if j < l {
                                assert(st2.slots[j] == st.slots[j]);
                            }
                        }
                    }
                    assert(collect(y) =~= seq![(st.next as u32, v)]);
                    assert(has_slot(collect(y), l + 1)) by {
                        assert(collect(y)[0].0 == l + 1);
                    }
                }
            },
            None => {},
        }
    } else {
        match v {
            ValueView::Tuple(xs) => lemma_rebuilt_seq_stores(xs, keys, st),
            ValueView::List(xs) => lemma_rebuilt_seq_stores(xs, keys, st),
            ValueView::Dict(e) => lemma_rebuilt_pairs_stores(e, keys, st, true),
            ValueView::Stream(_) => lemma_plain_collect(v),
            ValueView::Instance { class, state } => {
                let (st1, c) = rebuilt(*class, keys, st);
                let (st3, z) = rebuilt(*state, keys, st1);
                lemma_rebuilt_next(*state, keys, st1);
                lemma_rebuilt_stores(*class, keys, st);
                lemma_rebuilt_stores(*state, keys, st1);
                lemma_rebuilt_extends(*class, keys, st);
                lemma_rebuilt_extends(*state, keys, st1);
                let l1 = st1.slots.len() as int;
                let l2 = st3.slots.len() as int;
                lemma_stores_lift(collect(c), st1.slots, st3.slots, l, l1);
                lemma_join(collect(c), collect(z), st3.slots, l, l1, l1, l2);
            },
            ValueView::Reduce { ctor, items, pairs } => {
                let (st1, c) = rebuilt(*ctor, keys, st);
                let (st3, i) = rebuilt_seq(items, keys, st1);
                let (st4, p) = rebuilt_pairs(pairs, keys, st3, false);
                lemma_rebuilt_seq_next(items, keys, st1);
                lemma_rebuilt_pairs_next(pairs, keys, st3, false);
                lemma_rebuilt_stores(*ctor, keys, st);
                lemma_rebuilt_seq_stores(items, keys, st1);
                lemma_rebuilt_pairs_stores(pairs, keys, st3, false);
                lemma_rebuilt_extends(*ctor, keys, st);
                lemma_rebuilt_seq_extends(items, keys, st1);
                lemma_rebuilt_pairs_extends(pairs, keys, st3, false);
                lemma_extends_trans(st1.slots, st3.slots, st4.slots);
                let l1 = st1.slots.len() as int;
                let l2 = st3.slots.len() as int;
                let l3 = st4.slots.len() as int;
                lemma_stores_lift(collect(c), st1.slots, st4.slots, l, l1);
                lemma_stores_lift(collect_seq(i), st3.slots, st4.slots, l1, l2);
                lemma_join(collect(c), collect_seq(i), st4.slots, l, l1, l1, l2);
                lemma_join(collect(c) + collect_seq(i), collect_pairs(p), st4.slots, l, l2, l2, l3);
            },
            _ => {},
        }
    }
}

proof fn lemma_rebuilt_seq_stores(s: Seq<ValueView>, keys: Seq<Seq<u8>>, st: ShareState)
    requires
        plain_seq(s),
        numbered(st),
        rebuilt_seq(s, keys, st).0.next <= u32::MAX + 1,
    ensures
        numbered(rebuilt_seq(s, keys, st).0),
        written(
            collect_seq(rebuilt_seq(s, keys, st).1),
            rebuilt_seq(s, keys, st).0.slots,
            st.slots.len() as int,
            rebuilt_seq(s, keys, st).0.slots.len() as int,
        ),
    decreases s, 0nat,
{
    if s.len() > 0 {
        let init = s.subrange(0, s.len() - 1);
        let last = s[s.len() - 1];
        let (st1, a) = rebuilt_seq(init, keys, st);
        let (st2, x) = rebuilt(last, keys, st1);
        assert(plain_seq(init)) by {
            assert forall|i: int| 0 <= i < init.len() implies plain(#[trigger] init[i]) by {
                assert(init[i] == s[i]);
            }
        }
        assert(plain(last));
        lemma_rebuilt_next(last, keys, st1);
        lemma_rebuilt_seq_stores(init, keys, st);
        lemma_rebuilt_stores(last, keys, st1);
        lemma_rebuilt_seq_extends(init, keys, st);
        lemma_rebuilt_extends(last, keys, st1);
        let l = st.slots.len() as int;
        let l1 = st1.slots.len() as int;
        let l2 = st2.slots.len() as int;
        lemma_stores_lift(collect_seq(a), st1.slots, st2.slots, l, l1);
        lemma_join(collect_seq(a), collect(x), st2.slots, l, l1, l1, l2);
        assert(a.push(x).subrange(0, a.len() as int) =~= a);
    }
}

proof fn lemma_rebuilt_pairs_stores(
    s: Seq<(ValueView, ValueView)>,
    keys: Seq<Seq<u8>>,
    st: ShareState,
    value_first: bool,
)
    requires
        plain_pairs(s),
        numbered(st),
        rebuilt_pairs(s, keys, st, value_first).0.next <= u32::MAX + 1,
    ensures
        numbered(rebuilt_pairs(s, keys, st, value_first).0),
        written(
            collect_pairs(rebuilt_pairs(s, keys, st, value_first).1),
            rebuilt_pairs(s, keys, st, value_first).0.slots,
            st.slots.len() as int,
            rebuilt_pairs(s, keys, st, value_first).0.slots.len() as int,
        ),
    decreases s, 0nat,
{
    if s.len() > 0 {
        let init = s.subrange(0, s.len() - 1);
        let (k, v) = s[s.len() - 1];
        let (st1, a) = rebuilt_pairs(init, keys, st, value_first);
        assert(plain_pairs(init)) by {
            assert forall|i: int| 0 <= i < init.len() implies plain((#[trigger] init[i]).0) && plain(
                init[i].1,
            ) by {
                assert(init[i] == s[i]);
            }
        }
        assert(plain(k) && plain(v));
        let (first, second) = if value_first { (v, k) } else { (k, v) };
        let (st2, f) = rebuilt(first, keys, st1);
        let (st3, g) = rebuilt(second, keys, st2);
        lemma_rebuilt_next(first, keys, st1);
        lemma_rebuilt_next(second, keys, st2);
        assert(rebuilt_pairs(s, keys, st, value_first).0 == st3);
        lemma_rebuilt_pairs_stores(init, keys, st, value_first);
        lemma_rebuilt_pairs_extends(init, keys, st, value_first);
        lemma_rebuilt_stores(first, keys, st1);
        lemma_rebuilt_stores(second, keys, st2);
        lemma_rebuilt_extends(first, keys, st1);
        lemma_rebuilt_extends(second, keys, st2);
        lemma_extends_trans(st1.slots, st2.slots, st3.slots);
        let l = st.slots.len() as int;
        let l1 = st1.slots.len() as int;
        let l2 = st2.slots.len() as int;
        let l3 = st3.slots.len() as int;
        let ca = collect_pairs(a);
        lemma_stores_lift(ca, st1.slots, st3.slots, l, l1);
        lemma_stores_lift(collect(f), st2.slots, st3.slots, l1, l2);
        if value_first {
            // the key was rebuilt second, after the value
            lemma_join(collect(g), collect(f), st3.slots, l2, l3, l1, l2);
            lemma_join(ca, collect(g) + collect(f), st3.slots, l, l1, l1, l3);
            assert(a.push((g, f)).subrange(0, a.len() as int) =~= a);
            assert(ca + collect(g) + collect(f) =~= ca + (collect(g) + collect(f)));
        } else {
            lemma_join(ca, collect(f), st3.slots, l, l1, l1, l2);
            lemma_join(ca + collect(f), collect(g), st3.slots, l, l2, l2, l3);
            assert(a.push((f, g)).subrange(0, a.len() as int) =~= a);
        }
    }
}

// ---------------------------------------------------------------------------
// Resolving a rebuilt tree.
// ---------------------------------------------------------------------------

/// For every slot given out, `t` holds a sharing-free node carrying the
/// slot's key.
pub open spec fn realizes(t: Seq<(u32, ValueView)>, fin: Seq<(Seq<u8>, u32)>) -> bool {
    forall|j: int|
        #![trigger fin[j]]
        0 <= j < fin.len() ==> {
            &&& table_get(t, fin[j].1) is Some
            &&& share_key(table_get(t, fin[j].1)->Some_0) == Some(fin[j].0)
            &&& plain(table_get(t, fin[j].1)->Some_0)
        }
}

/// Resolving a rebuilt node against a table that realizes its slots gives
/// back the node it was rebuilt from.
#[verifier::spinoff_prover]
#[verifier::rlimit(40)]
proof fn lemma_rebuilt_resolves(
    v: ValueView,
    keys: Seq<Seq<u8>>,
    st: ShareState,
    fin: Seq<(Seq<u8>, u32)>,
    t: Seq<(u32, ValueView)>,
    fuel: nat,
)
    requires
        plain(v),
        extends(rebuilt(v, keys, st).0.slots, fin),
        realizes(t, fin),
        fin.len() > 0 ==> fuel >= 1,
    ensures
        resolved(rebuilt(v, keys, st).1, t, fuel) == Some(v),
    decreases v, 1nat,
{
    if shareable(v) {
        lemma_plain_resolved(v, t, fuel);
        match share_key(v) {
            Some(k) => {
                if crate::reshare::occurrences(keys, k) >= 2 && slot_of(st.slots, k) is Some {
                    let slot = slot_of(st.slots, k)->Some_0;
                    let i = lemma_slot_of_index(st.slots, k);
                    assert(st.slots[i] == fin[i]);
                    let z = table_get(t, slot)->Some_0;
                    lemma_key_injective(v, z);
                    lemma_plain_resolved(z, t, (fuel - 1) as nat);
                }
            },
            None => {},
        }
    } else {
        match v {
            ValueView::Tuple(xs) => lemma_rebuilt_seq_resolves(xs, keys, st, fin, t, fuel),
            ValueView::List(xs) => lemma_rebuilt_seq_resolves(xs, keys, st, fin, t, fuel),
            ValueView::Dict(e) => lemma_rebuilt_pairs_resolves(e, keys, st, true, fin, t, fuel),
            ValueView::Instance { class, state } => {
                let st1 = rebuilt(*class, keys, st).0;
                lemma_rebuilt_extends(*state, keys, st1);
                lemma_extends_trans(st1.slots, rebuilt(*state, keys, st1).0.slots, fin);
                lemma_rebuilt_resolves(*class, keys, st, fin, t, fuel);
                lemma_rebuilt_resolves(*state, keys, st1, fin, t, fuel);
            },
            ValueView::Reduce { ctor, items, pairs } => {
                let st1 = rebuilt(*ctor, keys, st).0;
                let st2 = rebuilt_seq(items, keys, st1).0;
                let st3 = rebuilt_pairs(pairs, keys, st2, false).0;
                lemma_rebuilt_pairs_extends(pairs, keys, st2, false);
                lemma_extends_trans(st2.slots, st3.slots, fin);
                lemma_rebuilt_seq_extends(items, keys, st1);
                lemma_extends_trans(st1.slots, st2.slots, fin);
                lemma_rebuilt_resolves(*ctor, keys, st, fin, t, fuel);
                lemma_rebuilt_seq_resolves(items, keys, st1, fin, t, fuel);
                lemma_rebuilt_pairs_resolves(pairs, keys, st2, false, fin, t, fuel);
            },
            _ => lemma_plain_resolved(v, t, fuel),
        }
    }
}

proof fn lemma_rebuilt_seq_resolves(
    s: Seq<ValueView>,
    keys: Seq<Seq<u8>>,
    st: ShareState,
    fin: Seq<(Seq<u8>, u32)>,
    t: Seq<(u32, ValueView)>,
    fuel: nat,
)
    requires
        plain_seq(s),
        extends(rebuilt_seq(s, keys, st).0.slots, fin),
        realizes(t, fin),
        fin.len() > 0 ==> fuel >= 1,
    ensures
        resolved_seq(rebuilt_seq(s, keys, st).1, t, fuel) == Some(s),
    decreases s, 0nat,
{
    if s.len() > 0 {
        let init = s.subrange(0, s.len() - 1);
        let last = s[s.len() - 1];
        let (st1, a) = rebuilt_seq(init, keys, st);
        let (st2, x) = rebuilt(last, keys, st1);
        assert(plain_seq(init)) by {
            assert forall|i: int| 0 <= i < init.len() implies plain(#[trigger] init[i]) by {
                assert(init[i] == s[i]);
            }
        }
        assert(plain(last));
        lemma_rebuilt_extends(last, keys, st1);
        lemma_extends_trans(st1.slots, st2.slots, fin);
        lemma_rebuilt_seq_resolves(init, keys, st, fin, t, fuel);
        lemma_rebuilt_resolves(last, keys, st1, fin, t, fuel);
        assert(a.push(x).subrange(0, a.len() as int) =~= a);
        assert(init.push(last) =~= s);
    }
}

proof fn lemma_rebuilt_pairs_resolves(
    s: Seq<(ValueView, ValueView)>,
    keys: Seq<Seq<u8>>,
    st: ShareState,
    value_first: bool,
    fin: Seq<(Seq<u8>, u32)>,
    t: Seq<(u32, ValueView)>,
    fuel: nat,
)
    requires
        plain_pairs(s),
        extends(rebuilt_pairs(s, keys, st, value_first).0.slots, fin),
        realizes(t, fin),
        fin.len() > 0 ==> fuel >= 1,
    ensures
        resolved_pairs(rebuilt_pairs(s, keys, st, value_first).1, t, fuel) == Some(s),
    decreases s, 0nat,
{
    if s.len() > 0 {
        let init = s.subrange(0, s.len() - 1);
        let (k, v) = s[s.len() - 1];
        let (st1, a) = rebuilt_pairs(init, keys, st, value_first);
        assert(plain_pairs(init)) by {
            assert forall|i: int| 0 <= i < init.len() implies plain((#[trigger] init[i]).0) && plain(
                init[i].1,
            ) by {
                assert(init[i] == s[i]);
            }
        }
        assert(plain(k) && plain(v));
        let (first, second) = if value_first { (v, k) } else { (k, v) };
        let (st2, f) = rebuilt(first, keys, st1);
        let (st3, g) = rebuilt(second, keys, st2);
        assert(rebuilt_pairs(s, keys, st, value_first).0 == st3);
        lemma_rebuilt_extends(first, keys, st1);
        lemma_rebuilt_extends(second, keys, st2);
        lemma_extends_trans(st2.slots, st3.slots, fin);
        lemma_extends_trans(st1.slots, st2.slots, fin);
        lemma_rebuilt_pairs_resolves(init, keys, st, value_first, fin, t, fuel);
        lemma_rebuilt_resolves(first, keys, st1, fin, t, fuel);
        lemma_rebuilt_resolves(second, keys, st2, fin, t, fuel);
        if value_first {
            assert(a.push((g, f)).subrange(0, a.len() as int) =~= a);
        } else {
            assert(a.push((f, g)).subrange(0, a.len() as int) =~= a);
        }
        assert(init.push((k, v)) =~= s);
    }
}

/// The stores of the rebuilt tree realize every slot it hands out.
proof fn lemma_reshare_table(w: ValueView)
    requires
        plain(w),
        tally(w).len() < u32::MAX,
    ensures
        ({
            let (fin, r) = rebuilt(w, tally(w), ShareState { slots: Seq::empty(), next: 1 });
            &&& realizes(collect(r), fin.slots)
            &&& fin.slots.len() > 0 ==> collect(r).len() >= 1
            &&& written(collect(r), fin.slots, 0, fin.slots.len() as int)
        }),
{
    let st0 = ShareState { slots: Seq::empty(), next: 1 };
    let (fin, r) = rebuilt(w, tally(w), st0);
    lemma_rebuilt_next(w, tally(w), st0);
    lemma_rebuilt_stores(w, tally(w), st0);
    let t = collect(r);
    assert forall|j: int| #![trigger fin.slots[j]] 0 <= j < fin.slots.len() implies {
        &&& table_get(t, fin.slots[j].1) is Some
        &&& share_key(table_get(t, fin.slots[j].1)->Some_0) == Some(fin.slots[j].0)
        &&& plain(table_get(t, fin.slots[j].1)->Some_0)
    } by {
        assert(fin.slots[j].1 == j + 1);
        assert(has_slot(t, j + 1));
        let a = choose|a: int| 0 <= a < t.len() && t[a].0 == j + 1;
        lemma_table_get_distinct(t, a);
    }
    if fin.slots.len() > 0 {
        assert(has_slot(t, 1));
    }
}

// ---------------------------------------------------------------------------
// The laws.
// ---------------------------------------------------------------------------

/// Resharing changes how a tree is stored, never what it holds: for a tree
/// whose references all name stored slots (so that inlining leaves none
/// behind), inlining its reshared copy gives the same value as inlining the
/// tree itself.
pub proof fn lemma_reshare_preserves_value(v: ValueView)
    requires
        spec_inline(v) is Some,
        plain(spec_inline(v)->Some_0),
        tally(spec_inline(v)->Some_0).len() < u32::MAX,
    ensures
        spec_reshare(v) is Some,
        spec_inline(spec_reshare(v)->Some_0) == spec_inline(v),
{
    let w = spec_inline(v)->Some_0;
    let st0 = ShareState { slots: Seq::empty(), next: 1 };
    let (fin, r) = rebuilt(w, tally(w), st0);
    lemma_reshare_table(w);
    let t = collect(r);
    assert(extends(fin.slots, fin.slots));
    lemma_rebuilt_resolves(w, tally(w), st0, fin.slots, t, t.len());
}

/// Resharing is idempotent: resharing an already reshared tree gives the
/// same tree back.
pub proof fn lemma_reshare_idempotent(v: ValueView)
    requires
        spec_inline(v) is Some,
        plain(spec_inline(v)->Some_0),
        tally(spec_inline(v)->Some_0).len() < u32::MAX,
    ensures
        spec_reshare(v) is Some,
        spec_reshare(spec_reshare(v)->Some_0) == spec_reshare(v),
{
    lemma_reshare_preserves_value(v);
}

/// Only immutable values are shared: every store in a reshared tree holds a
/// shareable node (byte strings of two or more bytes, longs, globals and
/// non-empty tuples of immutable values), never a list, dict or other
/// container the client could mutate in place.
pub proof fn lemma_reshare_stores_immutable(v: ValueView)
    requires
        spec_inline(v) is Some,
        plain(spec_inline(v)->Some_0),
        tally(spec_inline(v)->Some_0).len() < u32::MAX,
    ensures
        spec_reshare(v) is Some,
        forall|a: int|
            0 <= a < collect(spec_reshare(v)->Some_0).len() ==> shareable(
                #[trigger] collect(spec_reshare(v)->Some_0)[a].1,
            ),
{
    lemma_reshare_table(spec_inline(v)->Some_0);
}

// ---------------------------------------------------------------------------
// A reshared tree encodes.
// ---------------------------------------------------------------------------

/// Encoding a sharing-free node neither reads nor changes the encoder's
/// slot state.
proof fn lemma_plain_enc(v: ValueView, s1: EncState, s2: EncState, d: nat)
    requires
        plain(v),
    ensures
        (enc(v, s1, d) is Ok) == (enc(v, s2, d) is Ok),
        enc(v, s1, d) is Ok ==> enc_st(enc(v, s1, d)) == s1,
    decreases v, 1nat,
{
    if d < MAX_DEPTH {
        lemma_plain_enc_body(v, s1, s2, d + 1, false);
    }
}

proof fn lemma_plain_enc_body(v: ValueView, s1: EncState, s2: EncState, d: nat, shared: bool)
    requires
        plain(v),
    ensures
        (enc_body(v, s1, d, shared) is Ok) == (enc_body(v, s2, d, shared) is Ok),
        enc_body(v, s1, d, shared) is Ok ==> enc_st(enc_body(v, s1, d, shared)) == s1,
    decreases v, 0nat,
{
    if !(shared && !storable(v)) {
        match v {
            ValueView::Tuple(xs) => lemma_plain_enc_seq(xs, s1, s2, d),
            ValueView::List(xs) => lemma_plain_enc_seq(xs, s1, s2, d),
            ValueView::Dict(e) => lemma_plain_enc_pairs(e, s1, s2, d, true),
            ValueView::Instance { class, state } => {
                lemma_plain_enc(*class, s1, s2, d);
                if enc(*class, s1, d) is Ok {
                    lemma_plain_enc(*class, s2, s1, d);
                    lemma_plain_enc(*state, s1, s2, d);
                }
            },
            ValueView::Reduce { ctor, items, pairs } => {
                lemma_plain_enc(*ctor, s1, s2, d);
                if enc(*ctor, s1, d) is Ok {
                    lemma_plain_enc(*ctor, s2, s1, d);
                    lemma_plain_enc_seq(items, s1, s2, d);
                    if enc_seq(items, s1, d) is Ok {
                        lemma_plain_enc_seq(items, s2, s1, d);
                        lemma_plain_enc_pairs(pairs, s1, s2, d, false);
                    }
                }
            },
            _ => {},
        }
    }
}

proof fn lemma_plain_enc_seq(s: Seq<ValueView>, s1: EncState, s2: EncState, d: nat)
    requires
        plain_seq(s),
    ensures
        (enc_seq(s, s1, d) is Ok) == (enc_seq(s, s2, d) is Ok),
        enc_seq(s, s1, d) is Ok ==> enc_st(enc_seq(s, s1, d)) == s1,
    decreases s, 0nat,
{
    if s.len() > 0 {
        let init = s.subrange(0, s.len() - 1);
        assert(plain_seq(init)) by {
            assert forall|i: int| 0 <= i < init.len() implies plain(#[trigger] init[i]) by {
                assert(init[i] == s[i]);
            }
        }
        assert(plain(s[s.len() - 1]));
        lemma_plain_enc_seq(init, s1, s2, d);
        if enc_seq(init, s1, d) is Ok {
            lemma_plain_enc_seq(init, s2, s1, d);
            lemma_plain_enc(s[s.len() - 1], s1, s2, d);
        }
    }
}

proof fn lemma_plain_enc_pairs(s: Seq<(ValueView, ValueView)>, s1: EncState, s2: EncState, d: nat, value_first: bool)
    requires
        plain_pairs(s),
    ensures
        (enc_pairs(s, s1, d, value_first) is Ok) == (enc_pairs(s, s2, d, value_first) is Ok),
        enc_pairs(s, s1, d, value_first) is Ok ==> enc_st(enc_pairs(s, s1, d, value_first)) == s1,
    decreases s, 0nat,
{
    if s.len() > 0 {
        let init = s.subrange(0, s.len() - 1);
        assert(plain_pairs(init)) by {
            assert forall|i: int| 0 <= i < init.len() implies plain((#[trigger] init[i]).0) && plain(init[i].1) by {
                assert(init[i] == s[i]);
            }
        }
        let (k, v) = s[s.len() - 1];
        assert(plain(k) && plain(v));
        lemma_plain_enc_pairs(init, s1, s2, d, value_first);
        if enc_pairs(init, s1, d, value_first) is Ok {
            lemma_plain_enc_pairs(init, s2, s1, d, value_first);
            let (first, second) = if value_first { (v, k) } else { (k, v) };
            lemma_plain_enc(first, s1, s2, d);
            if enc(first, s1, d) is Ok {
                lemma_plain_enc(first, s2, s1, d);
                lemma_plain_enc(second, s1, s2, d);
            }
        }
    }
}

/// A shareable node's store encodes exactly when its bare form does.
proof fn lemma_store_enc(v: ValueView, s1: EncState, s2: EncState, d: nat)
    requires
        plain(v),
        shareable(v),
    ensures
        (enc_body(v, s1, d, true) is Ok) == (enc_body(v, s2, d, false) is Ok),
        enc_body(v, s1, d, true) is Ok ==> enc_st(enc_body(v, s1, d, true)) == s1,
{
    lemma_plain_enc_body(v, s1, s1, d, true);
    if let ValueView::Tuple(xs) = v {
        lemma_plain_enc_seq(xs, s1, s2, d);
    }
}

/// The encoder state a resharing state predicts: slots 1, 2, ... claimed in
/// that order, and every slot handed out already stored.
pub open spec fn enc_follows(est: EncState, sst: ShareState) -> bool {
    &&& numbered(sst)
    &&& est.map.len() == sst.slots.len()
    &&& forall|i: int| 0 <= i < est.map.len() ==> #[trigger] est.map[i] == i + 1
    &&& forall|x: u32| 1 <= x < sst.next ==> #[trigger] est.stored.contains(x)
}

/// What a rebuilt node must show: it encodes, and the encoder ends in the
/// state the resharing state predicts.
pub open spec fn rebuilt_encodes(v: ValueView, keys: Seq<Seq<u8>>, sst: ShareState, est: EncState, d: nat) -> bool {
    &&& enc(rebuilt(v, keys, sst).1, est, d) is Ok
    &&& enc_follows(enc_st(enc(rebuilt(v, keys, sst).1, est, d)), rebuilt(v, keys, sst).0)
}

/// A shareable node becomes a store, a reference or itself.
#[verifier::spinoff_prover]
proof fn lemma_rebuilt_enc_unit(v: ValueView, keys: Seq<Seq<u8>>, sst: ShareState, est: EncState, d: nat)
    requires
        plain(v),
        shareable(v),
        enc_follows(est, sst),
        enc(v, est, d) is Ok,
        sst.next + tally(v).len() <= i32::MAX,
    ensures
        rebuilt_encodes(v, keys, sst, est, d),
{
    let (st2, y) = rebuilt(v, keys, sst);
    lemma_plain_enc(v, est, est, d);
    assert(d < MAX_DEPTH);
    match share_key(v) {
        Some(k) => {
            if crate::reshare::occurrences(keys, k) >= 2 {
                match slot_of(sst.slots, k) {
                    Some(slot) => {
                        let i = lemma_slot_of_index(sst.slots, k);
                        assert(sst.slots[i].1 == slot);
                        assert(slot == i + 1);
                        assert(est.stored.contains(slot));
                        assert(y == ValueView::Ref(slot));
                    },
                    None => {
                        assert(tally(v).len() == 1);
                        let st1 = EncState { map: est.map.push(sst.next as u32), stored: est.stored };
                        lemma_store_enc(v, st1, est, d + 1);
                        let e3 = enc_st(enc(y, est, d));
                        assert(e3 == EncState { map: st1.map, stored: st1.stored.insert(sst.next as u32) });
                        assert(numbered(st2)) by {
                            assert forall|j: int| 0 <= j < st2.slots.len() implies #[trigger] st2.slots[j].1 == j + 1 by {
                                if j < sst.slots.len() {
                                    assert(st2.slots[j] == sst.slots[j]);
                                }
                            }
                        }
                        assert forall|i: int| 0 <= i < e3.map.len() implies #[trigger] e3.map[i] == i + 1 by {
                            if i < est.map.len() {
                                assert(e3.map[i] == est.map[i]);
                            }
                        }
                        assert forall|x: u32| 1 <= x < st2.next implies #[trigger] e3.stored.contains(x) by {
                            if x < sst.next {
                                assert(est.stored.contains(x));
                            }
                        }
                    },
                }
            }
        },
        None => {},
    }
}

proof fn lemma_rebuilt_enc_instance(v: ValueView, keys: Seq<Seq<u8>>, sst: ShareState, est: EncState, d: nat)
    requires
        plain(v),
        v is Instance,
        !shareable(v),
        enc_follows(est, sst),
        d < MAX_DEPTH,
        enc_body(v, est, d + 1, false) is Ok,
        sst.next + tally(v).len() <= i32::MAX,
    ensures
        rebuilt_encodes(v, keys, sst, est, d),
    decreases v, 0nat,
{
    let class = v->class;
    let state = v->state;
    let (st1, c) = rebuilt(*class, keys, sst);
    crate::reshare::lemma_rebuilt_next(*class, keys, sst);
    lemma_plain_enc(*class, est, est, d + 1);
    lemma_rebuilt_enc(*class, keys, sst, est, d + 1);
    let e1 = enc_st(enc(c, est, d + 1));
    lemma_plain_enc(*state, est, e1, d + 1);
    lemma_rebuilt_enc(*state, keys, st1, e1, d + 1);
}

proof fn lemma_rebuilt_enc_reduce(v: ValueView, keys: Seq<Seq<u8>>, sst: ShareState, est: EncState, d: nat)
    requires
        plain(v),
        v is Reduce,
        !shareable(v),
        enc_follows(est, sst),
        d < MAX_DEPTH,
        enc_body(v, est, d + 1, false) is Ok,
        sst.next + tally(v).len() <= i32::MAX,
    ensures
        rebuilt_encodes(v, keys, sst, est, d),
    decreases v, 0nat,
{
    let ctor = v->ctor;
    let items = v->items;
    let pairs = v->pairs;
    let (st1, c) = rebuilt(*ctor, keys, sst);
    crate::reshare::lemma_rebuilt_next(*ctor, keys, sst);
    lemma_plain_enc(*ctor, est, est, d + 1);
    lemma_rebuilt_enc(*ctor, keys, sst, est, d + 1);
    let e1 = enc_st(enc(c, est, d + 1));
    lemma_plain_enc_seq(items, est, e1, d + 1);
    lemma_plain_enc_seq(items, est, est, d + 1);
    let (st3, i) = rebuilt_seq(items, keys, st1);
    crate::reshare::lemma_rebuilt_seq_next(items, keys, st1);
    lemma_rebuilt_seq_enc(items, keys, st1, e1, d + 1);
    let e2 = enc_st(enc_seq(i, e1, d + 1));
    lemma_plain_enc_pairs(pairs, est, e2, d + 1, false);
    lemma_rebuilt_pairs_enc(pairs, keys, st3, e2, d + 1, false);
}

/// A rebuilt node encodes wherever the node encoded, and leaves the encoder
/// in the state the resharing state predicts.
#[verifier::spinoff_prover]
proof fn lemma_rebuilt_enc(v: ValueView, keys: Seq<Seq<u8>>, sst: ShareState, est: EncState, d: nat)
    requires
        plain(v),
        enc_follows(est, sst),
        enc(v, est, d) is Ok,
        sst.next + tally(v).len() <= i32::MAX,
    ensures
        rebuilt_encodes(v, keys, sst, est, d),
    decreases v, 1nat,
{
    lemma_plain_enc(v, est, est, d);
    assert(d < MAX_DEPTH);
    if shareable(v) {
        lemma_rebuilt_enc_unit(v, keys, sst, est, d);
    } else {
        match v {
            ValueView::Tuple(xs) => {
                lemma_rebuilt_seq_enc(xs, keys, sst, est, d + 1);
            },
            ValueView::List(xs) => {
                lemma_rebuilt_seq_enc(xs, keys, sst, est, d + 1);
            },
            ValueView::Dict(e) => {
                lemma_rebuilt_pairs_enc(e, keys, sst, est, d + 1, true);
            },
            ValueView::Instance { .. } => lemma_rebuilt_enc_instance(v, keys, sst, est, d),
            ValueView::Reduce { .. } => lemma_rebuilt_enc_reduce(v, keys, sst, est, d),
            _ => {},
        }
    }
}

proof fn lemma_rebuilt_seq_enc(s: Seq<ValueView>, keys: Seq<Seq<u8>>, sst: ShareState, est: EncState, d: nat)
    requires
        plain_seq(s),
        enc_follows(est, sst),
        enc_seq(s, est, d) is Ok,
        sst.next + crate::reshare::tally_seq(s).len() <= i32::MAX,
    ensures
        rebuilt_seq(s, keys, sst).1.len() == s.len(),
        enc_seq(rebuilt_seq(s, keys, sst).1, est, d) is Ok,
        enc_follows(enc_st(enc_seq(rebuilt_seq(s, keys, sst).1, est, d)), rebuilt_seq(s, keys, sst).0),
    decreases s, 0nat,
{
    if s.len() > 0 {
        let init = s.subrange(0, s.len() - 1);
        let last = s[s.len() - 1];
        assert(plain_seq(init)) by {
            assert forall|i: int| 0 <= i < init.len() implies plain(#[trigger] init[i]) by {
                assert(init[i] == s[i]);
            }
        }
        assert(plain(last));
        lemma_plain_enc_seq(init, est, est, d);
        lemma_rebuilt_seq_enc(init, keys, sst, est, d);
        let (st1, a) = rebuilt_seq(init, keys, sst);
        crate::reshare::lemma_rebuilt_seq_next(init, keys, sst);
        let e1 = enc_st(enc_seq(a, est, d));
        lemma_plain_enc(last, est, e1, d);
        lemma_rebuilt_enc(last, keys, st1, e1, d);
        let (st2, x) = rebuilt(last, keys, st1);
        let ys = a.push(x);
        assert(ys.subrange(0, ys.len() - 1) =~= a);
        assert(ys[ys.len() - 1] == x);
    }
}

proof fn lemma_rebuilt_pairs_enc(
    s: Seq<(ValueView, ValueView)>,
    keys: Seq<Seq<u8>>,
    sst: ShareState,
    est: EncState,
    d: nat,
    value_first: bool,
)
    requires
        plain_pairs(s),
        enc_follows(est, sst),
        enc_pairs(s, est, d, value_first) is Ok,
        sst.next + crate::reshare::tally_pairs(s).len() <= i32::MAX,
    ensures
        rebuilt_pairs(s, keys, sst, value_first).1.len() == s.len(),
        enc_pairs(rebuilt_pairs(s, keys, sst, value_first).1, est, d, value_first) is Ok,
        enc_follows(
            enc_st(enc_pairs(rebuilt_pairs(s, keys, sst, value_first).1, est, d, value_first)),
            rebuilt_pairs(s, keys, sst, value_first).0,
        ),
    decreases s, 0nat,
{
    if s.len() > 0 {
        let init = s.subrange(0, s.len() - 1);
        let (k, v) = s[s.len() - 1];
        assert(plain_pairs(init)) by {
            assert forall|i: int| 0 <= i < init.len() implies plain((#[trigger] init[i]).0) && plain(init[i].1) by {
                assert(init[i] == s[i]);
            }
        }
        assert(plain(k) && plain(v));
        lemma_plain_enc_pairs(init, est, est, d, value_first);
        lemma_rebuilt_pairs_enc(init, keys, sst, est, d, value_first);
        let (st1, a) = rebuilt_pairs(init, keys, sst, value_first);
        crate::reshare::lemma_rebuilt_pairs_next(init, keys, sst, value_first);
        let e1 = enc_st(enc_pairs(a, est, d, value_first));
        let (first, second) = if value_first { (v, k) } else { (k, v) };
        lemma_plain_enc(first, est, e1, d);
        lemma_plain_enc(first, est, est, d);
        lemma_rebuilt_enc(first, keys, st1, e1, d);
        crate::reshare::lemma_rebuilt_next(first, keys, st1);
        let (st2, nf) = rebuilt(first, keys, st1);
        let e2 = enc_st(enc(nf, e1, d));
        lemma_plain_enc(second, est, e2, d);
        lemma_rebuilt_enc(second, keys, st2, e2, d);
        let (st3, ns) = rebuilt(second, keys, st2);
        let pair = if value_first { (ns, nf) } else { (nf, ns) };
        let ys = a.push(pair);
        assert(ys.subrange(0, ys.len() - 1) =~= a);
        assert(ys[ys.len() - 1] == pair);
    }
}

proof fn lemma_no_repeat(m: Seq<u32>, k: int)
    requires
        0 <= k,
        forall|i: int| 0 <= i < m.len() ==> #[trigger] m[i] == i + 1,
    ensures
        repeat_from(m, k) is None,
    decreases m.len() - k,
{
    if k < m.len() {
        assert(!m.take(k).contains(m[k])) by {
            if m.take(k).contains(m[k]) {
                let j = choose|j: int| 0 <= j < m.take(k).len() && m.take(k)[j] == m[k];
                assert(m.take(k)[j] == m[j]);
            }
        }
        lemma_no_repeat(m, k + 1);
    }
}

proof fn lemma_in_range(m: Seq<u32>, count: nat)
    requires
        m.len() == count,
        forall|i: int| 0 <= i < m.len() ==> #[trigger] m[i] == i + 1,
    ensures
        first_bad_slot(m, count) is None,
    decreases m.len(),
{
    if m.len() > 0 {
        let r = m.drop_first();
        assert forall|i: int| 0 <= i < r.len() implies 1 <= #[trigger] r[i] <= count by {
            assert(r[i] == m[i + 1]);
        }
        lemma_in_range_from(r, count);
    }
}

proof fn lemma_in_range_from(m: Seq<u32>, count: nat)
    requires
        forall|i: int| 0 <= i < m.len() ==> 1 <= #[trigger] m[i] <= count,
    ensures
        first_bad_slot(m, count) is None,
    decreases m.len(),
{
    if m.len() > 0 {
        let r = m.drop_first();
        assert forall|i: int| 0 <= i < r.len() implies 1 <= #[trigger] r[i] <= count by {
            assert(r[i] == m[i + 1]);
        }
        lemma_in_range_from(r, count);
    }
}

/// Resharing keeps a tree encodable: when every reference of `v` names a
/// stored slot and its inlined form encodes, the reshared tree encodes too
/// (its stores precede their references, and its slots are `1..=count`).
pub proof fn lemma_reshare_encodes(v: ValueView)
    requires
        spec_inline(v) is Some,
        plain(spec_inline(v)->Some_0),
        spec_encode(spec_inline(v)->Some_0) is Ok,
        tally(spec_inline(v)->Some_0).len() < i32::MAX,
    ensures
        spec_reshare(v) is Some,
        spec_encode(spec_reshare(v)->Some_0) is Ok,
{
    let w = spec_inline(v)->Some_0;
    let sst = ShareState { slots: Seq::empty(), next: 1 };
    let e0 = enc_start();
    assert(enc(w, e0, 0) is Ok);
    lemma_rebuilt_enc(w, tally(w), sst, e0, 0);
    crate::reshare::lemma_rebuilt_next(w, tally(w), sst);
    let (st2, y) = rebuilt(w, tally(w), sst);
    let m = enc_st(enc(y, e0, 0)).map;
    lemma_in_range(m, m.len());
    lemma_no_repeat(m, 0);
}

} // verus!
