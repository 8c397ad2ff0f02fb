//! The `(timestamp, payload)` containers of a settings tree: a dict or list
//! held either bare or inside a tuple, and the small edits the section
//! editors make on them.

use vstd::prelude::*;
use vstd::relations::{sorted_by, total_ordering};

use crate::batch::{dict_inner, first_dict_exec, first_dict_from, lemma_first_dict_from, spec_is_bytes};
use crate::path::{lemma_model_pairs_update, lemma_model_seq_update};
use crate::reshare::clone_value;
use crate::value::{lemma_model_pairs, lemma_model_seq, model, model_pairs, model_seq, Value, ValueView};

verus! {

broadcast use vstd::std_specs::vec::group_vec_axioms;

/// The entries of a dict, by view.
pub type Pairs = Seq<(ValueView, ValueView)>;

/// The integer a node holds, if it is an integer.
pub open spec fn int_of(v: ValueView) -> Option<i64> {
    match v {
        ValueView::Int(i) => Some(i),
        _ => None,
    }
}

/// The zero timestamp a newly minted container carries.
pub open spec fn zero_stamp() -> ValueView {
    ValueView::Long(seq![0u8, 0u8, 0u8, 0u8, 0u8, 0u8, 0u8, 0u8])
}

/// `x` in the `(timestamp, payload)` wrapper, with a zero timestamp.
pub open spec fn stamped(x: ValueView) -> ValueView {
    ValueView::Tuple(seq![zero_stamp(), x])
}

/// A zero timestamp.
pub fn zero_stamp_exec() -> (r: Value)
    ensures
        r@ == zero_stamp(),
{
    let b: Vec<u8> = vec![0u8, 0u8, 0u8, 0u8, 0u8, 0u8, 0u8, 0u8];
    assert(b@ =~= seq![0u8, 0u8, 0u8, 0u8, 0u8, 0u8, 0u8, 0u8]);
    Value::Long(b)
}

/// `x` wrapped with a zero timestamp.
pub fn stamped_exec(x: Value) -> (r: Value)
    ensures
        r@ == stamped(x@),
{
    let ts = zero_stamp_exec();
    let items = vec![ts, x];
    proof {
        lemma_model_seq(items@);
        assert(model_seq(items@) =~= seq![zero_stamp(), x@]);
    }
    Value::Tuple(items)
}

// ---------------------------------------------------------------------------
// Inner dicts and lists.
// ---------------------------------------------------------------------------

/// The first list among `items` at or after `i`.
pub open spec fn first_list_from(items: Seq<ValueView>, i: int) -> Option<int>
    decreases items.len() - i,
{
    if i < 0 || i >= items.len() {
        None
    } else if items[i] is List {
        Some(i)
    } else {
        first_list_from(items, i + 1)
    }
}

pub proof fn lemma_first_list_from(items: Seq<ValueView>, i: int)
    requires
        0 <= i,
    ensures
        first_list_from(items, i) matches Some(j) ==> i <= j < items.len() && items[j] is List,
    decreases items.len() - i,
{
    if i < items.len() && !(items[i] is List) {
        lemma_first_list_from(items, i + 1);
    }
}

fn first_list_exec(items: &Vec<Value>) -> (r: Option<usize>)
    ensures
        match r {
            Some(t) => first_list_from(model_seq(items@), 0) == Some(t as int) && t < items@.len(),
            None => first_list_from(model_seq(items@), 0) is None,
        },
{
    let ghost m = model_seq(items@);
    proof {
        lemma_model_seq(items@);
    }
    let mut i: usize = 0;
    while i < items.len()
        invariant
            i <= items.len(),
            m == model_seq(items@),
            m.len() == items@.len(),
            forall|j: int| 0 <= j < items@.len() ==> #[trigger] m[j] == model(items@[j]),
            first_list_from(m, 0) == first_list_from(m, i as int),
        decreases items.len() - i,
    {
        if let Value::List(_) = &items[i] {
            return Some(i);
        }
        i = i + 1;
    }
    None
}

/// The list a value holds: itself, or the first list of a `(ts, list)` tuple.
pub open spec fn list_inner(v: ValueView) -> Option<Seq<ValueView>> {
    match v {
        ValueView::List(l) => Some(l),
        ValueView::Tuple(items) => match first_list_from(items, 0) {
            Some(t) => Some(items[t]->List_0),
            None => None,
        },
        _ => None,
    }
}

/// `v` with the dict it holds replaced by `d`.
pub open spec fn dict_replaced(v: ValueView, d: Pairs) -> ValueView {
    match v {
        ValueView::Dict(_) => ValueView::Dict(d),
        ValueView::Tuple(items) => match first_dict_from(items, 0) {
            Some(t) => ValueView::Tuple(items.update(t, ValueView::Dict(d))),
            None => v,
        },
        _ => v,
    }
}

/// `v` with the list it holds replaced by `l`.
pub open spec fn list_replaced(v: ValueView, l: Seq<ValueView>) -> ValueView {
    match v {
        ValueView::List(_) => ValueView::List(l),
        ValueView::Tuple(items) => match first_list_from(items, 0) {
            Some(t) => ValueView::Tuple(items.update(t, ValueView::List(l))),
            None => v,
        },
        _ => v,
    }
}

proof fn lemma_first_dict_update(items: Seq<ValueView>, t: int, i: int, d: Pairs)
    requires
        0 <= i <= t,
        first_dict_from(items, i) == Some(t),
    ensures
        first_dict_from(items.update(t, ValueView::Dict(d)), i) == Some(t),
    decreases t - i,
{
    lemma_first_dict_from(items, i);
    if i < t {
        lemma_first_dict_update(items, t, i + 1, d);
    }
}

proof fn lemma_first_list_update(items: Seq<ValueView>, t: int, i: int, l: Seq<ValueView>)
    requires
        0 <= i <= t,
        first_list_from(items, i) == Some(t),
    ensures
        first_list_from(items.update(t, ValueView::List(l)), i) == Some(t),
    decreases t - i,
{
    lemma_first_list_from(items, i);
    if i < t {
        lemma_first_list_update(items, t, i + 1, l);
    }
}

/// Replacing the held dict twice keeps only the second replacement, and
/// the replaced value still holds the new dict.
pub proof fn lemma_dict_replaced(v: ValueView, d1: Pairs, d2: Pairs)
    requires
        dict_inner(v) is Some,
    ensures
        dict_replaced(dict_replaced(v, d1), d2) == dict_replaced(v, d2),
        dict_inner(dict_replaced(v, d1)) == Some(d1),
        dict_replaced(v, dict_inner(v)->Some_0) == v,
{
    if let ValueView::Tuple(items) = v {
        let t = first_dict_from(items, 0)->Some_0;
        lemma_first_dict_from(items, 0);
        lemma_first_dict_update(items, t, 0, d1);
        assert(items.update(t, ValueView::Dict(d1)).update(t, ValueView::Dict(d2)) =~= items.update(
            t,
            ValueView::Dict(d2),
        ));
        assert(items.update(t, ValueView::Dict(dict_inner(v)->Some_0)) =~= items);
    }
}

/// The list counterpart of [`lemma_dict_replaced`].
pub proof fn lemma_list_replaced(v: ValueView, l1: Seq<ValueView>, l2: Seq<ValueView>)
    requires
        list_inner(v) is Some,
    ensures
        list_replaced(list_replaced(v, l1), l2) == list_replaced(v, l2),
        list_inner(list_replaced(v, l1)) == Some(l1),
        list_replaced(v, list_inner(v)->Some_0) == v,
{
    if let ValueView::Tuple(items) = v {
        let t = first_list_from(items, 0)->Some_0;
        lemma_first_list_from(items, 0);
        lemma_first_list_update(items, t, 0, l1);
        assert(items.update(t, ValueView::List(l1)).update(t, ValueView::List(l2)) =~= items.update(
            t,
            ValueView::List(l2),
        ));
        assert(items.update(t, ValueView::List(list_inner(v)->Some_0)) =~= items);
    }
}

/// Swap the dict `c` holds with `d`; `false`, changing nothing, when `c`
/// holds no dict.
pub fn swap_dict_inner(c: &mut Value, d: &mut Vec<(Value, Value)>) -> (found: bool)
    ensures
        found == dict_inner(old(c)@) is Some,
        found ==> model_pairs(final(d)@) == dict_inner(old(c)@)->Some_0 && final(c)@ == dict_replaced(
            old(c)@,
            model_pairs(old(d)@),
        ),
        !found ==> final(c)@ == old(c)@ && final(d)@ == old(d)@,
{
    match c {
        Value::Dict(inner) => {
            std::mem::swap(inner, d);
            true
        },
        Value::Tuple(items) => match first_dict_exec(items) {
            Some(t) => {
                proof {
                    lemma_model_seq(items@);
                    lemma_first_dict_from(model_seq(items@), 0);
                }
                let ghost before = items@;
                let ghost dv = model_pairs(d@);
                match &mut items[t] {
                    Value::Dict(inner) => {
                        std::mem::swap(inner, d);
                    },
                    _ => {
                        assert(false);
                    },
                }
                proof {
                    lemma_model_seq_update(before, t as int, items@[t as int]);
                    assert(before.update(t as int, items@[t as int]) =~= items@);
                    assert(model(items@[t as int]) == ValueView::Dict(dv));
                }
                true
            },
            None => false,
        },
        _ => false,
    }
}

/// Swap the list `c` holds with `l`; `false`, changing nothing, when `c`
/// holds no list.
pub fn swap_list_inner(c: &mut Value, l: &mut Vec<Value>) -> (found: bool)
    ensures
        found == list_inner(old(c)@) is Some,
        found ==> model_seq(final(l)@) == list_inner(old(c)@)->Some_0 && final(c)@ == list_replaced(
            old(c)@,
            model_seq(old(l)@),
        ),
        !found ==> final(c)@ == old(c)@ && final(l)@ == old(l)@,
{
    match c {
        Value::List(inner) => {
            std::mem::swap(inner, l);
            true
        },
        Value::Tuple(items) => match first_list_exec(items) {
            Some(t) => {
                proof {
                    lemma_model_seq(items@);
                    lemma_first_list_from(model_seq(items@), 0);
                }
                let ghost before = items@;
                let ghost lv = model_seq(l@);
                match &mut items[t] {
                    Value::List(inner) => {
                        std::mem::swap(inner, l);
                    },
                    _ => {
                        assert(false);
                    },
                }
                proof {
                    lemma_model_seq_update(before, t as int, items@[t as int]);
                    assert(before.update(t as int, items@[t as int]) =~= items@);
                    assert(model(items@[t as int]) == ValueView::List(lv));
                }
                true
            },
            None => false,
        },
        _ => false,
    }
}

/// Swap the dict held by entry `j`'s value with `d`.
pub fn swap_entry_dict(e: &mut Vec<(Value, Value)>, j: usize, d: &mut Vec<(Value, Value)>) -> (found: bool)
    requires
        j < old(e)@.len(),
    ensures
        final(e)@.len() == old(e)@.len(),
        found == dict_inner(model_pairs(old(e)@)[j as int].1) is Some,
        found ==> model_pairs(final(d)@) == dict_inner(model_pairs(old(e)@)[j as int].1)->Some_0
            && model_pairs(final(e)@) == model_pairs(old(e)@).update(
            j as int,
            (model_pairs(old(e)@)[j as int].0, dict_replaced(model_pairs(old(e)@)[j as int].1, model_pairs(old(d)@))),
        ),
        !found ==> model_pairs(final(e)@) == model_pairs(old(e)@) && final(d)@ == old(d)@,
{
    proof {
        lemma_model_pairs(e@);
    }
    let ghost before = e@;
    let found = swap_dict_inner(&mut e[j].1, d);
    proof {
        lemma_model_pairs_update(before, j as int, e@[j as int]);
        assert(before.update(j as int, e@[j as int]) =~= e@);
        if !found {
            assert(model_pairs(before).update(j as int, model_pairs(before)[j as int]) =~= model_pairs(before));
        }
    }
    found
}

/// Swap the list held by entry `j`'s value with `l`.
pub fn swap_entry_list(e: &mut Vec<(Value, Value)>, j: usize, l: &mut Vec<Value>) -> (found: bool)
    requires
        j < old(e)@.len(),
    ensures
        final(e)@.len() == old(e)@.len(),
        found == list_inner(model_pairs(old(e)@)[j as int].1) is Some,
        found ==> model_seq(final(l)@) == list_inner(model_pairs(old(e)@)[j as int].1)->Some_0
            && model_pairs(final(e)@) == model_pairs(old(e)@).update(
            j as int,
            (model_pairs(old(e)@)[j as int].0, list_replaced(model_pairs(old(e)@)[j as int].1, model_seq(old(l)@))),
        ),
        !found ==> model_pairs(final(e)@) == model_pairs(old(e)@) && final(l)@ == old(l)@,
{
    proof {
        lemma_model_pairs(e@);
    }
    let ghost before = e@;
    let found = swap_list_inner(&mut e[j].1, l);
    proof {
        lemma_model_pairs_update(before, j as int, e@[j as int]);
        assert(before.update(j as int, e@[j as int]) =~= e@);
        if !found {
            assert(model_pairs(before).update(j as int, model_pairs(before)[j as int]) =~= model_pairs(before));
        }
    }
    found
}

/// Swap the list held by item `w` with `l`.
pub fn swap_item_list(items: &mut Vec<Value>, w: usize, l: &mut Vec<Value>) -> (found: bool)
    requires
        w < old(items)@.len(),
    ensures
        final(items)@.len() == old(items)@.len(),
        found == list_inner(model_seq(old(items)@)[w as int]) is Some,
        found ==> model_seq(final(l)@) == list_inner(model_seq(old(items)@)[w as int])->Some_0
            && model_seq(final(items)@) == model_seq(old(items)@).update(
            w as int,
            list_replaced(model_seq(old(items)@)[w as int], model_seq(old(l)@)),
        ),
        !found ==> model_seq(final(items)@) == model_seq(old(items)@) && final(l)@ == old(l)@,
{
    proof {
        lemma_model_seq(items@);
    }
    let ghost before = items@;
    let found = swap_list_inner(&mut items[w], l);
    proof {
        lemma_model_seq_update(before, w as int, items@[w as int]);
        assert(before.update(w as int, items@[w as int]) =~= items@);
        if !found {
            assert(model_seq(before).update(w as int, model_seq(before)[w as int]) =~= model_seq(before));
        }
    }
    found
}

/// Swap the dict held by item `w` with `d`.
pub fn swap_item_dict(items: &mut Vec<Value>, w: usize, d: &mut Vec<(Value, Value)>) -> (found: bool)
    requires
        w < old(items)@.len(),
    ensures
        final(items)@.len() == old(items)@.len(),
        found == dict_inner(model_seq(old(items)@)[w as int]) is Some,
        found ==> model_pairs(final(d)@) == dict_inner(model_seq(old(items)@)[w as int])->Some_0
            && model_seq(final(items)@) == model_seq(old(items)@).update(
            w as int,
            dict_replaced(model_seq(old(items)@)[w as int], model_pairs(old(d)@)),
        ),
        !found ==> model_seq(final(items)@) == model_seq(old(items)@) && final(d)@ == old(d)@,
{
    proof {
        lemma_model_seq(items@);
    }
    let ghost before = items@;
    let found = swap_dict_inner(&mut items[w], d);
    proof {
        lemma_model_seq_update(before, w as int, items@[w as int]);
        assert(before.update(w as int, items@[w as int]) =~= items@);
        if !found {
            assert(model_seq(before).update(w as int, model_seq(before)[w as int]) =~= model_seq(before));
        }
    }
    found
}

/// Pushing onto a vector pushes the model.
pub proof fn lemma_model_pairs_push(s: Seq<(Value, Value)>, x: (Value, Value))
    ensures
        model_pairs(s.push(x)) == model_pairs(s).push((model(x.0), model(x.1))),
{
    assert(s.push(x).subrange(0, s.len() as int) =~= s);
}

pub proof fn lemma_model_seq_push(s: Seq<Value>, x: Value)
    ensures
        model_seq(s.push(x)) == model_seq(s).push(model(x)),
{
    assert(s.push(x).subrange(0, s.len() as int) =~= s);
}

// ---------------------------------------------------------------------------
// Dropping entries and items.
// ---------------------------------------------------------------------------

/// Entries not keyed by the integer `idx`.
pub open spec fn not_int_key(idx: i64) -> spec_fn((ValueView, ValueView)) -> bool {
    |e: (ValueView, ValueView)| int_of(e.0) != Some(idx)
}

/// Items other than the integer `idx`.
pub open spec fn not_int(idx: i64) -> spec_fn(ValueView) -> bool {
    |x: ValueView| int_of(x) != Some(idx)
}

/// Entries not keyed by the byte string `key`.
pub open spec fn not_bytes_key(key: Seq<u8>) -> spec_fn((ValueView, ValueView)) -> bool {
    |e: (ValueView, ValueView)| !spec_is_bytes(e.0, key)
}

pub proof fn lemma_filter_empty<A>(s: Seq<A>, p: spec_fn(A) -> bool)
    requires
        s.len() == 0,
    ensures
        s.filter(p) == Seq::<A>::empty(),
{
    reveal(Seq::filter);
    assert(s.filter(p) =~= Seq::<A>::empty());
}

pub proof fn lemma_filter_step<A>(s: Seq<A>, i: int, p: spec_fn(A) -> bool)
    requires
        0 <= i < s.len(),
    ensures
        s.take(i + 1).filter(p) == if p(s[i]) {
            s.take(i).filter(p).push(s[i])
        } else {
            s.take(i).filter(p)
        },
{
    assert(s.take(i + 1) =~= s.take(i).push(s[i]));
    s.take(i).lemma_filter_push(s[i], p);
}

/// The entries of `t` not keyed by the integer `idx`.
pub fn without_int_key(t: &Vec<(Value, Value)>, idx: i64) -> (r: Vec<(Value, Value)>)
    ensures
        model_pairs(r@) == model_pairs(t@).filter(not_int_key(idx)),
{
    let ghost m = model_pairs(t@);
    proof {
        lemma_model_pairs(t@);
        lemma_filter_empty(m.take(0), not_int_key(idx));
    }
    let mut r: Vec<(Value, Value)> = Vec::new();
    assert(model_pairs(r@) =~= Seq::<(ValueView, ValueView)>::empty());
    let mut i: usize = 0;
    while i < t.len()
        invariant
            i <= t.len(),
            m == model_pairs(t@),
            m.len() == t@.len(),
            forall|j: int| 0 <= j < t@.len() ==> #[trigger] m[j] == (model(t@[j].0), model(t@[j].1)),
            model_pairs(r@) == m.take(i as int).filter(not_int_key(idx)),
        decreases t.len() - i,
    {
        proof {
            lemma_filter_step(m, i as int, not_int_key(idx));
        }
        let keep = match &t[i].0 {
            Value::Int(k) => *k != idx,
            _ => true,
        };
        if keep {
            let e = (clone_value(&t[i].0), clone_value(&t[i].1));
            proof {
                lemma_model_pairs_push(r@, e);
            }
            r.push(e);
        }
        i = i + 1;
    }
    assert(m.take(m.len() as int) =~= m);
    r
}

/// The entries of `t` not keyed by the byte string `key`.
pub fn without_bytes_key(t: &Vec<(Value, Value)>, key: &[u8]) -> (r: Vec<(Value, Value)>)
    ensures
        model_pairs(r@) == model_pairs(t@).filter(not_bytes_key(key@)),
{
    let ghost m = model_pairs(t@);
    proof {
        lemma_model_pairs(t@);
        lemma_filter_empty(m.take(0), not_bytes_key(key@));
    }
    let mut r: Vec<(Value, Value)> = Vec::new();
    assert(model_pairs(r@) =~= Seq::<(ValueView, ValueView)>::empty());
    let mut i: usize = 0;
    while i < t.len()
        invariant
            i <= t.len(),
            m == model_pairs(t@),
            m.len() == t@.len(),
            forall|j: int| 0 <= j < t@.len() ==> #[trigger] m[j] == (model(t@[j].0), model(t@[j].1)),
            model_pairs(r@) == m.take(i as int).filter(not_bytes_key(key@)),
        decreases t.len() - i,
    {
        proof {
            lemma_filter_step(m, i as int, not_bytes_key(key@));
        }
        if !crate::batch::is_bytes(&t[i].0, key) {
            let e = (clone_value(&t[i].0), clone_value(&t[i].1));
            proof {
                lemma_model_pairs_push(r@, e);
            }
            r.push(e);
        }
        i = i + 1;
    }
    assert(m.take(m.len() as int) =~= m);
    r
}

/// The items of `l` other than the integer `idx`.
pub fn without_int(l: &Vec<Value>, idx: i64) -> (r: Vec<Value>)
    ensures
        model_seq(r@) == model_seq(l@).filter(not_int(idx)),
{
    let ghost m = model_seq(l@);
    proof {
        lemma_model_seq(l@);
        lemma_filter_empty(m.take(0), not_int(idx));
    }
    let mut r: Vec<Value> = Vec::new();
    assert(model_seq(r@) =~= Seq::<ValueView>::empty());
    let mut i: usize = 0;
    while i < l.len()
        invariant
            i <= l.len(),
            m == model_seq(l@),
            m.len() == l@.len(),
            forall|j: int| 0 <= j < l@.len() ==> #[trigger] m[j] == model(l@[j]),
            model_seq(r@) == m.take(i as int).filter(not_int(idx)),
        decreases l.len() - i,
    {
        proof {
            lemma_filter_step(m, i as int, not_int(idx));
        }
        let keep = match &l[i] {
            Value::Int(k) => *k != idx,
            _ => true,
        };
        if keep {
            let x = clone_value(&l[i]);
            proof {
                lemma_model_seq_push(r@, x);
            }
            r.push(x);
        }
        i = i + 1;
    }
    assert(m.take(m.len() as int) =~= m);
    r
}

/// The list a value holds: itself, or the first list of a `(ts, list)` tuple.
pub fn list_inner_exec(v: &Value) -> (r: Option<&Vec<Value>>)
    ensures
        match r {
            Some(l) => list_inner(v@) == Some(model_seq(l@)),
            None => list_inner(v@) is None,
        },
{
    match v {
        Value::List(l) => Some(l),
        Value::Tuple(items) => match first_list_exec(items) {
            Some(t) => {
                proof {
                    lemma_model_seq(items@);
                    lemma_first_list_from(model_seq(items@), 0);
                }
                match &items[t] {
                    Value::List(l) => Some(l),
                    _ => None,
                }
            },
            None => None,
        },
        _ => None,
    }
}

/// Take the dict held by entry `j` out, leaving an empty dict in its place.
pub fn take_entry_dict(e: &mut Vec<(Value, Value)>, j: usize) -> (d: Vec<(Value, Value)>)
    requires
        j < old(e)@.len(),
        dict_inner(model_pairs(old(e)@)[j as int].1) is Some,
    ensures
        final(e)@.len() == old(e)@.len(),
        model_pairs(d@) == dict_inner(model_pairs(old(e)@)[j as int].1)->Some_0,
        model_pairs(final(e)@) == model_pairs(old(e)@).update(
            j as int,
            (model_pairs(old(e)@)[j as int].0, dict_replaced(model_pairs(old(e)@)[j as int].1, Seq::empty())),
        ),
{
    let mut d: Vec<(Value, Value)> = Vec::new();
    assert(model_pairs(d@) =~= Seq::<(ValueView, ValueView)>::empty());
    swap_entry_dict(e, j, &mut d);
    d
}

/// Put a dict back into entry `j`, where [`take_entry_dict`] took one from
/// the container `c`.
pub fn put_entry_dict(e: &mut Vec<(Value, Value)>, j: usize, d: Vec<(Value, Value)>, Ghost(c): Ghost<ValueView>)
    requires
        j < old(e)@.len(),
        dict_inner(c) is Some,
        model_pairs(old(e)@)[j as int].1 == dict_replaced(c, Seq::empty()),
    ensures
        final(e)@.len() == old(e)@.len(),
        model_pairs(final(e)@) == model_pairs(old(e)@).update(
            j as int,
            (model_pairs(old(e)@)[j as int].0, dict_replaced(c, model_pairs(d@))),
        ),
{
    let mut d = d;
    proof {
        lemma_dict_replaced(c, Seq::empty(), model_pairs(d@));
    }
    swap_entry_dict(e, j, &mut d);
}

/// Take the list held by entry `j` out, leaving an empty list in its place.
pub fn take_entry_list(e: &mut Vec<(Value, Value)>, j: usize) -> (l: Vec<Value>)
    requires
        j < old(e)@.len(),
        list_inner(model_pairs(old(e)@)[j as int].1) is Some,
    ensures
        final(e)@.len() == old(e)@.len(),
        model_seq(l@) == list_inner(model_pairs(old(e)@)[j as int].1)->Some_0,
        model_pairs(final(e)@) == model_pairs(old(e)@).update(
            j as int,
            (model_pairs(old(e)@)[j as int].0, list_replaced(model_pairs(old(e)@)[j as int].1, Seq::empty())),
        ),
{
    let mut l: Vec<Value> = Vec::new();
    assert(model_seq(l@) =~= Seq::<ValueView>::empty());
    swap_entry_list(e, j, &mut l);
    l
}

/// Put a list back into entry `j`, where [`take_entry_list`] took one from
/// the container `c`.
pub fn put_entry_list(e: &mut Vec<(Value, Value)>, j: usize, l: Vec<Value>, Ghost(c): Ghost<ValueView>)
    requires
        j < old(e)@.len(),
        list_inner(c) is Some,
        model_pairs(old(e)@)[j as int].1 == list_replaced(c, Seq::empty()),
    ensures
        final(e)@.len() == old(e)@.len(),
        model_pairs(final(e)@) == model_pairs(old(e)@).update(
            j as int,
            (model_pairs(old(e)@)[j as int].0, list_replaced(c, model_seq(l@))),
        ),
{
    let mut l = l;
    proof {
        lemma_list_replaced(c, Seq::empty(), model_seq(l@));
    }
    swap_entry_list(e, j, &mut l);
}

/// Replace the list held by item `w` with `l`; `false`, changing nothing,
/// when the item holds no list.
pub fn set_item_list(items: &mut Vec<Value>, w: usize, l: Vec<Value>) -> (found: bool)
    requires
        w < old(items)@.len(),
    ensures
        final(items)@.len() == old(items)@.len(),
        found == list_inner(model_seq(old(items)@)[w as int]) is Some,
        found ==> model_seq(final(items)@) == model_seq(old(items)@).update(
            w as int,
            list_replaced(model_seq(old(items)@)[w as int], model_seq(l@)),
        ),
        !found ==> model_seq(final(items)@) == model_seq(old(items)@),
{
    let mut l = l;
    let ghost c = model_seq(items@)[w as int];
    proof {
        lemma_model_seq(items@);
    }
    let found = swap_item_list(items, w, &mut l);
    found
}

// ---------------------------------------------------------------------------
// Sorting integers.
// ---------------------------------------------------------------------------

/// Ascending order on integers.
pub open spec fn int_le() -> spec_fn(i64, i64) -> bool {
    |a: i64, b: i64| a <= b
}

pub proof fn lemma_int_le_total()
    ensures
        total_ordering(int_le()),
{
}

/// `s` in ascending order.
pub fn sort_ints(s: &Vec<i64>) -> (r: Vec<i64>)
    ensures
        r@ == s@.sort_by(int_le()),
{
    broadcast use vstd::seq_lib::group_to_multiset_ensures;
    let mut r: Vec<i64> = Vec::new();
    let mut i: usize = 0;
    assert(s@.take(0) =~= Seq::<i64>::empty());
    while i < s.len()
        invariant
            i <= s.len(),
            sorted_by(r@, int_le()),
            r@.to_multiset() == s@.take(i as int).to_multiset(),
        decreases s.len() - i,
    {
        let x = s[i];
        let mut p: usize = 0;
        while p < r.len() && r[p] <= x
            invariant
                p <= r.len(),
                forall|k: int| 0 <= k < p ==> r@[k] <= x,
            decreases r.len() - p,
        {
            p = p + 1;
        }
        let ghost before = r@;
        r.insert(p, x);
        proof {
            vstd::seq_lib::to_multiset_insert(before, p as int, x);
            assert(s@.take(i + 1) =~= s@.take(i as int).push(x));
            vstd::seq_lib::to_multiset_build(s@.take(i as int), x);
            assert(r@ =~= before.insert(p as int, x));
            assert forall|a: int, b: int| 0 <= a < b < r@.len() implies #[trigger] (int_le())(r@[a], r@[b]) by {
                if b < p {
                    assert((int_le())(before[a], before[b]));
                } else if b == p {
                    assert(r@[a] == before[a]);
                } else if a < p {
                    assert(r@[b] == before[b - 1]);
                    if (p as int) < before.len() {
                        assert((int_le())(before[p as int], before[b - 1]) || p as int == b - 1);
                    }
                } else if a == p {
                    assert(r@[b] == before[b - 1]);
                    assert(before[p as int] > x);
                    if (p as int) < b - 1 {
                        assert((int_le())(before[p as int], before[b - 1]));
                    }
                } else {
                    assert((int_le())(before[a - 1], before[b - 1]));
                }
            }
        }
        i = i + 1;
    }
    proof {
        assert(s@.take(s@.len() as int) =~= s@);
        lemma_int_le_total();
        s@.lemma_sort_by_ensures(int_le());
        vstd::seq_lib::lemma_sorted_unique(r@, s@.sort_by(int_le()), int_le());
    }
    r
}

} // verus!
