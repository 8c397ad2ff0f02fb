//! Inlining of `Shared`/`Ref` sharing, and re-derivation of compact, valid
//! sharing for a tree by sharing repeated immutable values (structural
//! equality). Immutable-only by design: the client shares by object
//! identity, so sharing mutable containers by structural equality could alias
//! values it kept distinct.

use vstd::prelude::*;

use crate::value::{lemma_model_pairs, lemma_model_seq, model, model_pairs, model_seq, Value, ValueView};

verus! {

broadcast use vstd::std_specs::vec::group_vec_axioms;

// ---------------------------------------------------------------------------
// Copies.
// ---------------------------------------------------------------------------

/// A deep copy of `v`.
pub fn clone_value(v: &Value) -> (r: Value)
    ensures
        r@ == v@,
    decreases v,
{
    match v {
        Value::Nil => Value::Nil,
        Value::Bool(b) => Value::Bool(*b),
        Value::Int(i) => Value::Int(*i),
        Value::Long(b) => Value::Long(b.clone()),
        Value::Float(f) => Value::Float(*f),
        Value::Bytes(b) => Value::Bytes(b.clone()),
        Value::Str(s) => Value::Str(s.clone()),
        Value::StrUcs2(s) => Value::StrUcs2(s.clone()),
        Value::StrTable(i) => Value::StrTable(*i),
        Value::Tuple(items) => Value::Tuple(clone_items(items)),
        Value::List(items) => Value::List(clone_items(items)),
        Value::Dict(entries) => Value::Dict(clone_pairs(entries)),
        Value::Stream(inner) => Value::Stream(Box::new(clone_value(inner))),
        Value::Global(b) => Value::Global(b.clone()),
        Value::Instance { class, state } => Value::Instance {
            class: Box::new(clone_value(class)),
            state: Box::new(clone_value(state)),
        },
        Value::Reduce { ctor, items, pairs } => Value::Reduce {
            ctor: Box::new(clone_value(ctor)),
            items: clone_items(items),
            pairs: clone_pairs(pairs),
        },
        Value::Shared { slot, value } => Value::Shared { slot: *slot, value: Box::new(clone_value(value)) },
        Value::Ref(slot) => Value::Ref(*slot),
    }
}

fn clone_items(items: &Vec<Value>) -> (r: Vec<Value>)
    ensures
        model_seq(r@) == model_seq(items@),
    decreases items,
{
    proof {
        lemma_model_seq(items@);
    }
    let mut out: Vec<Value> = Vec::new();
    let mut i: usize = 0;
    while i < items.len()
        invariant
            i <= items.len(),
            model_seq(items@).len() == items@.len(),
            forall|j: int| 0 <= j < items@.len() ==> #[trigger] model_seq(items@)[j] == model(items@[j]),
            model_seq(out@) == model_seq(items@).subrange(0, i as int),
        decreases items.len() - i,
    {
        let c = clone_value(&items[i]);
        let ghost prev = out@;
        out.push(c);
        assert(out@.subrange(0, out@.len() - 1) =~= prev);
        assert(model_seq(out@) =~= model_seq(items@).subrange(0, i + 1));
        i = i + 1;
    }
    assert(model_seq(items@).subrange(0, items.len() as int) =~= model_seq(items@));
    out
}

fn clone_pairs(entries: &Vec<(Value, Value)>) -> (r: Vec<(Value, Value)>)
    ensures
        model_pairs(r@) == model_pairs(entries@),
    decreases entries,
{
    proof {
        lemma_model_pairs(entries@);
    }
    let mut out: Vec<(Value, Value)> = Vec::new();
    let mut i: usize = 0;
    while i < entries.len()
        invariant
            i <= entries.len(),
            model_pairs(entries@).len() == entries@.len(),
            forall|j: int|
                0 <= j < entries@.len() ==> #[trigger] model_pairs(entries@)[j] == (
                    model(entries@[j].0),
                    model(entries@[j].1),
                ),
            model_pairs(out@) == model_pairs(entries@).subrange(0, i as int),
        decreases entries.len() - i,
    {
        let k = clone_value(&entries[i].0);
        let v = clone_value(&entries[i].1);
        let ghost prev = out@;
        out.push((k, v));
        assert(out@.subrange(0, out@.len() - 1) =~= prev);
        assert(model_pairs(out@) =~= model_pairs(entries@).subrange(0, i + 1));
        i = i + 1;
    }
    assert(model_pairs(entries@).subrange(0, entries.len() as int) =~= model_pairs(entries@));
    out
}

// ---------------------------------------------------------------------------
// Inlining.
// ---------------------------------------------------------------------------

/// The slot table of a tree: each `Shared` store's slot and stored node, in
/// depth-first order, a store before the stores inside it.
pub open spec fn collect(v: ValueView) -> Seq<(u32, ValueView)>
    decreases v, 1nat,
{
    match v {
        ValueView::Shared { slot, value } => seq![(slot, *value)] + collect(*value),
        ValueView::Tuple(items) => collect_seq(items),
        ValueView::List(items) => collect_seq(items),
        ValueView::Dict(e) => collect_pairs(e),
        ValueView::Stream(inner) => collect(*inner),
        ValueView::Instance { class, state } => collect(*class) + collect(*state),
        ValueView::Reduce { ctor, items, pairs } => collect(*ctor) + collect_seq(items) + collect_pairs(pairs),
        _ => Seq::empty(),
    }
}

pub open spec fn collect_seq(s: Seq<ValueView>) -> Seq<(u32, ValueView)>
    decreases s, 0nat,
{
    if s.len() == 0 {
        Seq::empty()
    } else {
        collect_seq(s.subrange(0, s.len() - 1)) + collect(s[s.len() - 1])
    }
}

pub open spec fn collect_pairs(s: Seq<(ValueView, ValueView)>) -> Seq<(u32, ValueView)>
    decreases s, 0nat,
{
    if s.len() == 0 {
        Seq::empty()
    } else {
        let (k, v) = s[s.len() - 1];
        collect_pairs(s.subrange(0, s.len() - 1)) + collect(k) + collect(v)
    }
}

/// The node the table holds for `slot`: the last one stored into it.
pub open spec fn table_get(t: Seq<(u32, ValueView)>, slot: u32) -> Option<ValueView>
    decreases t.len(),
{
    if t.len() == 0 {
        None
    } else if t.last().0 == slot {
        Some(t.last().1)
    } else {
        table_get(t.drop_last(), slot)
    }
}

/// `v` with every `Shared` wrapper dropped and every `Ref` whose slot the
/// table holds replaced by that node, resolved in turn; `None` when more than
/// `fuel` nested `Ref` look-ups are needed.
pub open spec fn resolved(v: ValueView, t: Seq<(u32, ValueView)>, fuel: nat) -> Option<ValueView>
    decreases fuel, v, 1nat,
{
    match v {
        ValueView::Shared { value, .. } => resolved(*value, t, fuel),
        ValueView::Ref(slot) => match table_get(t, slot) {
            Some(x) => if fuel == 0 {
                None
            } else {
                resolved(x, t, (fuel - 1) as nat)
            },
            None => Some(v),
        },
        ValueView::Tuple(items) => match resolved_seq(items, t, fuel) {
            Some(r) => Some(ValueView::Tuple(r)),
            None => None,
        },
        ValueView::List(items) => match resolved_seq(items, t, fuel) {
            Some(r) => Some(ValueView::List(r)),
            None => None,
        },
        ValueView::Dict(e) => match resolved_pairs(e, t, fuel) {
            Some(r) => Some(ValueView::Dict(r)),
            None => None,
        },
        ValueView::Stream(inner) => match resolved(*inner, t, fuel) {
            Some(r) => Some(ValueView::Stream(Box::new(r))),
            None => None,
        },
        ValueView::Instance { class, state } => match (resolved(*class, t, fuel), resolved(*state, t, fuel)) {
            (Some(c), Some(s)) => Some(ValueView::Instance { class: Box::new(c), state: Box::new(s) }),
            _ => None,
        },
        ValueView::Reduce { ctor, items, pairs } => match (
            resolved(*ctor, t, fuel),
            resolved_seq(items, t, fuel),
            resolved_pairs(pairs, t, fuel),
        ) {
            (Some(c), Some(i), Some(p)) => Some(ValueView::Reduce { ctor: Box::new(c), items: i, pairs: p }),
            _ => None,
        },
        _ => Some(v),
    }
}

pub open spec fn resolved_seq(s: Seq<ValueView>, t: Seq<(u32, ValueView)>, fuel: nat) -> Option<Seq<ValueView>>
    decreases fuel, s, 0nat,
{
    if s.len() == 0 {
        Some(Seq::empty())
    } else {
        match (resolved_seq(s.subrange(0, s.len() - 1), t, fuel), resolved(s[s.len() - 1], t, fuel)) {
            (Some(a), Some(x)) => Some(a.push(x)),
            _ => None,
        }
    }
}

pub open spec fn resolved_pairs(s: Seq<(ValueView, ValueView)>, t: Seq<(u32, ValueView)>, fuel: nat) -> Option<Seq<(ValueView, ValueView)>>
    decreases fuel, s, 0nat,
{
    if s.len() == 0 {
        Some(Seq::empty())
    } else {
        let (k, v) = s[s.len() - 1];
        match (resolved_pairs(s.subrange(0, s.len() - 1), t, fuel), resolved(k, t, fuel), resolved(v, t, fuel)) {
            (Some(a), Some(x), Some(y)) => Some(a.push((x, y))),
            _ => None,
        }
    }
}

/// The sharing-free tree `root` stands for: `None` exactly when resolving
/// its references never ends (a reference cycle), since no chain of nested
/// look-ups through distinct slots is longer than the table.
pub open spec fn spec_inline(root: ValueView) -> Option<ValueView> {
    let t = collect(root);
    resolved(root, t, t.len())
}

/// The table's entries by view.
pub open spec fn table_view(t: Seq<(u32, Value)>) -> Seq<(u32, ValueView)> {
    t.map_values(|e: (u32, Value)| (e.0, e.1@))
}

proof fn lemma_table_push(t: Seq<(u32, Value)>, e: (u32, Value))
    ensures
        table_view(t.push(e)) == table_view(t).push((e.0, e.1@)),
{
    assert(table_view(t.push(e)) =~= table_view(t).push((e.0, e.1@)));
}

/// Append the slot table of `v` to `out`.
pub(crate) fn collect_into(v: &Value, out: &mut Vec<(u32, Value)>)
    ensures
        table_view(final(out)@) == table_view(old(out)@) + collect(v@),
    decreases v,
{
    let ghost before = table_view(out@);
    match v {
        Value::Shared { slot, value } => {
            let ghost t0 = out@;
            out.push((*slot, clone_value(value)));
            proof {
                lemma_table_push(t0, (*slot, **value));
            }
            collect_into(value, out);
            assert(table_view(out@) =~= before + collect(v@));
        },
        Value::Tuple(items) => collect_items_into(items, out),
        Value::List(items) => collect_items_into(items, out),
        Value::Dict(entries) => collect_pairs_into(entries, out),
        Value::Stream(inner) => collect_into(inner, out),
        Value::Instance { class, state } => {
            collect_into(class, out);
            collect_into(state, out);
            assert(table_view(out@) =~= before + collect(v@));
        },
        Value::Reduce { ctor, items, pairs } => {
            collect_into(ctor, out);
            collect_items_into(items, out);
            collect_pairs_into(pairs, out);
            assert(table_view(out@) =~= before + collect(v@));
        },
        _ => {
            assert(table_view(out@) =~= before + collect(v@));
        },
    }
}

fn collect_items_into(items: &Vec<Value>, out: &mut Vec<(u32, Value)>)
    ensures
        table_view(final(out)@) == table_view(old(out)@) + collect_seq(model_seq(items@)),
    decreases items,
{
    let ghost ms = model_seq(items@);
    let ghost before = table_view(out@);
    proof {
        lemma_model_seq(items@);
        assert(before + collect_seq(ms.subrange(0, 0)) =~= before);
    }
    let mut i: usize = 0;
    while i < items.len()
        invariant
            i <= items.len(),
            ms == model_seq(items@),
            ms.len() == items@.len(),
            forall|j: int| 0 <= j < items@.len() ==> #[trigger] ms[j] == model(items@[j]),
            table_view(out@) == before + collect_seq(ms.subrange(0, i as int)),
        decreases items.len() - i,
    {
        let ghost t = ms.subrange(0, i + 1);
        assert(t.subrange(0, t.len() - 1) =~= ms.subrange(0, i as int));
        collect_into(&items[i], out);
        assert(table_view(out@) =~= before + collect_seq(t));
        i = i + 1;
    }
    assert(ms.subrange(0, items.len() as int) =~= ms);
}

fn collect_pairs_into(entries: &Vec<(Value, Value)>, out: &mut Vec<(u32, Value)>)
    ensures
        table_view(final(out)@) == table_view(old(out)@) + collect_pairs(model_pairs(entries@)),
    decreases entries,
{
    let ghost ms = model_pairs(entries@);
    let ghost before = table_view(out@);
    proof {
        lemma_model_pairs(entries@);
        assert(before + collect_pairs(ms.subrange(0, 0)) =~= before);
    }
    let mut i: usize = 0;
    while i < entries.len()
        invariant
            i <= entries.len(),
            ms == model_pairs(entries@),
            ms.len() == entries@.len(),
            forall|j: int| 0 <= j < entries@.len() ==> #[trigger] ms[j] == (model(entries@[j].0), model(entries@[j].1)),
            table_view(out@) == before + collect_pairs(ms.subrange(0, i as int)),
        decreases entries.len() - i,
    {
        let ghost t = ms.subrange(0, i + 1);
        assert(t.subrange(0, t.len() - 1) =~= ms.subrange(0, i as int));
        collect_into(&entries[i].0, out);
        collect_into(&entries[i].1, out);
        assert(table_view(out@) =~= before + collect_pairs(t));
        i = i + 1;
    }
    assert(ms.subrange(0, entries.len() as int) =~= ms);
}

/// The node the table holds for `slot`.
pub(crate) fn table_lookup(t: &Vec<(u32, Value)>, slot: u32) -> (r: Option<&Value>)
    ensures
        match r {
            Some(x) => table_get(table_view(t@), slot) == Some(x@),
            None => table_get(table_view(t@), slot) is None,
        },
{
    let mut i: usize = t.len();
    assert(table_view(t@).subrange(0, t.len() as int) =~= table_view(t@));
    while i > 0
        invariant
            i <= t.len(),
            table_get(table_view(t@), slot) == table_get(table_view(t@).subrange(0, i as int), slot),
        decreases i,
    {
        let ghost s = table_view(t@).subrange(0, i as int);
        assert(s.drop_last() =~= table_view(t@).subrange(0, i - 1));
        if t[i - 1].0 == slot {
            return Some(&t[i - 1].1);
        }
        i = i - 1;
    }
    None
}


proof fn lemma_resolved_seq_prefix_none(s: Seq<ValueView>, t: Seq<(u32, ValueView)>, fuel: nat, j: int)
    requires
        0 <= j <= s.len(),
        resolved_seq(s.subrange(0, j), t, fuel) is None,
    ensures
        resolved_seq(s, t, fuel) is None,
    decreases s.len() - j,
{
    if j < s.len() {
        let u = s.subrange(0, j + 1);
        assert(u.subrange(0, u.len() - 1) =~= s.subrange(0, j));
        lemma_resolved_seq_prefix_none(s, t, fuel, j + 1);
    } else {
        assert(s.subrange(0, j) =~= s);
    }
}

proof fn lemma_resolved_pairs_prefix_none(s: Seq<(ValueView, ValueView)>, t: Seq<(u32, ValueView)>, fuel: nat, j: int)
    requires
        0 <= j <= s.len(),
        resolved_pairs(s.subrange(0, j), t, fuel) is None,
    ensures
        resolved_pairs(s, t, fuel) is None,
    decreases s.len() - j,
{
    if j < s.len() {
        let u = s.subrange(0, j + 1);
        assert(u.subrange(0, u.len() - 1) =~= s.subrange(0, j));
        lemma_resolved_pairs_prefix_none(s, t, fuel, j + 1);
    } else {
        assert(s.subrange(0, j) =~= s);
    }
}

/// `v` resolved against the table, as [`resolved`] states it.
fn resolve(v: &Value, t: &Vec<(u32, Value)>, fuel: usize) -> (r: Option<Value>)
    ensures
        match r {
            Some(x) => resolved(v@, table_view(t@), fuel as nat) == Some(x@),
            None => resolved(v@, table_view(t@), fuel as nat) is None,
        },
    decreases fuel, v, 1nat,
{
    match v {
        Value::Shared { value, .. } => resolve(value, t, fuel),
        Value::Ref(slot) => match table_lookup(t, *slot) {
            Some(x) => if fuel == 0 {
                None
            } else {
                resolve(x, t, fuel - 1)
            },
            None => Some(Value::Ref(*slot)),
        },
        Value::Tuple(items) => match resolve_items(items, t, fuel) {
            Some(r) => Some(Value::Tuple(r)),
            None => None,
        },
        Value::List(items) => match resolve_items(items, t, fuel) {
            Some(r) => Some(Value::List(r)),
            None => None,
        },
        Value::Dict(entries) => match resolve_pairs(entries, t, fuel) {
            Some(r) => Some(Value::Dict(r)),
            None => None,
        },
        Value::Stream(inner) => match resolve(inner, t, fuel) {
            Some(r) => Some(Value::Stream(Box::new(r))),
            None => None,
        },
        Value::Instance { class, state } => {
            let c = resolve(class, t, fuel);
            let s = resolve(state, t, fuel);
            match (c, s) {
                (Some(c), Some(s)) => Some(Value::Instance { class: Box::new(c), state: Box::new(s) }),
                _ => None,
            }
        },
        Value::Reduce { ctor, items, pairs } => {
            let c = resolve(ctor, t, fuel);
            let i = resolve_items(items, t, fuel);
            let p = resolve_pairs(pairs, t, fuel);
            match (c, i, p) {
                (Some(c), Some(i), Some(p)) => Some(Value::Reduce { ctor: Box::new(c), items: i, pairs: p }),
                _ => None,
            }
        },
        _ => Some(clone_value(v)),
    }
}

fn resolve_items(items: &Vec<Value>, t: &Vec<(u32, Value)>, fuel: usize) -> (r: Option<Vec<Value>>)
    ensures
        match r {
            Some(x) => resolved_seq(model_seq(items@), table_view(t@), fuel as nat) == Some(model_seq(x@)),
            None => resolved_seq(model_seq(items@), table_view(t@), fuel as nat) is None,
        },
    decreases fuel, items, 0nat,
{
    let ghost ms = model_seq(items@);
    let ghost tv = table_view(t@);
    proof {
        lemma_model_seq(items@);
    }
    let mut out: Vec<Value> = Vec::new();
    let mut i: usize = 0;
    assert(model_seq(out@) =~= Seq::<ValueView>::empty());
    while i < items.len()
        invariant
            i <= items.len(),
            ms == model_seq(items@),
            tv == table_view(t@),
            ms.len() == items@.len(),
            forall|j: int| 0 <= j < items@.len() ==> #[trigger] ms[j] == model(items@[j]),
            resolved_seq(ms.subrange(0, i as int), tv, fuel as nat) == Some(model_seq(out@)),
        decreases items.len() - i,
    {
        let ghost u = ms.subrange(0, i + 1);
        assert(u.subrange(0, u.len() - 1) =~= ms.subrange(0, i as int));
        match resolve(&items[i], t, fuel) {
            Some(x) => {
                let ghost prev = out@;
                out.push(x);
                assert(out@.subrange(0, out@.len() - 1) =~= prev);
            },
            None => {
                proof {
                    lemma_resolved_seq_prefix_none(ms, tv, fuel as nat, i + 1);
                }
                return None;
            },
        }
        i = i + 1;
    }
    assert(ms.subrange(0, items.len() as int) =~= ms);
    Some(out)
}

fn resolve_pairs(entries: &Vec<(Value, Value)>, t: &Vec<(u32, Value)>, fuel: usize) -> (r: Option<Vec<(Value, Value)>>)
    ensures
        match r {
            Some(x) => resolved_pairs(model_pairs(entries@), table_view(t@), fuel as nat) == Some(model_pairs(x@)),
            None => resolved_pairs(model_pairs(entries@), table_view(t@), fuel as nat) is None,
        },
    decreases fuel, entries, 0nat,
{
    let ghost ms = model_pairs(entries@);
    let ghost tv = table_view(t@);
    proof {
        lemma_model_pairs(entries@);
    }
    let mut out: Vec<(Value, Value)> = Vec::new();
    let mut i: usize = 0;
    assert(model_pairs(out@) =~= Seq::<(ValueView, ValueView)>::empty());
    while i < entries.len()
        invariant
            i <= entries.len(),
            ms == model_pairs(entries@),
            tv == table_view(t@),
            ms.len() == entries@.len(),
            forall|j: int| 0 <= j < entries@.len() ==> #[trigger] ms[j] == (model(entries@[j].0), model(entries@[j].1)),
            resolved_pairs(ms.subrange(0, i as int), tv, fuel as nat) == Some(model_pairs(out@)),
        decreases entries.len() - i,
    {
        let ghost u = ms.subrange(0, i + 1);
        assert(u.subrange(0, u.len() - 1) =~= ms.subrange(0, i as int));
        let k = resolve(&entries[i].0, t, fuel);
        let v = resolve(&entries[i].1, t, fuel);
        match (k, v) {
            (Some(k), Some(v)) => {
                let ghost prev = out@;
                out.push((k, v));
                assert(out@.subrange(0, out@.len() - 1) =~= prev);
            },
            _ => {
                proof {
                    lemma_resolved_pairs_prefix_none(ms, tv, fuel as nat, i + 1);
                }
                return None;
            },
        }
        i = i + 1;
    }
    assert(ms.subrange(0, entries.len() as int) =~= ms);
    Some(out)
}

/// The sharing-free tree `root` stands for, or `None` where its references
/// form a cycle (resolving them would never end).
pub fn try_inline(root: &Value) -> (r: Option<Value>)
    ensures
        match r {
            Some(x) => spec_inline(root@) == Some(x@),
            None => spec_inline(root@) is None,
        },
{
    let mut table: Vec<(u32, Value)> = Vec::new();
    assert(table_view(table@) =~= Seq::<(u32, ValueView)>::empty());
    collect_into(root, &mut table);
    assert(table_view(table@) =~= collect(root@));
    let n = table.len();
    resolve(root, &table, n)
}

/// Deep-resolve every `Shared`/`Ref` into a sharing-free owned tree.
pub fn inline(root: &Value) -> (r: Value)
    requires
        spec_inline(root@) is Some,
    ensures
        spec_inline(root@) == Some(r@),
{
    match try_inline(root) {
        Some(x) => x,
        None => Value::Nil,
    }
}


// ---------------------------------------------------------------------------
// Resharing.
// ---------------------------------------------------------------------------

/// Immutable in the Python sense: aliasing it can never be observed as a
/// shared mutation. Containers the client could mutate in place are not.
pub open spec fn immutable(v: ValueView) -> bool
    decreases v, 1nat,
{
    match v {
        ValueView::Nil | ValueView::Bool(_) | ValueView::Int(_) | ValueView::Float(_) | ValueView::Long(_)
        | ValueView::Bytes(_) | ValueView::Str(_) | ValueView::StrUcs2(_) | ValueView::StrTable(_)
        | ValueView::Global(_) => true,
        ValueView::Tuple(xs) => all_immutable(xs),
        _ => false,
    }
}

pub open spec fn all_immutable(s: Seq<ValueView>) -> bool
    decreases s, 0nat,
{
    forall|i: int| 0 <= i < s.len() ==> immutable(#[trigger] s[i])
}

/// Immutable and stored by the opcode the encoder picks for it: bytes of
/// length at least 2, longs, globals, and non-empty all-immutable tuples.
pub open spec fn shareable(v: ValueView) -> bool {
    match v {
        ValueView::Bytes(b) => b.len() >= 2,
        ValueView::Long(_) | ValueView::Global(_) => true,
        ValueView::Tuple(xs) => xs.len() > 0 && all_immutable(xs),
        _ => false,
    }
}

/// The structural key of a node: its own wire encoding.
pub open spec fn share_key(v: ValueView) -> Option<Seq<u8>> {
    match crate::encode::spec_encode(v) {
        Ok(b) => Some(b),
        Err(_) => None,
    }
}

/// The keys of the shareable nodes of `v`, in traversal order; a shareable
/// node is one unit (its insides are not visited), and so is a stream, whose
/// payload has a tail map of its own.
pub open spec fn tally(v: ValueView) -> Seq<Seq<u8>>
    decreases v, 1nat,
{
    if shareable(v) {
        match share_key(v) {
            Some(k) => seq![k],
            None => Seq::empty(),
        }
    } else {
        match v {
            ValueView::Tuple(xs) => tally_seq(xs),
            ValueView::List(xs) => tally_seq(xs),
            ValueView::Dict(e) => tally_pairs(e),
            ValueView::Instance { class, state } => tally(*class) + tally(*state),
            ValueView::Reduce { ctor, items, pairs } => tally(*ctor) + tally_seq(items) + tally_pairs(pairs),
            _ => Seq::empty(),
        }
    }
}

pub open spec fn tally_seq(s: Seq<ValueView>) -> Seq<Seq<u8>>
    decreases s, 0nat,
{
    if s.len() == 0 {
        Seq::empty()
    } else {
        tally_seq(s.subrange(0, s.len() - 1)) + tally(s[s.len() - 1])
    }
}

pub open spec fn tally_pairs(s: Seq<(ValueView, ValueView)>) -> Seq<Seq<u8>>
    decreases s, 0nat,
{
    if s.len() == 0 {
        Seq::empty()
    } else {
        let (k, v) = s[s.len() - 1];
        tally_pairs(s.subrange(0, s.len() - 1)) + tally(k) + tally(v)
    }
}

/// How often `k` occurs in `s`.
pub open spec fn occurrences(s: Seq<Seq<u8>>, k: Seq<u8>) -> nat
    decreases s.len(),
{
    if s.len() == 0 {
        0
    } else {
        occurrences(s.drop_last(), k) + if s.last() == k { 1nat } else { 0nat }
    }
}

/// Resharing state: the slot given to each key so far, and the next slot.
pub struct ShareState {
    pub slots: Seq<(Seq<u8>, u32)>,
    pub next: nat,
}

/// The slot given to `k`.
pub open spec fn slot_of(slots: Seq<(Seq<u8>, u32)>, k: Seq<u8>) -> Option<u32>
    decreases slots.len(),
{
    if slots.len() == 0 {
        None
    } else if slots.last().0 == k {
        Some(slots.last().1)
    } else {
        slot_of(slots.drop_last(), k)
    }
}

/// `v` rebuilt with every shareable node whose key occurs at least twice in
/// `keys` shared: its first occurrence becomes a `Shared` store in the next
/// slot, later ones `Ref`s to it. A stream is kept as it is: nothing is
/// shared across its boundary. Traversal follows the encoder's order
/// (dict value before key; reduce pairs key before value), so every store
/// precedes its refs.
pub open spec fn rebuilt(v: ValueView, keys: Seq<Seq<u8>>, st: ShareState) -> (ShareState, ValueView)
    decreases v, 1nat,
{
    if shareable(v) {
        match share_key(v) {
            Some(k) => if occurrences(keys, k) >= 2 {
                match slot_of(st.slots, k) {
                    Some(slot) => (st, ValueView::Ref(slot)),
                    None => (
                        ShareState { slots: st.slots.push((k, st.next as u32)), next: st.next + 1 },
                        ValueView::Shared { slot: st.next as u32, value: Box::new(v) },
                    ),
                }
            } else {
                (st, v)
            },
            None => (st, v),
        }
    } else {
        match v {
            ValueView::Tuple(xs) => {
                let (st2, ys) = rebuilt_seq(xs, keys, st);
                (st2, ValueView::Tuple(ys))
            },
            ValueView::List(xs) => {
                let (st2, ys) = rebuilt_seq(xs, keys, st);
                (st2, ValueView::List(ys))
            },
            ValueView::Dict(e) => {
                let (st2, ys) = rebuilt_pairs(e, keys, st, true);
                (st2, ValueView::Dict(ys))
            },
            ValueView::Instance { class, state } => {
                let (st1, c) = rebuilt(*class, keys, st);
                let (st2, s) = rebuilt(*state, keys, st1);
                (st2, ValueView::Instance { class: Box::new(c), state: Box::new(s) })
            },
            ValueView::Reduce { ctor, items, pairs } => {
                let (st1, c) = rebuilt(*ctor, keys, st);
                let (st2, i) = rebuilt_seq(items, keys, st1);
                let (st3, p) = rebuilt_pairs(pairs, keys, st2, false);
                (st3, ValueView::Reduce { ctor: Box::new(c), items: i, pairs: p })
            },
            _ => (st, v),
        }
    }
}

pub open spec fn rebuilt_seq(s: Seq<ValueView>, keys: Seq<Seq<u8>>, st: ShareState) -> (ShareState, Seq<ValueView>)
    decreases s, 0nat,
{
    if s.len() == 0 {
        (st, Seq::empty())
    } else {
        let (st1, a) = rebuilt_seq(s.subrange(0, s.len() - 1), keys, st);
        let (st2, x) = rebuilt(s[s.len() - 1], keys, st1);
        (st2, a.push(x))
    }
}

/// Pairs rebuilt value first (`value_first`) or key first.
pub open spec fn rebuilt_pairs(s: Seq<(ValueView, ValueView)>, keys: Seq<Seq<u8>>, st: ShareState, value_first: bool) -> (ShareState, Seq<(ValueView, ValueView)>)
    decreases s, 0nat,
{
    if s.len() == 0 {
        (st, Seq::empty())
    } else {
        let (st1, a) = rebuilt_pairs(s.subrange(0, s.len() - 1), keys, st, value_first);
        let (k, v) = s[s.len() - 1];
        if value_first {
            let (st2, nv) = rebuilt(v, keys, st1);
            let (st3, nk) = rebuilt(k, keys, st2);
            (st3, a.push((nk, nv)))
        } else {
            let (st2, nk) = rebuilt(k, keys, st1);
            let (st3, nv) = rebuilt(v, keys, st2);
            (st3, a.push((nk, nv)))
        }
    }
}

/// The canonical, compactly shared copy of `root`: its sharing inlined,
/// then every repeated shareable node shared, slots numbered from 1 in the
/// encoder's traversal order.
pub open spec fn spec_reshare(root: ValueView) -> Option<ValueView> {
    match spec_inline(root) {
        Some(w) => Some(rebuilt(w, tally(w), ShareState { slots: Seq::empty(), next: 1 }).1),
        None => None,
    }
}

fn is_immutable(v: &Value) -> (r: bool)
    ensures
        r == immutable(v@),
    decreases v, 1nat,
{
    match v {
        Value::Nil | Value::Bool(_) | Value::Int(_) | Value::Float(_) | Value::Long(_) | Value::Bytes(_)
        | Value::Str(_) | Value::StrUcs2(_) | Value::StrTable(_) | Value::Global(_) => true,
        Value::Tuple(xs) => all_immutable_items(xs),
        _ => false,
    }
}

fn all_immutable_items(xs: &Vec<Value>) -> (r: bool)
    ensures
        r == all_immutable(model_seq(xs@)),
    decreases xs, 0nat,
{
    proof {
        lemma_model_seq(xs@);
    }
    let mut i: usize = 0;
    while i < xs.len()
        invariant
            i <= xs.len(),
            model_seq(xs@).len() == xs@.len(),
            forall|j: int| 0 <= j < xs@.len() ==> #[trigger] model_seq(xs@)[j] == model(xs@[j]),
            forall|j: int| 0 <= j < i ==> immutable(#[trigger] model_seq(xs@)[j]),
        decreases xs.len() - i,
    {
        if !is_immutable(&xs[i]) {
            assert(!immutable(model_seq(xs@)[i as int]));
            return false;
        }
        i = i + 1;
    }
    true
}

fn is_shareable(v: &Value) -> (r: bool)
    ensures
        r == shareable(v@),
{
    match v {
        Value::Bytes(b) => b.len() >= 2,
        Value::Long(_) | Value::Global(_) => true,
        Value::Tuple(xs) => {
            proof {
                lemma_model_seq(xs@);
            }
            xs.len() > 0 && all_immutable_items(xs)
        },
        _ => false,
    }
}

/// The structural key of a node: its own wire encoding, `None` where it does
/// not encode.
fn key_of(v: &Value) -> (r: Option<Vec<u8>>)
    ensures
        match r {
            Some(k) => share_key(v@) == Some(k@),
            None => share_key(v@) is None,
        },
{
    match crate::encode::encode(v) {
        Ok(b) => Some(b),
        Err(_) => None,
    }
}

fn bytes_eq(a: &Vec<u8>, b: &Vec<u8>) -> (r: bool)
    ensures
        r == (a@ == b@),
{
    if a.len() != b.len() {
        return false;
    }
    let mut i: usize = 0;
    while i < a.len()
        invariant
            i <= a.len(),
            a.len() == b.len(),
            forall|j: int| 0 <= j < i ==> a@[j] == b@[j],
        decreases a.len() - i,
    {
        if a[i] != b[i] {
            return false;
        }
        i = i + 1;
    }
    assert(a@ =~= b@);
    true
}

/// Rebuilding hands out at most one slot per shareable node visited.
pub proof fn lemma_rebuilt_next(v: ValueView, keys: Seq<Seq<u8>>, st: ShareState)
    ensures
        st.next <= rebuilt(v, keys, st).0.next <= st.next + tally(v).len(),
    decreases v, 1nat,
{
    if !shareable(v) {
        match v {
            ValueView::Tuple(xs) => lemma_rebuilt_seq_next(xs, keys, st),
            ValueView::List(xs) => lemma_rebuilt_seq_next(xs, keys, st),
            ValueView::Dict(e) => lemma_rebuilt_pairs_next(e, keys, st, true),
            ValueView::Instance { class, state } => {
                lemma_rebuilt_next(*class, keys, st);
                lemma_rebuilt_next(*state, keys, rebuilt(*class, keys, st).0);
            },
            ValueView::Reduce { ctor, items, pairs } => {
                lemma_rebuilt_next(*ctor, keys, st);
                let st1 = rebuilt(*ctor, keys, st).0;
                lemma_rebuilt_seq_next(items, keys, st1);
                let st2 = rebuilt_seq(items, keys, st1).0;
                lemma_rebuilt_pairs_next(pairs, keys, st2, false);
            },
            _ => {},
        }
    }
}

pub proof fn lemma_rebuilt_seq_next(s: Seq<ValueView>, keys: Seq<Seq<u8>>, st: ShareState)
    ensures
        st.next <= rebuilt_seq(s, keys, st).0.next <= st.next + tally_seq(s).len(),
    decreases s, 0nat,
{
    if s.len() > 0 {
        let init = s.subrange(0, s.len() - 1);
        lemma_rebuilt_seq_next(init, keys, st);
        lemma_rebuilt_next(s[s.len() - 1], keys, rebuilt_seq(init, keys, st).0);
    }
}

pub proof fn lemma_rebuilt_pairs_next(s: Seq<(ValueView, ValueView)>, keys: Seq<Seq<u8>>, st: ShareState, value_first: bool)
    ensures
        st.next <= rebuilt_pairs(s, keys, st, value_first).0.next <= st.next + tally_pairs(s).len(),
    decreases s, 0nat,
{
    if s.len() > 0 {
        let init = s.subrange(0, s.len() - 1);
        lemma_rebuilt_pairs_next(init, keys, st, value_first);
        let st1 = rebuilt_pairs(init, keys, st, value_first).0;
        let (k, v) = s[s.len() - 1];
        if value_first {
            lemma_rebuilt_next(v, keys, st1);
            lemma_rebuilt_next(k, keys, rebuilt(v, keys, st1).0);
        } else {
            lemma_rebuilt_next(k, keys, st1);
            lemma_rebuilt_next(v, keys, rebuilt(k, keys, st1).0);
        }
    }
}

/// The counts table agrees with the keys seen: keys are distinct, each with
/// its number of occurrences capped at 2, and every seen key is present.
pub open spec fn counts_ok(c: Seq<(Seq<u8>, u8)>, seen: Seq<Seq<u8>>) -> bool {
    &&& forall|i: int, j: int| 0 <= i < j < c.len() ==> #[trigger] c[i].0 != #[trigger] c[j].0
    &&& forall|i: int|
        0 <= i < c.len() ==> #[trigger] c[i].1 as nat == if occurrences(seen, c[i].0) >= 2 {
            2nat
        } else {
            occurrences(seen, c[i].0)
        }
    &&& forall|k: Seq<u8>| occurrences(seen, k) > 0 ==> exists|i: int| 0 <= i < c.len() && #[trigger] c[i].0 == k
}

pub open spec fn counts_view(c: Seq<(Vec<u8>, u8)>) -> Seq<(Seq<u8>, u8)> {
    c.map_values(|e: (Vec<u8>, u8)| (e.0@, e.1))
}

proof fn lemma_occ_push(seen: Seq<Seq<u8>>, k: Seq<u8>)
    ensures
        forall|x: Seq<u8>| #[trigger] occurrences(seen.push(k), x) == occurrences(seen, x) + if x == k { 1nat } else { 0nat },
{
    assert(seen.push(k).drop_last() =~= seen);
}

/// Count one more occurrence of `k`.
fn count_key(counts: &mut Vec<(Vec<u8>, u8)>, k: Vec<u8>, Ghost(seen): Ghost<Seq<Seq<u8>>>)
    requires
        counts_ok(counts_view(old(counts)@), seen),
    ensures
        counts_ok(counts_view(final(counts)@), seen.push(k@)),
{
    let ghost c0 = counts_view(counts@);
    let ghost s2 = seen.push(k@);
    assert(s2.drop_last() =~= seen);
    proof {
        lemma_occ_push(seen, k@);
    }
    let mut i: usize = 0;
    while i < counts.len()
        invariant
            i <= counts.len(),
            counts_view(counts@) == c0,
            counts_ok(c0, seen),
            s2 == seen.push(k@),
            forall|j: int| 0 <= j < i ==> #[trigger] c0[j].0 != k@,
        decreases counts.len() - i,
    {
        if bytes_eq(&counts[i].0, &k) {
            let old_c = counts[i].1;
            let nc: u8 = if old_c < 2 { old_c + 1 } else { 2 };
            let key = clone_bytes(&counts[i].0);
            counts.set(i, (key, nc));
            proof {
                lemma_occ_push(seen, k@);
                assert(c0[i as int] == (k@, old_c));
                let c1 = counts_view(counts@);
                assert(c1 =~= c0.update(i as int, (k@, nc)));
                assert forall|j: int| 0 <= j < c1.len() implies #[trigger] c1[j].1 as nat == if occurrences(s2, c1[j].0) >= 2 {
                    2nat
                } else {
                    occurrences(s2, c1[j].0)
                } by {
                    if j != i {
                        assert(c1[j] == c0[j]);
                        assert(c0[j].0 != c0[i as int].0);
                    } else {
                        assert(c1[j] == (k@, nc));
                        assert(c0[i as int].1 as nat == if occurrences(seen, k@) >= 2 {
                            2nat
                        } else {
                            occurrences(seen, k@)
                        });
                        assert(occurrences(s2, k@) == occurrences(seen, k@) + 1);
                    }
                }
                assert forall|kk: Seq<u8>| occurrences(s2, kk) > 0 implies exists|j: int| 0 <= j < c1.len() && #[trigger] c1[j].0 == kk by {
                    if kk == k@ {
                        assert(c1[i as int].0 == kk);
                    } else {
                        assert(occurrences(seen, kk) > 0);
                        let j = choose|j: int| 0 <= j < c0.len() && #[trigger] c0[j].0 == kk;
                        assert(c1[j].0 == kk);
                    }
                }
                assert forall|a: int, b: int| 0 <= a < b < c1.len() implies #[trigger] c1[a].0 != #[trigger] c1[b].0 by {
                    assert(c1[a].0 == c0[a].0 && c1[b].0 == c0[b].0);
                }
            }
            return;
        }
        i = i + 1;
    }
    let ghost kv = k@;
    proof {
        assert(occurrences(seen, kv) == 0) by {
            if occurrences(seen, kv) > 0 {
                let j = choose|j: int| 0 <= j < c0.len() && #[trigger] c0[j].0 == kv;
                assert(c0[j].0 != kv);
            }
        }
    }
    counts.push((k, 1u8));
    proof {
        let c1 = counts_view(counts@);
        assert(c1 =~= c0.push((kv, 1u8)));
        assert forall|j: int| 0 <= j < c1.len() implies #[trigger] c1[j].1 as nat == if occurrences(s2, c1[j].0) >= 2 {
            2nat
        } else {
            occurrences(s2, c1[j].0)
        } by {
            if j < c0.len() {
                assert(c1[j] == c0[j]);
            }
        }
        assert forall|kk: Seq<u8>| occurrences(s2, kk) > 0 implies exists|j: int| 0 <= j < c1.len() && #[trigger] c1[j].0 == kk by {
            if kk == kv {
                assert(c1[c0.len() as int].0 == kk);
            } else {
                assert(occurrences(seen, kk) > 0);
                let j = choose|j: int| 0 <= j < c0.len() && #[trigger] c0[j].0 == kk;
                assert(c1[j].0 == kk);
            }
        }
        assert forall|a: int, b: int| 0 <= a < b < c1.len() implies #[trigger] c1[a].0 != #[trigger] c1[b].0 by {
            if b < c0.len() {
                assert(c1[a].0 == c0[a].0 && c1[b].0 == c0[b].0);
            } else {
                assert(c1[a].0 == c0[a].0);
            }
        }
    }
}

fn clone_bytes(b: &Vec<u8>) -> (r: Vec<u8>)
    ensures
        r@ == b@,
{
    b.clone()
}

/// Whether `k` occurs at least twice, by the counts table.
fn repeated(counts: &Vec<(Vec<u8>, u8)>, k: &Vec<u8>, Ghost(seen): Ghost<Seq<Seq<u8>>>) -> (r: bool)
    requires
        counts_ok(counts_view(counts@), seen),
    ensures
        r == (occurrences(seen, k@) >= 2),
{
    let ghost c0 = counts_view(counts@);
    let mut i: usize = 0;
    while i < counts.len()
        invariant
            i <= counts.len(),
            counts_view(counts@) == c0,
            counts_ok(c0, seen),
            forall|j: int| 0 <= j < i ==> #[trigger] c0[j].0 != k@,
        decreases counts.len() - i,
    {
        if bytes_eq(&counts[i].0, k) {
            assert(c0[i as int].0 == k@);
            assert(c0[i as int].1 == counts[i as int].1);
            return counts[i].1 >= 2;
        }
        i = i + 1;
    }
    proof {
        if occurrences(seen, k@) > 0 {
            let j = choose|j: int| 0 <= j < c0.len() && #[trigger] c0[j].0 == k@;
            assert(c0[j].0 != k@);
        }
    }
    false
}


/// Count the keys of `v`'s shareable nodes.
fn tally_into(v: &Value, counts: &mut Vec<(Vec<u8>, u8)>, Ghost(seen): Ghost<Seq<Seq<u8>>>)
    requires
        counts_ok(counts_view(old(counts)@), seen),
    ensures
        counts_ok(counts_view(final(counts)@), seen + tally(v@)),
    decreases v, 1nat,
{
    if is_shareable(v) {
        match key_of(v) {
            Some(k) => {
                count_key(counts, k, Ghost(seen));
                assert(seen + tally(v@) =~= seen.push(share_key(v@)->Some_0));
            },
            None => {
                assert(seen + tally(v@) =~= seen);
            },
        }
        return;
    }
    match v {
        Value::Tuple(xs) => tally_items_into(xs, counts, Ghost(seen)),
        Value::List(xs) => tally_items_into(xs, counts, Ghost(seen)),
        Value::Dict(entries) => tally_pairs_into(entries, counts, Ghost(seen)),
        Value::Instance { class, state } => {
            tally_into(class, counts, Ghost(seen));
            tally_into(state, counts, Ghost(seen + tally(class@)));
            assert(seen + tally(class@) + tally(state@) =~= seen + tally(v@));
        },
        Value::Reduce { ctor, items, pairs } => {
            tally_into(ctor, counts, Ghost(seen));
            tally_items_into(items, counts, Ghost(seen + tally(ctor@)));
            let ghost s1 = seen + tally(ctor@) + tally_seq(model_seq(items@));
            tally_pairs_into(pairs, counts, Ghost(s1));
            assert(s1 + tally_pairs(model_pairs(pairs@)) =~= seen + tally(v@));
        },
        _ => {
            assert(seen + tally(v@) =~= seen);
        },
    }
}

fn tally_items_into(items: &Vec<Value>, counts: &mut Vec<(Vec<u8>, u8)>, Ghost(seen): Ghost<Seq<Seq<u8>>>)
    requires
        counts_ok(counts_view(old(counts)@), seen),
    ensures
        counts_ok(counts_view(final(counts)@), seen + tally_seq(model_seq(items@))),
    decreases items, 0nat,
{
    let ghost ms = model_seq(items@);
    proof {
        lemma_model_seq(items@);
        assert(seen + tally_seq(ms.subrange(0, 0)) =~= seen);
    }
    let mut i: usize = 0;
    while i < items.len()
        invariant
            i <= items.len(),
            ms == model_seq(items@),
            ms.len() == items@.len(),
            forall|j: int| 0 <= j < items@.len() ==> #[trigger] ms[j] == model(items@[j]),
            counts_ok(counts_view(counts@), seen + tally_seq(ms.subrange(0, i as int))),
        decreases items.len() - i,
    {
        let ghost t = ms.subrange(0, i + 1);
        assert(t.subrange(0, t.len() - 1) =~= ms.subrange(0, i as int));
        tally_into(&items[i], counts, Ghost(seen + tally_seq(ms.subrange(0, i as int))));
        assert(seen + tally_seq(ms.subrange(0, i as int)) + tally(model(items@[i as int])) =~= seen
            + tally_seq(t));
        i = i + 1;
    }
    assert(ms.subrange(0, items.len() as int) =~= ms);
}

fn tally_pairs_into(entries: &Vec<(Value, Value)>, counts: &mut Vec<(Vec<u8>, u8)>, Ghost(seen): Ghost<Seq<Seq<u8>>>)
    requires
        counts_ok(counts_view(old(counts)@), seen),
    ensures
        counts_ok(counts_view(final(counts)@), seen + tally_pairs(model_pairs(entries@))),
    decreases entries, 0nat,
{
    let ghost ms = model_pairs(entries@);
    proof {
        lemma_model_pairs(entries@);
        assert(seen + tally_pairs(ms.subrange(0, 0)) =~= seen);
    }
    let mut i: usize = 0;
    while i < entries.len()
        invariant
            i <= entries.len(),
            ms == model_pairs(entries@),
            ms.len() == entries@.len(),
            forall|j: int| 0 <= j < entries@.len() ==> #[trigger] ms[j] == (model(entries@[j].0), model(entries@[j].1)),
            counts_ok(counts_view(counts@), seen + tally_pairs(ms.subrange(0, i as int))),
        decreases entries.len() - i,
    {
        let ghost t = ms.subrange(0, i + 1);
        let ghost s0 = seen + tally_pairs(ms.subrange(0, i as int));
        assert(t.subrange(0, t.len() - 1) =~= ms.subrange(0, i as int));
        tally_into(&entries[i].0, counts, Ghost(s0));
        tally_into(&entries[i].1, counts, Ghost(s0 + tally(model(entries@[i as int].0))));
        assert(s0 + tally(model(entries@[i as int].0)) + tally(model(entries@[i as int].1)) =~= seen
            + tally_pairs(t));
        i = i + 1;
    }
    assert(ms.subrange(0, entries.len() as int) =~= ms);
}

pub open spec fn slots_view(s: Seq<(Vec<u8>, u32)>) -> Seq<(Seq<u8>, u32)> {
    s.map_values(|e: (Vec<u8>, u32)| (e.0@, e.1))
}

/// The slot given to `k`.
fn find_slot(slots: &Vec<(Vec<u8>, u32)>, k: &Vec<u8>) -> (r: Option<u32>)
    ensures
        r == slot_of(slots_view(slots@), k@),
{
    let ghost sv = slots_view(slots@);
    let mut i: usize = slots.len();
    assert(sv.subrange(0, slots.len() as int) =~= sv);
    while i > 0
        invariant
            i <= slots.len(),
            sv == slots_view(slots@),
            slot_of(sv, k@) == slot_of(sv.subrange(0, i as int), k@),
        decreases i,
    {
        let ghost u = sv.subrange(0, i as int);
        assert(u.drop_last() =~= sv.subrange(0, i - 1));
        if bytes_eq(&slots[i - 1].0, k) {
            return Some(slots[i - 1].1);
        }
        i = i - 1;
    }
    None
}

/// The state `rebuilt` starts from and ends in, as exec values.
pub open spec fn share_state(slots: Seq<(Vec<u8>, u32)>, next: u32) -> ShareState {
    ShareState { slots: slots_view(slots), next: next as nat }
}

/// Rebuild `v` sharing repeated shareables, as [`rebuilt`] states it.
fn rebuild(
    v: &Value,
    counts: &Vec<(Vec<u8>, u8)>,
    Ghost(keys): Ghost<Seq<Seq<u8>>>,
    slots: &mut Vec<(Vec<u8>, u32)>,
    next: &mut u32,
) -> (r: Value)
    requires
        counts_ok(counts_view(counts@), keys),
        *old(next) + tally(v@).len() <= u32::MAX,
    ensures
        ({
            let (st, w) = rebuilt(v@, keys, share_state(old(slots)@, *old(next)));
            share_state(final(slots)@, *final(next)) == st && r@ == w
        }),
    decreases v, 1nat,
{
    if is_shareable(v) {
        match key_of(v) {
            Some(k) => {
                if repeated(counts, &k, Ghost(keys)) {
                    match find_slot(slots, &k) {
                        Some(slot) => {
                            return Value::Ref(slot);
                        },
                        None => {
                            let slot = *next;
                            *next = *next + 1;
                            let ghost s0 = slots@;
                            slots.push((k, slot));
                            proof {
                                assert(slots_view(slots@) =~= slots_view(s0).push((share_key(v@)->Some_0, slot)));
                            }
                            return Value::Shared { slot, value: Box::new(clone_value(v)) };
                        },
                    }
                }
                return clone_value(v);
            },
            None => {
                return clone_value(v);
            },
        }
    }
    match v {
        Value::Tuple(xs) => Value::Tuple(rebuild_items(xs, counts, Ghost(keys), slots, next)),
        Value::List(xs) => Value::List(rebuild_items(xs, counts, Ghost(keys), slots, next)),
        Value::Dict(entries) => Value::Dict(rebuild_pairs(entries, counts, Ghost(keys), slots, next, true)),
        Value::Instance { class, state } => {
            proof {
                lemma_rebuilt_next(class@, keys, share_state(slots@, *next));
            }
            let c = rebuild(class, counts, Ghost(keys), slots, next);
            let s = rebuild(state, counts, Ghost(keys), slots, next);
            Value::Instance { class: Box::new(c), state: Box::new(s) }
        },
        Value::Reduce { ctor, items, pairs } => {
            proof {
                lemma_rebuilt_next(ctor@, keys, share_state(slots@, *next));
            }
            let c = rebuild(ctor, counts, Ghost(keys), slots, next);
            proof {
                lemma_rebuilt_seq_next(model_seq(items@), keys, share_state(slots@, *next));
            }
            let i = rebuild_items(items, counts, Ghost(keys), slots, next);
            let p = rebuild_pairs(pairs, counts, Ghost(keys), slots, next, false);
            Value::Reduce { ctor: Box::new(c), items: i, pairs: p }
        },
        _ => clone_value(v),
    }
}

fn rebuild_items(
    items: &Vec<Value>,
    counts: &Vec<(Vec<u8>, u8)>,
    Ghost(keys): Ghost<Seq<Seq<u8>>>,
    slots: &mut Vec<(Vec<u8>, u32)>,
    next: &mut u32,
) -> (r: Vec<Value>)
    requires
        counts_ok(counts_view(counts@), keys),
        *old(next) + tally_seq(model_seq(items@)).len() <= u32::MAX,
    ensures
        ({
            let (st, w) = rebuilt_seq(model_seq(items@), keys, share_state(old(slots)@, *old(next)));
            share_state(final(slots)@, *final(next)) == st && model_seq(r@) == w
        }),
    decreases items, 0nat,
{
    let ghost ms = model_seq(items@);
    let ghost st0 = share_state(slots@, *next);
    proof {
        lemma_model_seq(items@);
        lemma_rebuilt_seq_next(ms, keys, st0);
    }
    let mut out: Vec<Value> = Vec::new();
    let mut i: usize = 0;
    assert(model_seq(out@) =~= Seq::<ValueView>::empty());
    while i < items.len()
        invariant
            i <= items.len(),
            ms == model_seq(items@),
            ms.len() == items@.len(),
            forall|j: int| 0 <= j < items@.len() ==> #[trigger] ms[j] == model(items@[j]),
            counts_ok(counts_view(counts@), keys),
            st0.next + tally_seq(ms).len() <= u32::MAX,
            rebuilt_seq(ms.subrange(0, i as int), keys, st0) == (share_state(slots@, *next), model_seq(out@)),
        decreases items.len() - i,
    {
        let ghost t = ms.subrange(0, i + 1);
        assert(t.subrange(0, t.len() - 1) =~= ms.subrange(0, i as int));
        proof {
            lemma_tally_seq_split(ms, i as int);
            lemma_rebuilt_seq_next(ms.subrange(0, i as int), keys, st0);
        }
        let x = rebuild(&items[i], counts, Ghost(keys), slots, next);
        let ghost prev = out@;
        out.push(x);
        assert(out@.subrange(0, out@.len() - 1) =~= prev);
        i = i + 1;
    }
    assert(ms.subrange(0, items.len() as int) =~= ms);
    out
}

fn rebuild_pairs(
    entries: &Vec<(Value, Value)>,
    counts: &Vec<(Vec<u8>, u8)>,
    Ghost(keys): Ghost<Seq<Seq<u8>>>,
    slots: &mut Vec<(Vec<u8>, u32)>,
    next: &mut u32,
    value_first: bool,
) -> (r: Vec<(Value, Value)>)
    requires
        counts_ok(counts_view(counts@), keys),
        *old(next) + tally_pairs(model_pairs(entries@)).len() <= u32::MAX,
    ensures
        ({
            let (st, w) = rebuilt_pairs(model_pairs(entries@), keys, share_state(old(slots)@, *old(next)), value_first);
            share_state(final(slots)@, *final(next)) == st && model_pairs(r@) == w
        }),
    decreases entries, 0nat,
{
    let ghost ms = model_pairs(entries@);
    let ghost st0 = share_state(slots@, *next);
    proof {
        lemma_model_pairs(entries@);
    }
    let mut out: Vec<(Value, Value)> = Vec::new();
    let mut i: usize = 0;
    assert(model_pairs(out@) =~= Seq::<(ValueView, ValueView)>::empty());
    while i < entries.len()
        invariant
            i <= entries.len(),
            ms == model_pairs(entries@),
            ms.len() == entries@.len(),
            forall|j: int| 0 <= j < entries@.len() ==> #[trigger] ms[j] == (model(entries@[j].0), model(entries@[j].1)),
            counts_ok(counts_view(counts@), keys),
            st0.next + tally_pairs(ms).len() <= u32::MAX,
            rebuilt_pairs(ms.subrange(0, i as int), keys, st0, value_first) == (share_state(slots@, *next), model_pairs(out@)),
        decreases entries.len() - i,
    {
        let ghost t = ms.subrange(0, i + 1);
        assert(t.subrange(0, t.len() - 1) =~= ms.subrange(0, i as int));
        proof {
            lemma_tally_pairs_split(ms, i as int);
            lemma_rebuilt_pairs_next(ms.subrange(0, i as int), keys, st0, value_first);
        }
        let ghost st1 = share_state(slots@, *next);
        let nk: Value;
        let nv: Value;
        if value_first {
            proof {
                lemma_rebuilt_next(model(entries@[i as int].1), keys, st1);
            }
            nv = rebuild(&entries[i].1, counts, Ghost(keys), slots, next);
            nk = rebuild(&entries[i].0, counts, Ghost(keys), slots, next);
        } else {
            proof {
                lemma_rebuilt_next(model(entries@[i as int].0), keys, st1);
            }
            nk = rebuild(&entries[i].0, counts, Ghost(keys), slots, next);
            nv = rebuild(&entries[i].1, counts, Ghost(keys), slots, next);
        }
        let ghost prev = out@;
        out.push((nk, nv));
        assert(out@.subrange(0, out@.len() - 1) =~= prev);
        i = i + 1;
    }
    assert(ms.subrange(0, entries.len() as int) =~= ms);
    out
}

proof fn lemma_tally_seq_split(s: Seq<ValueView>, i: int)
    requires
        0 <= i < s.len(),
    ensures
        tally_seq(s.subrange(0, i)).len() + tally(s[i]).len() <= tally_seq(s).len(),
    decreases s.len(),
{
    let init = s.subrange(0, s.len() - 1);
    if i < s.len() - 1 {
        lemma_tally_seq_split(init, i);
        assert(init.subrange(0, i) =~= s.subrange(0, i));
        assert(init[i] == s[i]);
    } else {
        assert(init =~= s.subrange(0, i));
    }
}

proof fn lemma_tally_pairs_split(s: Seq<(ValueView, ValueView)>, i: int)
    requires
        0 <= i < s.len(),
    ensures
        tally_pairs(s.subrange(0, i)).len() + tally(s[i].0).len() + tally(s[i].1).len() <= tally_pairs(s).len(),
    decreases s.len(),
{
    let init = s.subrange(0, s.len() - 1);
    if i < s.len() - 1 {
        lemma_tally_pairs_split(init, i);
        assert(init.subrange(0, i) =~= s.subrange(0, i));
        assert(init[i] == s[i]);
    } else {
        assert(init =~= s.subrange(0, i));
    }
}

/// The canonical, compactly shared copy of `root`, as [`spec_reshare`]
/// states it. Accepts any tree (existing `Shared`/`Ref` are inlined away
/// first), so it is safe on already-shared input.
pub fn reshare(root: &Value) -> (r: Value)
    requires
        spec_inline(root@) is Some,
        tally(spec_inline(root@)->Some_0).len() < u32::MAX,
    ensures
        spec_reshare(root@) == Some(r@),
{
    let inlined = inline(root);
    let mut counts: Vec<(Vec<u8>, u8)> = Vec::new();
    assert(counts_view(counts@) =~= Seq::<(Seq<u8>, u8)>::empty());
    assert(Seq::<Seq<u8>>::empty() + tally(inlined@) =~= tally(inlined@));
    tally_into(&inlined, &mut counts, Ghost(Seq::empty()));
    let mut slots: Vec<(Vec<u8>, u32)> = Vec::new();
    let mut next: u32 = 1;
    assert(slots_view(slots@) =~= Seq::<(Seq<u8>, u32)>::empty());
    rebuild(&inlined, &counts, Ghost(tally(inlined@)), &mut slots, &mut next)
}

} // verus!
