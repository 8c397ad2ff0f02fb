//! Index-based addressing of nodes in a `Value` tree. Paths are sequences of
//! steps from the root; indices (not keys) because dict keys are arbitrary
//! values (tuples are real keys in these files) and entry order is wire
//! order, which mutations preserve.

use vstd::prelude::*;

use crate::value::{lemma_model_pairs, lemma_model_seq, model, model_pairs, model_seq, Value, ValueView};

verus! {

broadcast use vstd::std_specs::vec::group_vec_axioms;

/// One step from a node to one of its children.
#[derive(Debug, Clone, Copy, PartialEq, Eq, Structural)]
pub enum Step {
    Tuple(usize),
    List(usize),
    DictKey(usize),
    DictValue(usize),
    InstanceClass,
    InstanceState,
    ReduceCtor,
    ReduceItem(usize),
    ReducePairKey(usize),
    ReducePairValue(usize),
    SharedInner,
    StreamInner,
}

/// A path from the root: the steps in order.
pub type NodePath = Vec<Step>;

/// The child of `v` that `s` leads to, if `s` fits `v`'s kind and range.
pub open spec fn spec_child(v: ValueView, s: Step) -> Option<ValueView> {
    match s {
        Step::Tuple(i) => match v {
            ValueView::Tuple(items) => if i < items.len() { Some(items[i as int]) } else { None },
            _ => None,
        },
        Step::List(i) => match v {
            ValueView::List(items) => if i < items.len() { Some(items[i as int]) } else { None },
            _ => None,
        },
        Step::DictKey(i) => match v {
            ValueView::Dict(e) => if i < e.len() { Some(e[i as int].0) } else { None },
            _ => None,
        },
        Step::DictValue(i) => match v {
            ValueView::Dict(e) => if i < e.len() { Some(e[i as int].1) } else { None },
            _ => None,
        },
        Step::InstanceClass => match v {
            ValueView::Instance { class, .. } => Some(*class),
            _ => None,
        },
        Step::InstanceState => match v {
            ValueView::Instance { state, .. } => Some(*state),
            _ => None,
        },
        Step::ReduceCtor => match v {
            ValueView::Reduce { ctor, .. } => Some(*ctor),
            _ => None,
        },
        Step::ReduceItem(i) => match v {
            ValueView::Reduce { items, .. } => if i < items.len() {
                Some(items[i as int])
            } else {
                None
            },
            _ => None,
        },
        Step::ReducePairKey(i) => match v {
            ValueView::Reduce { pairs, .. } => if i < pairs.len() {
                Some(pairs[i as int].0)
            } else {
                None
            },
            _ => None,
        },
        Step::ReducePairValue(i) => match v {
            ValueView::Reduce { pairs, .. } => if i < pairs.len() {
                Some(pairs[i as int].1)
            } else {
                None
            },
            _ => None,
        },
        Step::SharedInner => match v {
            ValueView::Shared { value, .. } => Some(*value),
            _ => None,
        },
        Step::StreamInner => match v {
            ValueView::Stream(inner) => Some(*inner),
            _ => None,
        },
    }
}

/// `v` with the child that `s` leads to replaced by `n` (`v` itself when
/// `s` does not fit `v`).
pub open spec fn spec_with_child(v: ValueView, s: Step, n: ValueView) -> ValueView {
    if spec_child(v, s) is None {
        v
    } else {
        match s {
            Step::Tuple(i) => ValueView::Tuple(v->Tuple_0.update(i as int, n)),
            Step::List(i) => ValueView::List(v->List_0.update(i as int, n)),
            Step::DictKey(i) => ValueView::Dict(
                v->Dict_0.update(i as int, (n, v->Dict_0[i as int].1)),
            ),
            Step::DictValue(i) => ValueView::Dict(
                v->Dict_0.update(i as int, (v->Dict_0[i as int].0, n)),
            ),
            Step::InstanceClass => ValueView::Instance { class: Box::new(n), state: v->state },
            Step::InstanceState => ValueView::Instance { class: v->class, state: Box::new(n) },
            Step::ReduceCtor => ValueView::Reduce { ctor: Box::new(n), items: v->items, pairs: v->pairs },
            Step::ReduceItem(i) => ValueView::Reduce {
                ctor: v->ctor,
                items: v->items.update(i as int, n),
                pairs: v->pairs,
            },
            Step::ReducePairKey(i) => ValueView::Reduce {
                ctor: v->ctor,
                items: v->items,
                pairs: v->pairs.update(i as int, (n, v->pairs[i as int].1)),
            },
            Step::ReducePairValue(i) => ValueView::Reduce {
                ctor: v->ctor,
                items: v->items,
                pairs: v->pairs.update(i as int, (v->pairs[i as int].0, n)),
            },
            Step::SharedInner => ValueView::Shared { slot: v->slot, value: Box::new(n) },
            Step::StreamInner => ValueView::Stream(Box::new(n)),
        }
    }
}

/// The node at `path` below `v`.
pub open spec fn spec_resolve(v: ValueView, path: Seq<Step>) -> Option<ValueView>
    decreases path.len(),
{
    if path.len() == 0 {
        Some(v)
    } else {
        match spec_child(v, path[0]) {
            Some(c) => spec_resolve(c, path.drop_first()),
            None => None,
        }
    }
}

/// `v` with the node at `path` replaced by `n` (`v` itself when `path` does
/// not resolve).
pub open spec fn spec_replace(v: ValueView, path: Seq<Step>, n: ValueView) -> ValueView
    decreases path.len(),
{
    if path.len() == 0 {
        n
    } else {
        match spec_child(v, path[0]) {
            Some(c) => spec_with_child(v, path[0], spec_replace(c, path.drop_first(), n)),
            None => v,
        }
    }
}

/// The child of `v` that `s` leads to.
fn child<'a>(v: &'a Value, s: Step) -> (r: Option<&'a Value>)
    ensures
        match r {
            Some(c) => spec_child(v@, s) == Some(c@),
            None => spec_child(v@, s) is None,
        },
{
    match s {
        Step::Tuple(i) => match v {
            Value::Tuple(items) => {
                proof {
                    lemma_model_seq(items@);
                }
                if i < items.len() {
                    Some(&items[i])
                } else {
                    None
                }
            },
            _ => None,
        },
        Step::List(i) => match v {
            Value::List(items) => {
                proof {
                    lemma_model_seq(items@);
                }
                if i < items.len() {
                    Some(&items[i])
                } else {
                    None
                }
            },
            _ => None,
        },
        Step::DictKey(i) => match v {
            Value::Dict(entries) => {
                proof {
                    lemma_model_pairs(entries@);
                }
                if i < entries.len() {
                    Some(&entries[i].0)
                } else {
                    None
                }
            },
            _ => None,
        },
        Step::DictValue(i) => match v {
            Value::Dict(entries) => {
                proof {
                    lemma_model_pairs(entries@);
                }
                if i < entries.len() {
                    Some(&entries[i].1)
                } else {
                    None
                }
            },
            _ => None,
        },
        Step::InstanceClass => match v {
            Value::Instance { class, .. } => Some(&**class),
            _ => None,
        },
        Step::InstanceState => match v {
            Value::Instance { state, .. } => Some(&**state),
            _ => None,
        },
        Step::ReduceCtor => match v {
            Value::Reduce { ctor, .. } => Some(&**ctor),
            _ => None,
        },
        Step::ReduceItem(i) => match v {
            Value::Reduce { items, .. } => {
                proof {
                    lemma_model_seq(items@);
                }
                if i < items.len() {
                    Some(&items[i])
                } else {
                    None
                }
            },
            _ => None,
        },
        Step::ReducePairKey(i) => match v {
            Value::Reduce { pairs, .. } => {
                proof {
                    lemma_model_pairs(pairs@);
                }
                if i < pairs.len() {
                    Some(&pairs[i].0)
                } else {
                    None
                }
            },
            _ => None,
        },
        Step::ReducePairValue(i) => match v {
            Value::Reduce { pairs, .. } => {
                proof {
                    lemma_model_pairs(pairs@);
                }
                if i < pairs.len() {
                    Some(&pairs[i].1)
                } else {
                    None
                }
            },
            _ => None,
        },
        Step::SharedInner => match v {
            Value::Shared { value, .. } => Some(&**value),
            _ => None,
        },
        Step::StreamInner => match v {
            Value::Stream(inner) => Some(&**inner),
            _ => None,
        },
    }
}

/// The node at `path` below `root`, or `None` where a step does not fit the
/// node it is applied to (wrong kind or index out of range).
pub fn resolve<'a>(root: &'a Value, path: &[Step]) -> (r: Option<&'a Value>)
    ensures
        match r {
            Some(n) => spec_resolve(root@, path@) == Some(n@),
            None => spec_resolve(root@, path@) is None,
        },
{
    let mut cur = root;
    let mut i: usize = 0;
    assert(path@.skip(0) =~= path@);
    while i < path.len()
        invariant
            i <= path.len(),
            spec_resolve(root@, path@) == spec_resolve(cur@, path@.skip(i as int)),
        decreases path.len() - i,
    {
        assert(path@.skip(i as int).drop_first() =~= path@.skip(i + 1));
        assert(path@.skip(i as int)[0] == path@[i as int]);
        match child(cur, path[i]) {
            Some(c) => {
                cur = c;
            },
            None => {
                return None;
            },
        }
        i = i + 1;
    }
    assert(path@.skip(i as int) =~= Seq::<Step>::empty());
    Some(cur)
}


pub proof fn lemma_model_seq_update(s: Seq<Value>, i: int, x: Value)
    requires
        0 <= i < s.len(),
    ensures
        model_seq(s.update(i, x)) == model_seq(s).update(i, model(x)),
{
    lemma_model_seq(s);
    lemma_model_seq(s.update(i, x));
    assert(model_seq(s.update(i, x)) =~= model_seq(s).update(i, model(x)));
}

pub proof fn lemma_model_pairs_update(s: Seq<(Value, Value)>, i: int, x: (Value, Value))
    requires
        0 <= i < s.len(),
    ensures
        model_pairs(s.update(i, x)) == model_pairs(s).update(i, (model(x.0), model(x.1))),
{
    lemma_model_pairs(s);
    lemma_model_pairs(s.update(i, x));
    assert(model_pairs(s.update(i, x)) =~= model_pairs(s).update(i, (model(x.0), model(x.1))));
}

} // verus!
verus! {

/// The child of `v` that `s` leads to, to change in place: whatever it is
/// changed to ends up in `v` at that place.
fn child_mut<'a>(v: &'a mut Value, s: Step) -> (r: Option<&'a mut Value>)
    ensures
        match r {
            Some(c) => spec_child(old(v)@, s) == Some((*c)@) && final(v)@ == spec_with_child(old(v)@, s, (*final(c))@),
            None => spec_child(old(v)@, s) is None && *final(v) == *old(v),
        },
{
    match s {
        Step::Tuple(i) => match v {
            Value::Tuple(items) => {
                if i < items.len() {
                    let ghost old_items = items@;
                    let c = &mut items[i];
                    proof {
                        lemma_model_seq(old_items);
                        lemma_model_seq_update(old_items, i as int, *final(c));
                    }
                    Some(c)
                } else {
                    proof {
                        lemma_model_seq(items@);
                    }
                    None
                }
            },
            _ => None,
        },
        Step::List(i) => match v {
            Value::List(items) => {
                if i < items.len() {
                    let ghost old_items = items@;
                    let c = &mut items[i];
                    proof {
                        lemma_model_seq(old_items);
                        lemma_model_seq_update(old_items, i as int, *final(c));
                    }
                    Some(c)
                } else {
                    proof {
                        lemma_model_seq(items@);
                    }
                    None
                }
            },
            _ => None,
        },
        Step::DictKey(i) => match v {
            Value::Dict(entries) => {
                if i < entries.len() {
                    let ghost old_items = entries@;
                    let e = &mut entries[i];
                    let c = &mut e.0;
                    proof {
                        lemma_model_pairs(old_items);
                        lemma_model_pairs_update(old_items, i as int, (*final(c), old_items[i as int].1));
                    }
                    Some(c)
                } else {
                    proof {
                        lemma_model_pairs(entries@);
                    }
                    None
                }
            },
            _ => None,
        },
        Step::DictValue(i) => match v {
            Value::Dict(entries) => {
                if i < entries.len() {
                    let ghost old_items = entries@;
                    let e = &mut entries[i];
                    let c = &mut e.1;
                    proof {
                        lemma_model_pairs(old_items);
                        lemma_model_pairs_update(old_items, i as int, (old_items[i as int].0, *final(c)));
                    }
                    Some(c)
                } else {
                    proof {
                        lemma_model_pairs(entries@);
                    }
                    None
                }
            },
            _ => None,
        },
        Step::InstanceClass => match v {
            Value::Instance { class, .. } => Some(&mut **class),
            _ => None,
        },
        Step::InstanceState => match v {
            Value::Instance { state, .. } => Some(&mut **state),
            _ => None,
        },
        Step::ReduceCtor => match v {
            Value::Reduce { ctor, .. } => Some(&mut **ctor),
            _ => None,
        },
        Step::ReduceItem(i) => match v {
            Value::Reduce { items, .. } => {
                if i < items.len() {
                    let ghost old_items = items@;
                    let c = &mut items[i];
                    proof {
                        lemma_model_seq(old_items);
                        lemma_model_seq_update(old_items, i as int, *final(c));
                    }
                    Some(c)
                } else {
                    proof {
                        lemma_model_seq(items@);
                    }
                    None
                }
            },
            _ => None,
        },
        Step::ReducePairKey(i) => match v {
            Value::Reduce { pairs, .. } => {
                if i < pairs.len() {
                    let ghost old_items = pairs@;
                    let e = &mut pairs[i];
                    let c = &mut e.0;
                    proof {
                        lemma_model_pairs(old_items);
                        lemma_model_pairs_update(old_items, i as int, (*final(c), old_items[i as int].1));
                    }
                    Some(c)
                } else {
                    proof {
                        lemma_model_pairs(pairs@);
                    }
                    None
                }
            },
            _ => None,
        },
        Step::ReducePairValue(i) => match v {
            Value::Reduce { pairs, .. } => {
                if i < pairs.len() {
                    let ghost old_items = pairs@;
                    let e = &mut pairs[i];
                    let c = &mut e.1;
                    proof {
                        lemma_model_pairs(old_items);
                        lemma_model_pairs_update(old_items, i as int, (old_items[i as int].0, *final(c)));
                    }
                    Some(c)
                } else {
                    proof {
                        lemma_model_pairs(pairs@);
                    }
                    None
                }
            },
            _ => None,
        },
        Step::SharedInner => match v {
            Value::Shared { value, .. } => Some(&mut **value),
            _ => None,
        },
        Step::StreamInner => match v {
            Value::Stream(inner) => Some(&mut **inner),
            _ => None,
        },
    }
}

proof fn lemma_with_same_child(v: ValueView, s: Step)
    requires
        spec_child(v, s) is Some,
    ensures
        spec_with_child(v, s, spec_child(v, s)->Some_0) == v,
{
    match s {
        Step::Tuple(i) => assert(v->Tuple_0.update(i as int, v->Tuple_0[i as int]) =~= v->Tuple_0),
        Step::List(i) => assert(v->List_0.update(i as int, v->List_0[i as int]) =~= v->List_0),
        Step::DictKey(i) => assert(v->Dict_0.update(i as int, (v->Dict_0[i as int].0, v->Dict_0[i as int].1)) =~= v->Dict_0),
        Step::DictValue(i) => assert(v->Dict_0.update(i as int, (v->Dict_0[i as int].0, v->Dict_0[i as int].1)) =~= v->Dict_0),
        Step::ReduceItem(i) => assert(v->items.update(i as int, v->items[i as int]) =~= v->items),
        Step::ReducePairKey(i) => assert(v->pairs.update(i as int, (v->pairs[i as int].0, v->pairs[i as int].1)) =~= v->pairs),
        Step::ReducePairValue(i) => assert(v->pairs.update(i as int, (v->pairs[i as int].0, v->pairs[i as int].1)) =~= v->pairs),
        _ => {},
    }
}

fn resolve_mut_from<'a>(root: &'a mut Value, path: &[Step], k: usize) -> (r: Option<&'a mut Value>)
    requires
        k <= path@.len(),
    ensures
        match r {
            Some(n) => spec_resolve(old(root)@, path@.skip(k as int)) == Some((*n)@) && final(root)@ == spec_replace(
                old(root)@,
                path@.skip(k as int),
                (*final(n))@,
            ),
            None => spec_resolve(old(root)@, path@.skip(k as int)) is None && final(root)@ == old(root)@,
        },
    decreases path@.len() - k,
{
    if k == path.len() {
        assert(path@.skip(k as int).len() == 0);
        return Some(root);
    }
    let ghost rest = path@.skip(k as int);
    assert(rest[0] == path@[k as int]);
    assert(rest.drop_first() =~= path@.skip(k + 1));
    let ghost before = root@;
    match child_mut(root, path[k]) {
        Some(c) => {
            let ghost cb = (*c)@;
            let r = resolve_mut_from(c, path, k + 1);
            proof {
                if r is None {
                    lemma_with_same_child(before, rest[0]);
                }
            }
            r
        },
        None => None,
    }
}

/// The node at `path` below `root`, to change in place, or `None` where a
/// step does not fit the node it is applied to. Whatever the node is changed
/// to ends up in `root` at that path.
pub fn resolve_mut<'a>(root: &'a mut Value, path: &[Step]) -> (r: Option<&'a mut Value>)
    ensures
        match r {
            Some(n) => spec_resolve(old(root)@, path@) == Some((*n)@) && final(root)@ == spec_replace(
                old(root)@,
                path@,
                (*final(n))@,
            ),
            None => spec_resolve(old(root)@, path@) is None && final(root)@ == old(root)@,
        },
{
    assert(path@.skip(0) =~= path@);
    resolve_mut_from(root, path, 0)
}

} // verus!
