//! Reading an account's overview back out as a pack: the export half of
//! pack import/export, with warnings for what the pack format cannot say.

use vstd::prelude::*;
use vstd::string::StringExecFns;

use crate::batch::{find_key, find_key_exec, lemma_find_key_from};
use crate::container::Pairs;
use crate::overview_pack::{
    color_name, join_surface_key, lemma_node_seq, node_model, node_seq, spec_color_name, spec_join_surface_key, Node,
    NodeView, Pack, PackView,
};
use crate::overview_presets::{text_of, text_of_exec};
use crate::overview_states::{overview_bool_keys, overview_bool_names};
use crate::overview_tabs::kb;
use crate::parse::{chars_of, debug_quoted, decimal, decimal_text, quoted};
use crate::reshare::spec_inline;
use crate::value::{lemma_model_pairs, lemma_model_seq, model, model_pairs, model_seq, Value, ValueView};

verus! {

broadcast use vstd::std_specs::vec::group_vec_axioms;

// ---------------------------------------------------------------------------
// Stable sorting by a key.
// ---------------------------------------------------------------------------

/// `x` placed into `s` after every entry whose key does not come after its
/// own: the step of a stable insertion sort.
pub open spec fn ins_by<K, T>(s: Seq<(K, T)>, x: (K, T), lt: spec_fn(K, K) -> bool) -> Seq<(K, T)>
    decreases s.len(),
{
    if s.len() == 0 {
        seq![x]
    } else if !lt(x.0, s.last().0) {
        s.push(x)
    } else {
        ins_by(s.drop_last(), x, lt).push(s.last())
    }
}

/// `s` sorted by key with `lt`, entries with equal keys kept in their order.
pub open spec fn sorted_stably<K, T>(s: Seq<(K, T)>, lt: spec_fn(K, K) -> bool) -> Seq<(K, T)>
    decreases s.len(),
{
    if s.len() == 0 {
        s
    } else {
        ins_by(sorted_stably(s.drop_last(), lt), s.last(), lt)
    }
}

pub open spec fn text_lt_fn() -> spec_fn(Seq<char>, Seq<char>) -> bool {
    |a: Seq<char>, b: Seq<char>| crate::overview_presets::text_lt(a, b)
}

pub open spec fn int_lt_fn() -> spec_fn(i64, i64) -> bool {
    |a: i64, b: i64| a < b
}

/// The entries of a keyed list without their keys.
pub open spec fn keys_dropped<K>(s: Seq<(K, NodeView)>) -> Seq<NodeView> {
    s.map_values(|e: (K, NodeView)| e.1)
}

proof fn lemma_ins_at<K, T>(s: Seq<(K, T)>, x: (K, T), lt: spec_fn(K, K) -> bool, p: int)
    requires
        0 <= p <= s.len(),
        forall|q: int| p <= q < s.len() ==> lt(x.0, #[trigger] s[q].0),
        p == 0 || !lt(x.0, s[p - 1].0),
    ensures
        ins_by(s, x, lt) == s.insert(p, x),
    decreases s.len(),
{
    if s.len() == 0 {
        assert(s.insert(p, x) =~= seq![x]);
    } else if p == s.len() {
        assert(s.insert(p, x) =~= s.push(x));
    } else {
        let dl = s.drop_last();
        assert(lt(x.0, s[s.len() - 1].0));
        assert forall|q: int| p <= q < dl.len() implies lt(x.0, #[trigger] dl[q].0) by {
            assert(dl[q] == s[q]);
        }
        if p > 0 {
            assert(dl[p - 1] == s[p - 1]);
        }
        lemma_ins_at(dl, x, lt, p);
        assert(dl.insert(p, x).push(s.last()) =~= s.insert(p, x));
    }
}

pub open spec fn kview(s: Seq<(Vec<char>, Node)>) -> Seq<(Seq<char>, NodeView)> {
    s.map_values(|e: (Vec<char>, Node)| (e.0@, node_model(e.1)))
}

pub open spec fn iview(s: Seq<(i64, Node)>) -> Seq<(i64, NodeView)> {
    s.map_values(|e: (i64, Node)| (e.0, node_model(e.1)))
}

/// `v` sorted stably by its text keys.
fn sort_text_keyed(v: Vec<(Vec<char>, Node)>) -> (r: Vec<(Vec<char>, Node)>)
    ensures
        kview(r@) == sorted_stably(kview(v@), text_lt_fn()),
{
    let ghost orig = kview(v@);
    let mut v = v;
    let mut r: Vec<(Vec<char>, Node)> = Vec::new();
    let ghost mut i: int = 0;
    assert(orig.take(0) =~= Seq::<(Seq<char>, NodeView)>::empty());
    assert(kview(r@) =~= Seq::<(Seq<char>, NodeView)>::empty());
    assert(kview(v@) =~= orig.skip(0));
    while v.len() > 0
        invariant
            0 <= i <= orig.len(),
            kview(r@) == sorted_stably(orig.take(i), text_lt_fn()),
            kview(v@) == orig.skip(i),
        decreases v.len(),
    {
        let ghost vb = v@;
        let x = v.remove(0);
        proof {
            assert(kview(vb).len() == vb.len());
            assert(x == vb[0]);
            assert(kview(vb)[0] == orig.skip(i)[0]);
            assert(orig[i] == (x.0@, node_model(x.1)));
            assert forall|j: int| 0 <= j < v@.len() implies #[trigger] kview(v@)[j] == orig.skip(i + 1)[j] by {
                assert(v@[j] == vb[j + 1]);
                assert(kview(vb)[j + 1] == orig.skip(i)[j + 1]);
            }
            assert(kview(v@) =~= orig.skip(i + 1));
        }
        let mut p: usize = r.len();
        while p > 0 && crate::overview_presets::text_lt_exec(&x.0, &r[p - 1].0)
            invariant
                p <= r@.len(),
                forall|q: int| p <= q < r@.len() ==> crate::overview_presets::text_lt(x.0@, #[trigger] r@[q].0@),
            decreases p,
        {
            p = p - 1;
        }
        let ghost rb = r@;
        proof {
            let k = kview(rb);
            assert forall|q: int| p <= q < k.len() implies (text_lt_fn())((x.0@, node_model(x.1)).0, #[trigger] k[q].0) by {
                assert(k[q].0 == rb[q].0@);
            }
            if p > 0 {
                assert(k[p - 1].0 == rb[p - 1].0@);
            }
            lemma_ins_at(k, (x.0@, node_model(x.1)), text_lt_fn(), p as int);
            assert(orig.take(i + 1).drop_last() =~= orig.take(i));
            assert(orig.take(i + 1).last() == orig[i]);
        }
        r.insert(p, x);
        proof {
            assert(kview(r@) =~= kview(rb).insert(p as int, (x.0@, node_model(x.1))));
            i = i + 1;
        }
    }
    assert(orig.take(i) =~= orig);
    r
}

/// `v` sorted stably by its integer keys.
fn sort_int_keyed(v: Vec<(i64, Node)>) -> (r: Vec<(i64, Node)>)
    ensures
        iview(r@) == sorted_stably(iview(v@), int_lt_fn()),
{
    let ghost orig = iview(v@);
    let mut v = v;
    let mut r: Vec<(i64, Node)> = Vec::new();
    let ghost mut i: int = 0;
    assert(orig.take(0) =~= Seq::<(i64, NodeView)>::empty());
    assert(iview(r@) =~= Seq::<(i64, NodeView)>::empty());
    assert(iview(v@) =~= orig.skip(0));
    while v.len() > 0
        invariant
            0 <= i <= orig.len(),
            iview(r@) == sorted_stably(orig.take(i), int_lt_fn()),
            iview(v@) == orig.skip(i),
        decreases v.len(),
    {
        let ghost vb = v@;
        let x = v.remove(0);
        proof {
            assert(iview(vb).len() == vb.len());
            assert(x == vb[0]);
            assert(iview(vb)[0] == orig.skip(i)[0]);
            assert(orig[i] == (x.0, node_model(x.1)));
            assert forall|j: int| 0 <= j < v@.len() implies #[trigger] iview(v@)[j] == orig.skip(i + 1)[j] by {
                assert(v@[j] == vb[j + 1]);
                assert(iview(vb)[j + 1] == orig.skip(i)[j + 1]);
            }
            assert(iview(v@) =~= orig.skip(i + 1));
        }
        let mut p: usize = r.len();
        while p > 0 && x.0 < r[p - 1].0
            invariant
                p <= r@.len(),
                forall|q: int| p <= q < r@.len() ==> x.0 < #[trigger] r@[q].0,
            decreases p,
        {
            p = p - 1;
        }
        let ghost rb = r@;
        proof {
            let k = iview(rb);
            assert forall|q: int| p <= q < k.len() implies (int_lt_fn())((x.0, node_model(x.1)).0, #[trigger] k[q].0) by {
                assert(k[q].0 == rb[q].0);
            }
            if p > 0 {
                assert(k[p - 1].0 == rb[p - 1].0);
            }
            lemma_ins_at(k, (x.0, node_model(x.1)), int_lt_fn(), p as int);
            assert(orig.take(i + 1).drop_last() =~= orig.take(i));
            assert(orig.take(i + 1).last() == orig[i]);
        }
        r.insert(p, x);
        proof {
            assert(iview(r@) =~= iview(rb).insert(p as int, (x.0, node_model(x.1))));
            i = i + 1;
        }
    }
    assert(orig.take(i) =~= orig);
    r
}

proof fn lemma_node_seq_push(s: Seq<Node>, x: Node)
    ensures
        node_seq(s.push(x)) == node_seq(s).push(node_model(x)),
{
    assert(s.push(x).subrange(0, s.len() as int) =~= s);
}

/// The entries of a text-keyed list, keys dropped.
fn drop_text_keys(v: Vec<(Vec<char>, Node)>) -> (r: Vec<Node>)
    ensures
        node_seq(r@) == keys_dropped(kview(v@)),
{
    let ghost orig = kview(v@);
    let mut v = v;
    let mut r: Vec<Node> = Vec::new();
    let ghost mut i: int = 0;
    assert(kview(v@) =~= orig.skip(0));
    assert(keys_dropped(orig.take(0)) =~= Seq::<NodeView>::empty());
    while v.len() > 0
        invariant
            0 <= i <= orig.len(),
            node_seq(r@) == keys_dropped(orig.take(i)),
            kview(v@) == orig.skip(i),
        decreases v.len(),
    {
        let ghost vb = v@;
        let x = v.remove(0);
        proof {
            assert(kview(vb).len() == vb.len());
            assert(x == vb[0]);
            assert(kview(vb)[0] == orig.skip(i)[0]);
            assert(orig[i].1 == node_model(x.1));
            assert forall|j: int| 0 <= j < v@.len() implies #[trigger] kview(v@)[j] == orig.skip(i + 1)[j] by {
                assert(v@[j] == vb[j + 1]);
                assert(kview(vb)[j + 1] == orig.skip(i)[j + 1]);
            }
            assert(kview(v@) =~= orig.skip(i + 1));
            lemma_node_seq_push(r@, x.1);
            assert(keys_dropped(orig.take(i + 1)) =~= keys_dropped(orig.take(i)).push(orig[i].1));
        }
        r.push(x.1);
        proof {
            i = i + 1;
        }
    }
    assert(orig.take(i) =~= orig);
    r
}

/// The entries of an integer-keyed list, keys dropped.
fn drop_int_keys(v: Vec<(i64, Node)>) -> (r: Vec<Node>)
    ensures
        node_seq(r@) == keys_dropped(iview(v@)),
{
    let ghost orig = iview(v@);
    let mut v = v;
    let mut r: Vec<Node> = Vec::new();
    let ghost mut i: int = 0;
    assert(iview(v@) =~= orig.skip(0));
    assert(keys_dropped(orig.take(0)) =~= Seq::<NodeView>::empty());
    while v.len() > 0
        invariant
            0 <= i <= orig.len(),
            node_seq(r@) == keys_dropped(orig.take(i)),
            iview(v@) == orig.skip(i),
        decreases v.len(),
    {
        let ghost vb = v@;
        let x = v.remove(0);
        proof {
            assert(iview(vb).len() == vb.len());
            assert(x == vb[0]);
            assert(iview(vb)[0] == orig.skip(i)[0]);
            assert(orig[i].1 == node_model(x.1));
            assert forall|j: int| 0 <= j < v@.len() implies #[trigger] iview(v@)[j] == orig.skip(i + 1)[j] by {
                assert(v@[j] == vb[j + 1]);
                assert(iview(vb)[j + 1] == orig.skip(i)[j + 1]);
            }
            assert(iview(v@) =~= orig.skip(i + 1));
            lemma_node_seq_push(r@, x.1);
            assert(keys_dropped(orig.take(i + 1)) =~= keys_dropped(orig.take(i)).push(orig[i].1));
        }
        r.push(x.1);
        proof {
            i = i + 1;
        }
    }
    assert(orig.take(i) =~= orig);
    r
}

// ---------------------------------------------------------------------------
// Values as pack nodes.
// ---------------------------------------------------------------------------

/// A value as a pack node: scalars as themselves, text of every kind as a
/// string, a list or tuple as a sequence, a dict as a sequence of
/// `[key, value]` pairs; anything else as null.
pub open spec fn node_of(v: ValueView) -> NodeView
    decreases v, 1nat,
{
    match v {
        ValueView::Nil => NodeView::Null,
        ValueView::Bool(x) => NodeView::Bool(x),
        ValueView::Int(i) => NodeView::Int(i),
        ValueView::Float(f) => NodeView::Float(f),
        ValueView::Bytes(b) => NodeView::Str(crate::text::utf8_lossy(b)),
        ValueView::Str(s) => NodeView::Str(s),
        ValueView::StrUcs2(s) => NodeView::Str(s),
        ValueView::List(items) => NodeView::List(nodes_of(items)),
        ValueView::Tuple(items) => NodeView::List(nodes_of(items)),
        ValueView::Dict(e) => NodeView::List(pair_nodes_of(e)),
        _ => NodeView::Null,
    }
}

pub open spec fn nodes_of(s: Seq<ValueView>) -> Seq<NodeView>
    decreases s, 0nat,
{
    if s.len() == 0 {
        Seq::empty()
    } else {
        nodes_of(s.subrange(0, s.len() - 1)).push(node_of(s[s.len() - 1]))
    }
}

pub open spec fn pair_nodes_of(s: Seq<(ValueView, ValueView)>) -> Seq<NodeView>
    decreases s, 0nat,
{
    if s.len() == 0 {
        Seq::empty()
    } else {
        let (k, v) = s[s.len() - 1];
        pair_nodes_of(s.subrange(0, s.len() - 1)).push(NodeView::List(seq![node_of(k), node_of(v)]))
    }
}

fn list_node(items: Vec<Node>) -> (r: Node)
    ensures
        r@ == NodeView::List(node_seq(items@)),
{
    Node::List(items)
}

/// A value as a pack node, as [`node_of`] states it.
pub fn node_of_exec(v: &Value) -> (r: Node)
    ensures
        r@ == node_of(v@),
    decreases v,
{
    match v {
        Value::Nil => Node::Null,
        Value::Bool(x) => Node::Bool(*x),
        Value::Int(i) => Node::Int(*i),
        Value::Float(f) => Node::Float(*f),
        Value::Bytes(b) => Node::Str(crate::text::lossy_text(b.as_slice())),
        Value::Str(s) => Node::Str(s.clone()),
        Value::StrUcs2(s) => Node::Str(s.clone()),
        Value::List(items) => list_node(nodes_of_exec(items)),
        Value::Tuple(items) => list_node(nodes_of_exec(items)),
        Value::Dict(e) => list_node(pair_nodes_exec(e)),
        _ => Node::Null,
    }
}

fn nodes_of_exec(items: &Vec<Value>) -> (r: Vec<Node>)
    ensures
        node_seq(r@) == nodes_of(model_seq(items@)),
    decreases items,
{
    proof {
        lemma_model_seq(items@);
    }
    let ghost m = model_seq(items@);
    let mut out: Vec<Node> = Vec::new();
    let mut i: usize = 0;
    assert(m.subrange(0, 0) =~= Seq::<ValueView>::empty());
    while i < items.len()
        invariant
            i <= items.len(),
            m == model_seq(items@),
            m.len() == items@.len(),
            forall|j: int| 0 <= j < items@.len() ==> #[trigger] m[j] == model(items@[j]),
            node_seq(out@) == nodes_of(m.subrange(0, i as int)),
        decreases items.len() - i,
    {
        let n = node_of_exec(&items[i]);
        proof {
            lemma_node_seq_push(out@, n);
            assert(m.subrange(0, i + 1).subrange(0, i as int) =~= m.subrange(0, i as int));
            assert(m.subrange(0, i + 1)[i as int] == m[i as int]);
        }
        out.push(n);
        i = i + 1;
    }
    assert(m.subrange(0, m.len() as int) =~= m);
    out
}

fn pair_nodes_exec(e: &Vec<(Value, Value)>) -> (r: Vec<Node>)
    ensures
        node_seq(r@) == pair_nodes_of(model_pairs(e@)),
    decreases e,
{
    proof {
        lemma_model_pairs(e@);
    }
    let ghost m = model_pairs(e@);
    let mut out: Vec<Node> = Vec::new();
    let mut i: usize = 0;
    assert(m.subrange(0, 0) =~= Seq::<(ValueView, ValueView)>::empty());
    while i < e.len()
        invariant
            i <= e.len(),
            m == model_pairs(e@),
            m.len() == e@.len(),
            forall|j: int| 0 <= j < e@.len() ==> #[trigger] m[j] == (model(e@[j].0), model(e@[j].1)),
            node_seq(out@) == pair_nodes_of(m.subrange(0, i as int)),
        decreases e.len() - i,
    {
        let k = node_of_exec(&e[i].0);
        let x = node_of_exec(&e[i].1);
        let mut pair: Vec<Node> = Vec::new();
        pair.push(k);
        pair.push(x);
        proof {
            lemma_node_seq(pair@);
            assert(node_seq(pair@) =~= seq![k@, x@]);
        }
        let n = list_node(pair);
        proof {
            lemma_node_seq_push(out@, n);
            assert(m.subrange(0, i + 1).subrange(0, i as int) =~= m.subrange(0, i as int));
            assert(m.subrange(0, i + 1)[i as int] == m[i as int]);
        }
        out.push(n);
        i = i + 1;
    }
    assert(m.subrange(0, m.len() as int) =~= m);
    out
}


// ---------------------------------------------------------------------------
// Finding the overview's entries.
// ---------------------------------------------------------------------------

/// The value under the bytes key `key`: that of the first entry so keyed.
pub open spec fn found(ov: Pairs, key: Seq<char>) -> Option<ValueView> {
    match find_key(ov, kb(key)) {
        Some(j) => Some(ov[j].1),
        None => None,
    }
}

fn found_exec<'a>(ov: &'a Vec<(Value, Value)>, key: &str) -> (r: Option<&'a Value>)
    ensures
        match r {
            Some(x) => found(model_pairs(ov@), key@) == Some(x@),
            None => found(model_pairs(ov@), key@) is None,
        },
{
    proof {
        lemma_model_pairs(ov@);
    }
    match find_key_exec(ov, key.as_bytes()) {
        Some(j) => Some(&ov[j].1),
        None => None,
    }
}

/// A container payload: a dict, a list or a bool.
pub open spec fn is_payload(e: ValueView) -> bool {
    e is Dict || e is List || e is Bool
}

/// The first payload among `items` at or after `i`.
pub open spec fn first_payload_from(items: Seq<ValueView>, i: int) -> Option<int>
    decreases items.len() - i,
{
    if i < 0 || i >= items.len() {
        None
    } else if is_payload(items[i]) {
        Some(i)
    } else {
        first_payload_from(items, i + 1)
    }
}

/// `v` with a `(timestamp, payload)` wrapper taken off: a tuple gives its
/// first payload, or itself when it has none.
pub open spec fn unwrapped(v: ValueView) -> ValueView {
    match v {
        ValueView::Tuple(items) => match first_payload_from(items, 0) {
            Some(t) => items[t],
            None => v,
        },
        _ => v,
    }
}

fn unwrapped_exec(v: &Value) -> (r: &Value)
    ensures
        r@ == unwrapped(v@),
{
    match v {
        Value::Tuple(items) => {
            proof {
                lemma_model_seq(items@);
            }
            let ghost m = model_seq(items@);
            assert(v@ == ValueView::Tuple(m));
            let mut i: usize = 0;
            while i < items.len()
                invariant
                    i <= items.len(),
                    v@ == ValueView::Tuple(m),
                    m == model_seq(items@),
                    m.len() == items@.len(),
                    forall|j: int| 0 <= j < items@.len() ==> #[trigger] m[j] == model(items@[j]),
                    first_payload_from(m, 0) == first_payload_from(m, i as int),
                decreases items.len() - i,
            {
                let e = &items[i];
                if matches!(e, Value::Dict(_)) || matches!(e, Value::List(_)) || matches!(e, Value::Bool(_)) {
                    assert(is_payload(m[i as int]));
                    assert(first_payload_from(m, i as int) == Some(i as int));
                    assert(e@ == m[i as int]);
                    return e;
                }
                assert(!is_payload(m[i as int]));
                i = i + 1;
            }
            v
        },
        _ => v,
    }
}

/// The account's `overview` container: the dict under that key at the root.
pub open spec fn read_overview(w: ValueView) -> Option<Pairs> {
    match w {
        ValueView::Dict(root) => match found(root, "overview"@) {
            Some(ValueView::Dict(d)) => Some(d),
            _ => None,
        },
        _ => None,
    }
}

// ---------------------------------------------------------------------------
// The sections.
// ---------------------------------------------------------------------------

/// `[key, value]`.
pub open spec fn pair_view(k: Seq<char>, v: NodeView) -> NodeView {
    NodeView::List(seq![NodeView::Str(k), v])
}

fn two(a: Node, b: Node) -> (r: Node)
    ensures
        r@ == NodeView::List(seq![a@, b@]),
{
    let mut v: Vec<Node> = Vec::new();
    v.push(a);
    v.push(b);
    proof {
        lemma_node_seq(v@);
        assert(node_seq(v@) =~= seq![node_model(v@[0]), node_model(v@[1])]);
    }
    list_node(v)
}

/// A list section: the list under `key`, unwrapped, each item as a node.
pub open spec fn list_read(ov: Pairs, key: Seq<char>) -> Option<NodeView> {
    match found(ov, key) {
        Some(raw) => match unwrapped(raw) {
            ValueView::List(items) => Some(NodeView::List(nodes_of(items))),
            _ => None,
        },
        None => None,
    }
}

pub open spec fn opt_view(o: Option<Node>) -> Option<NodeView> {
    match o {
        Some(n) => Some(node_model(n)),
        None => None,
    }
}

fn list_read_exec(ov: &Vec<(Value, Value)>, key: &str) -> (r: Option<Node>)
    ensures
        opt_view(r) == list_read(model_pairs(ov@), key@),
{
    match found_exec(ov, key) {
        Some(raw) => match unwrapped_exec(raw) {
            Value::List(items) => Some(list_node(nodes_of_exec(items))),
            _ => None,
        },
        None => None,
    }
}

/// The text-keyed fields of a dict, each as its key and a `[key, value]`
/// node.
pub open spec fn field_items(f: Pairs) -> Seq<(Seq<char>, NodeView)>
    decreases f.len(),
{
    if f.len() == 0 {
        Seq::empty()
    } else {
        let r = field_items(f.subrange(0, f.len() - 1));
        let (k, v) = f[f.len() - 1];
        match text_of(k) {
            Some(t) => r.push((t, pair_view(t, node_of(v)))),
            None => r,
        }
    }
}

/// A dict's text-keyed fields as `[key, value]` nodes, sorted by key.
pub open spec fn sorted_fields(f: Pairs) -> Seq<(Seq<char>, NodeView)> {
    sorted_stably(field_items(f), text_lt_fn())
}

fn field_items_exec(f: &Vec<(Value, Value)>) -> (r: Vec<(Vec<char>, Node)>)
    ensures
        kview(r@) == field_items(model_pairs(f@)),
{
    proof {
        lemma_model_pairs(f@);
    }
    let ghost m = model_pairs(f@);
    let mut out: Vec<(Vec<char>, Node)> = Vec::new();
    let mut i: usize = 0;
    assert(m.subrange(0, 0) =~= Seq::<(ValueView, ValueView)>::empty());
    assert(kview(out@) =~= Seq::<(Seq<char>, NodeView)>::empty());
    while i < f.len()
        invariant
            i <= f.len(),
            m == model_pairs(f@),
            m.len() == f@.len(),
            forall|j: int| 0 <= j < f@.len() ==> #[trigger] m[j] == (model(f@[j].0), model(f@[j].1)),
            kview(out@) == field_items(m.subrange(0, i as int)),
        decreases f.len() - i,
    {
        proof {
            assert(m.subrange(0, i + 1).subrange(0, i as int) =~= m.subrange(0, i as int));
            assert(m.subrange(0, i + 1)[i as int] == m[i as int]);
        }
        match text_of_exec(&f[i].0) {
            Some(t) => {
                let key = chars_of(t.as_str());
                let n = two(Node::Str(t), node_of_exec(&f[i].1));
                let ghost ob = out@;
                out.push((key, n));
                proof {
                    assert(kview(out@) =~= kview(ob).push((key@, node_model(n))));
                }
            },
            None => {},
        }
        i = i + 1;
    }
    assert(m.subrange(0, m.len() as int) =~= m);
    out
}

fn sorted_fields_exec(f: &Vec<(Value, Value)>) -> (r: Vec<(Vec<char>, Node)>)
    ensures
        kview(r@) == sorted_fields(model_pairs(f@)),
{
    sort_text_keyed(field_items_exec(f))
}

/// The presets, each keyed by its quoted name: `[name, fields]`.
pub open spec fn preset_items(d: Pairs) -> Seq<(Seq<char>, NodeView)>
    decreases d.len(),
{
    if d.len() == 0 {
        Seq::empty()
    } else {
        let r = preset_items(d.subrange(0, d.len() - 1));
        let (k, body) = d[d.len() - 1];
        match (text_of(k), body) {
            (Some(name), ValueView::Dict(f)) => r.push(
                (
                    debug_quoted(name),
                    NodeView::List(seq![NodeView::Str(name), NodeView::List(keys_dropped(sorted_fields(f)))]),
                ),
            ),
            _ => r,
        }
    }
}

/// The `presets` section: each preset with its fields sorted by name, the
/// presets ordered by their names as `{:?}` quotes them (presets of equal
/// name stay in file order).
pub open spec fn presets_read(ov: Pairs) -> Option<NodeView> {
    match found(ov, "overviewProfilePresets"@) {
        Some(raw) => match unwrapped(raw) {
            ValueView::Dict(d) => Some(NodeView::List(keys_dropped(sorted_stably(preset_items(d), text_lt_fn())))),
            _ => None,
        },
        None => None,
    }
}

fn preset_items_exec(d: &Vec<(Value, Value)>) -> (r: Vec<(Vec<char>, Node)>)
    ensures
        kview(r@) == preset_items(model_pairs(d@)),
{
    proof {
        lemma_model_pairs(d@);
    }
    let ghost m = model_pairs(d@);
    let mut out: Vec<(Vec<char>, Node)> = Vec::new();
    let mut i: usize = 0;
    assert(m.subrange(0, 0) =~= Seq::<(ValueView, ValueView)>::empty());
    assert(kview(out@) =~= Seq::<(Seq<char>, NodeView)>::empty());
    while i < d.len()
        invariant
            i <= d.len(),
            m == model_pairs(d@),
            m.len() == d@.len(),
            forall|j: int| 0 <= j < d@.len() ==> #[trigger] m[j] == (model(d@[j].0), model(d@[j].1)),
            kview(out@) == preset_items(m.subrange(0, i as int)),
        decreases d.len() - i,
    {
        proof {
            assert(m.subrange(0, i + 1).subrange(0, i as int) =~= m.subrange(0, i as int));
            assert(m.subrange(0, i + 1)[i as int] == m[i as int]);
        }
        match (text_of_exec(&d[i].0), &d[i].1) {
            (Some(name), Value::Dict(f)) => {
                let key = chars_of(quoted(name.as_str()).as_str());
                let fields = list_node(drop_text_keys(sorted_fields_exec(f)));
                let n = two(Node::Str(name), fields);
                let ghost ob = out@;
                out.push((key, n));
                proof {
                    assert(kview(out@) =~= kview(ob).push((key@, node_model(n))));
                }
            },
            _ => {},
        }
        i = i + 1;
    }
    assert(m.subrange(0, m.len() as int) =~= m);
    out
}

fn presets_read_exec(ov: &Vec<(Value, Value)>) -> (r: Option<Node>)
    ensures
        opt_view(r) == presets_read(model_pairs(ov@)),
{
    match found_exec(ov, "overviewProfilePresets") {
        Some(raw) => match unwrapped_exec(raw) {
            Value::Dict(d) => Some(list_node(drop_text_keys(sort_text_keyed(preset_items_exec(d))))),
            _ => None,
        },
        None => None,
    }
}


// ---------------------------------------------------------------------------
// Tabs.
// ---------------------------------------------------------------------------

/// A field key names `name`; with `alias`, the string-table entry that
/// stands for `name` counts too.
pub open spec fn field_matches(k: ValueView, name: Seq<char>, alias: bool) -> bool {
    text_of(k) == Some(name) || (alias && k == ValueView::StrTable(52))
}

/// The value of the first field at or after `i` whose key matches.
pub open spec fn field_from(f: Pairs, name: Seq<char>, alias: bool, i: int) -> Option<ValueView>
    decreases f.len() - i,
{
    if i < 0 || i >= f.len() {
        None
    } else if field_matches(f[i].0, name, alias) {
        Some(f[i].1)
    } else {
        field_from(f, name, alias, i + 1)
    }
}

pub open spec fn text_or_empty(v: ValueView) -> Seq<char> {
    match text_of(v) {
        Some(t) => t,
        None => Seq::empty(),
    }
}

/// `[name, text]` for a tab field the tab has.
pub open spec fn tab_entry(f: Pairs, name: Seq<char>, alias: bool) -> Seq<NodeView> {
    match field_from(f, name, alias, 0) {
        Some(fv) => seq![pair_view(name, NodeView::Str(text_or_empty(fv)))],
        None => Seq::empty(),
    }
}

/// A tab's exported fields: its bracket, name and preset, as far as it has
/// them. Per-tab column overrides are not exported: pack columns are
/// account-wide.
pub open spec fn tab_body(f: Pairs) -> Seq<NodeView> {
    tab_entry(f, "bracket"@, false) + tab_entry(f, "name"@, true) + tab_entry(f, "overview"@, false)
}

/// The integer-keyed tabs, each keyed by its index: `[index, fields]`.
pub open spec fn tab_items(d: Pairs) -> Seq<(i64, NodeView)>
    decreases d.len(),
{
    if d.len() == 0 {
        Seq::empty()
    } else {
        let r = tab_items(d.subrange(0, d.len() - 1));
        let (k, body) = d[d.len() - 1];
        match (k, body) {
            (ValueView::Int(idx), ValueView::Dict(f)) => r.push(
                (idx, NodeView::List(seq![NodeView::Int(idx), NodeView::List(tab_body(f))])),
            ),
            _ => r,
        }
    }
}

/// Where the tabs are read from: `tabsettings_new`, else the older
/// `tabsettings`.
pub open spec fn tabs_source(ov: Pairs) -> Option<ValueView> {
    match found(ov, "tabsettings_new"@) {
        Some(r) => Some(r),
        None => found(ov, "tabsettings"@),
    }
}

/// The `tabSetup` section, ordered by tab index.
pub open spec fn tabs_read(ov: Pairs) -> Option<NodeView> {
    match tabs_source(ov) {
        Some(raw) => match unwrapped(raw) {
            ValueView::Dict(d) => Some(NodeView::List(keys_dropped(sorted_stably(tab_items(d), int_lt_fn())))),
            _ => None,
        },
        None => None,
    }
}

fn tab_entry_push(out: &mut Vec<Node>, f: &Vec<(Value, Value)>, name: &str, alias: bool)
    ensures
        node_seq(final(out)@) == node_seq(old(out)@) + tab_entry(model_pairs(f@), name@, alias),
{
    proof {
        lemma_model_pairs(f@);
    }
    let ghost m = model_pairs(f@);
    let mut i: usize = 0;
    while i < f.len()
        invariant
            i <= f.len(),
            m == model_pairs(f@),
            m.len() == f@.len(),
            forall|j: int| 0 <= j < f@.len() ==> #[trigger] m[j] == (model(f@[j].0), model(f@[j].1)),
            field_from(m, name@, alias, 0) == field_from(m, name@, alias, i as int),
            out@ == old(out)@,
        decreases f.len() - i,
    {
        let hit = match text_of_exec(&f[i].0) {
            Some(t) => crate::overview_tabs::text_is(&t, name),
            None => false,
        } || (alias && matches!(&f[i].0, Value::StrTable(52)));
        if hit {
            assert(field_matches(m[i as int].0, name@, alias));
            let t = match text_of_exec(&f[i].1) {
                Some(t) => t,
                None => String::new(),
            };
            let n = two(Node::Str(String::from_str(name)), Node::Str(t));
            let ghost ob = out@;
            out.push(n);
            proof {
                lemma_node_seq_push(ob, n);
                assert(field_from(m, name@, alias, i as int) == Some(m[i as int].1));
                assert(node_seq(out@) =~= node_seq(old(out)@) + tab_entry(m, name@, alias));
            }
            return;
        }
        assert(!field_matches(m[i as int].0, name@, alias));
        i = i + 1;
    }
    assert(node_seq(out@) =~= node_seq(old(out)@) + tab_entry(m, name@, alias));
}

fn tab_items_exec(d: &Vec<(Value, Value)>) -> (r: Vec<(i64, Node)>)
    ensures
        iview(r@) == tab_items(model_pairs(d@)),
{
    proof {
        lemma_model_pairs(d@);
    }
    let ghost m = model_pairs(d@);
    let mut out: Vec<(i64, Node)> = Vec::new();
    let mut i: usize = 0;
    assert(m.subrange(0, 0) =~= Seq::<(ValueView, ValueView)>::empty());
    assert(iview(out@) =~= Seq::<(i64, NodeView)>::empty());
    while i < d.len()
        invariant
            i <= d.len(),
            m == model_pairs(d@),
            m.len() == d@.len(),
            forall|j: int| 0 <= j < d@.len() ==> #[trigger] m[j] == (model(d@[j].0), model(d@[j].1)),
            iview(out@) == tab_items(m.subrange(0, i as int)),
        decreases d.len() - i,
    {
        proof {
            assert(m.subrange(0, i + 1).subrange(0, i as int) =~= m.subrange(0, i as int));
            assert(m.subrange(0, i + 1)[i as int] == m[i as int]);
        }
        match (&d[i].0, &d[i].1) {
            (Value::Int(idx), Value::Dict(f)) => {
                let mut body: Vec<Node> = Vec::new();
                assert(node_seq(body@) =~= Seq::<NodeView>::empty());
                tab_entry_push(&mut body, f, "bracket", false);
                tab_entry_push(&mut body, f, "name", true);
                tab_entry_push(&mut body, f, "overview", false);
                let n = two(Node::Int(*idx), list_node(body));
                let ghost ob = out@;
                out.push((*idx, n));
                proof {
                    assert(iview(out@) =~= iview(ob).push((*idx, node_model(n))));
                }
            },
            _ => {},
        }
        i = i + 1;
    }
    assert(m.subrange(0, m.len() as int) =~= m);
    out
}

fn tabs_read_exec(ov: &Vec<(Value, Value)>) -> (r: Option<Node>)
    ensures
        opt_view(r) == tabs_read(model_pairs(ov@)),
{
    let src = match found_exec(ov, "tabsettings_new") {
        Some(r) => Some(r),
        None => found_exec(ov, "tabsettings"),
    };
    match src {
        Some(raw) => match unwrapped_exec(raw) {
            Value::Dict(d) => Some(list_node(drop_int_keys(sort_int_keyed(tab_items_exec(d))))),
            _ => None,
        },
        None => None,
    }
}

// ---------------------------------------------------------------------------
// State colours and blinks.
// ---------------------------------------------------------------------------

/// A `(surface, id)` state key as the pack writes it.
pub open spec fn surface_key_of(k: ValueView) -> Option<Seq<char>> {
    match k {
        ValueView::Tuple(kp) => if kp.len() == 2 {
            match (text_of(kp[0]), kp[1]) {
                (Some(surface), ValueView::Int(id)) => Some(spec_join_surface_key(surface, id as int)),
                _ => None,
            }
        } else {
            None
        },
        _ => None,
    }
}

fn surface_key_exec(k: &Value) -> (r: Option<String>)
    ensures
        match r {
            Some(s) => surface_key_of(k@) == Some(s@),
            None => surface_key_of(k@) is None,
        },
{
    match k {
        Value::Tuple(kp) => {
            proof {
                lemma_model_seq(kp@);
            }
            if kp.len() == 2 {
                match (text_of_exec(&kp[0]), &kp[1]) {
                    (Some(surface), Value::Int(id)) => Some(join_surface_key(surface.as_str(), *id)),
                    _ => None,
                }
            } else {
                None
            }
        },
        _ => None,
    }
}

/// An integer colour component, for comparing with the palette: the named
/// colours' components all lie in `0.0..=1.0`, so only 0 and 1 can match
/// one (as 0.0 and 1.0); any other integer stands as a NaN, which matches
/// nothing.
pub open spec fn int_bits(i: i64) -> u64 {
    if i == 0 {
        0u64
    } else if i == 1 {
        0x3ff0000000000000u64
    } else {
        0x7ff8000000000000u64
    }
}

/// The colour components among `parts`: floats by their bits, integers as
/// [`int_bits`] gives them; anything else is skipped.
pub open spec fn comps(parts: Seq<ValueView>) -> Seq<u64>
    decreases parts.len(),
{
    if parts.len() == 0 {
        Seq::empty()
    } else {
        let r = comps(parts.subrange(0, parts.len() - 1));
        match parts[parts.len() - 1] {
            ValueView::Float(f) => r.push(f),
            ValueView::Int(i) => r.push(int_bits(i)),
            _ => r,
        }
    }
}

fn comps_exec(parts: &Vec<Value>) -> (r: Vec<u64>)
    ensures
        r@ == comps(model_seq(parts@)),
{
    proof {
        lemma_model_seq(parts@);
    }
    let ghost m = model_seq(parts@);
    let mut out: Vec<u64> = Vec::new();
    let mut i: usize = 0;
    assert(m.subrange(0, 0) =~= Seq::<ValueView>::empty());
    while i < parts.len()
        invariant
            i <= parts.len(),
            m == model_seq(parts@),
            m.len() == parts@.len(),
            forall|j: int| 0 <= j < parts@.len() ==> #[trigger] m[j] == model(parts@[j]),
            out@ == comps(m.subrange(0, i as int)),
        decreases parts.len() - i,
    {
        proof {
            assert(m.subrange(0, i + 1).subrange(0, i as int) =~= m.subrange(0, i as int));
            assert(m.subrange(0, i + 1)[i as int] == m[i as int]);
        }
        match &parts[i] {
            Value::Float(f) => out.push(*f),
            Value::Int(x) => {
                let b: u64 = if *x == 0 {
                    0u64
                } else if *x == 1 {
                    0x3ff0000000000000u64
                } else {
                    0x7ff8000000000000u64
                };
                out.push(b);
            },
            _ => {},
        }
        i = i + 1;
    }
    assert(m.subrange(0, m.len() as int) =~= m);
    out
}

/// The named state colours, each keyed by the quoted state key followed by
/// the quoted name: `[key, name]`; and how many colours had no name.
pub open spec fn colour_items(d: Pairs) -> (Seq<(Seq<char>, NodeView)>, nat)
    decreases d.len(),
{
    if d.len() == 0 {
        (Seq::empty(), 0)
    } else {
        let r = colour_items(d.subrange(0, d.len() - 1));
        let (k, val) = d[d.len() - 1];
        match (surface_key_of(k), val) {
            (Some(key), ValueView::Tuple(parts)) => {
                let c = comps(parts);
                if c.len() == 4 {
                    match spec_color_name([c[0], c[1], c[2], c[3]]) {
                        Some(name) => (
                            r.0.push(
                                (
                                    debug_quoted(key) + debug_quoted(name),
                                    NodeView::List(seq![NodeView::Str(key), NodeView::Str(name)]),
                                ),
                            ),
                            r.1,
                        ),
                        None => (r.0, r.1 + 1),
                    }
                } else {
                    r
                }
            },
            _ => r,
        }
    }
}

/// The `stateColorsNameList` section, in the order of the items' `{:?}`
/// text, and the count of colours left out for having no name.
pub open spec fn colours_read(ov: Pairs) -> Option<(NodeView, nat)> {
    match found(ov, "stateColors"@) {
        Some(raw) => match unwrapped(raw) {
            ValueView::Dict(d) => Some(
                (
                    NodeView::List(keys_dropped(sorted_stably(colour_items(d).0, text_lt_fn()))),
                    colour_items(d).1,
                ),
            ),
            _ => None,
        },
        None => None,
    }
}

/// The warning for colours the pack format cannot name.
pub open spec fn colour_warnings(c: Option<(NodeView, nat)>) -> Seq<Seq<char>> {
    match c {
        Some((_, n)) => if n > 0 {
            seq![decimal_text(n as int) + " custom colour(s) had no pack name and were omitted"@]
        } else {
            Seq::empty()
        },
        None => Seq::empty(),
    }
}

fn colour_items_exec(d: &Vec<(Value, Value)>) -> (r: (Vec<(Vec<char>, Node)>, usize))
    ensures
        kview(r.0@) == colour_items(model_pairs(d@)).0,
        r.1 == colour_items(model_pairs(d@)).1,
{
    proof {
        lemma_model_pairs(d@);
    }
    let ghost m = model_pairs(d@);
    let mut out: Vec<(Vec<char>, Node)> = Vec::new();
    let mut omitted: usize = 0;
    let mut i: usize = 0;
    assert(m.subrange(0, 0) =~= Seq::<(ValueView, ValueView)>::empty());
    assert(kview(out@) =~= Seq::<(Seq<char>, NodeView)>::empty());
    while i < d.len()
        invariant
            i <= d.len(),
            m == model_pairs(d@),
            m.len() == d@.len(),
            forall|j: int| 0 <= j < d@.len() ==> #[trigger] m[j] == (model(d@[j].0), model(d@[j].1)),
            kview(out@) == colour_items(m.subrange(0, i as int)).0,
            omitted == colour_items(m.subrange(0, i as int)).1,
            omitted <= i,
        decreases d.len() - i,
    {
        proof {
            assert(m.subrange(0, i + 1).subrange(0, i as int) =~= m.subrange(0, i as int));
            assert(m.subrange(0, i + 1)[i as int] == m[i as int]);
        }
        match (surface_key_exec(&d[i].0), &d[i].1) {
            (Some(key), Value::Tuple(parts)) => {
                let c = comps_exec(parts);
                if c.len() == 4 {
                    match color_name([c[0], c[1], c[2], c[3]]) {
                        Some(name) => {
                            let mut k = chars_of(quoted(key.as_str()).as_str());
                            let mut k2 = chars_of(quoted(name).as_str());
                            k.append(&mut k2);
                            let n = two(Node::Str(key), Node::Str(String::from_str(name)));
                            let ghost ob = out@;
                            out.push((k, n));
                            proof {
                                assert(kview(out@) =~= kview(ob).push((k@, node_model(n))));
                            }
                        },
                        None => {
                            omitted = omitted + 1;
                        },
                    }
                }
            },
            _ => {},
        }
        i = i + 1;
    }
    assert(m.subrange(0, m.len() as int) =~= m);
    (out, omitted)
}

fn colours_read_exec(ov: &Vec<(Value, Value)>) -> (r: Option<(Node, usize)>)
    ensures
        match r {
            Some((n, c)) => colours_read(model_pairs(ov@)) == Some((node_model(n), c as nat)),
            None => colours_read(model_pairs(ov@)) is None,
        },
{
    match found_exec(ov, "stateColors") {
        Some(raw) => match unwrapped_exec(raw) {
            Value::Dict(d) => {
                let (items, omitted) = colour_items_exec(d);
                Some((list_node(drop_text_keys(sort_text_keyed(items))), omitted))
            },
            _ => None,
        },
        None => None,
    }
}

/// The state blinks, each keyed by the quoted state key followed by `f` or
/// `t` (as `false` and `true` order): `[key, on]`.
pub open spec fn blink_items(d: Pairs) -> Seq<(Seq<char>, NodeView)>
    decreases d.len(),
{
    if d.len() == 0 {
        Seq::empty()
    } else {
        let r = blink_items(d.subrange(0, d.len() - 1));
        let (k, val) = d[d.len() - 1];
        match (surface_key_of(k), val) {
            (Some(key), ValueView::Bool(on)) => r.push(
                (
                    debug_quoted(key).push(if on { 't' } else { 'f' }),
                    NodeView::List(seq![NodeView::Str(key), NodeView::Bool(on)]),
                ),
            ),
            _ => r,
        }
    }
}

/// The `stateBlinks` section, in the order of the items' `{:?}` text.
pub open spec fn blinks_read(ov: Pairs) -> Option<NodeView> {
    match found(ov, "stateBlinks"@) {
        Some(raw) => match unwrapped(raw) {
            ValueView::Dict(d) => Some(NodeView::List(keys_dropped(sorted_stably(blink_items(d), text_lt_fn())))),
            _ => None,
        },
        None => None,
    }
}

fn blink_items_exec(d: &Vec<(Value, Value)>) -> (r: Vec<(Vec<char>, Node)>)
    ensures
        kview(r@) == blink_items(model_pairs(d@)),
{
    proof {
        lemma_model_pairs(d@);
    }
    let ghost m = model_pairs(d@);
    let mut out: Vec<(Vec<char>, Node)> = Vec::new();
    let mut i: usize = 0;
    assert(m.subrange(0, 0) =~= Seq::<(ValueView, ValueView)>::empty());
    assert(kview(out@) =~= Seq::<(Seq<char>, NodeView)>::empty());
    while i < d.len()
        invariant
            i <= d.len(),
            m == model_pairs(d@),
            m.len() == d@.len(),
            forall|j: int| 0 <= j < d@.len() ==> #[trigger] m[j] == (model(d@[j].0), model(d@[j].1)),
            kview(out@) == blink_items(m.subrange(0, i as int)),
        decreases d.len() - i,
    {
        proof {
            assert(m.subrange(0, i + 1).subrange(0, i as int) =~= m.subrange(0, i as int));
            assert(m.subrange(0, i + 1)[i as int] == m[i as int]);
        }
        match (surface_key_exec(&d[i].0), &d[i].1) {
            (Some(key), Value::Bool(on)) => {
                let mut k = chars_of(quoted(key.as_str()).as_str());
                k.push(if *on { 't' } else { 'f' });
                let n = two(Node::Str(key), Node::Bool(*on));
                let ghost ob = out@;
                out.push((k, n));
                proof {
                    assert(kview(out@) =~= kview(ob).push((k@, node_model(n))));
                }
            },
            _ => {},
        }
        i = i + 1;
    }
    assert(m.subrange(0, m.len() as int) =~= m);
    out
}

fn blinks_read_exec(ov: &Vec<(Value, Value)>) -> (r: Option<Node>)
    ensures
        opt_view(r) == blinks_read(model_pairs(ov@)),
{
    match found_exec(ov, "stateBlinks") {
        Some(raw) => match unwrapped_exec(raw) {
            Value::Dict(d) => Some(list_node(drop_text_keys(sort_text_keyed(blink_items_exec(d))))),
            _ => None,
        },
        None => None,
    }
}


// ---------------------------------------------------------------------------
// Ship labels and settings.
// ---------------------------------------------------------------------------

/// The value half of a `[key, value]` node; null for any other shape.
pub open spec fn pair_value(n: NodeView) -> NodeView {
    match n {
        NodeView::List(p) => if p.len() == 2 {
            p[1]
        } else {
            NodeView::Null
        },
        _ => NodeView::Null,
    }
}

/// The value of the first field keyed `type` at or after `i`; null when
/// there is none.
pub open spec fn type_from(kv: Seq<(Seq<char>, NodeView)>, i: int) -> NodeView
    decreases kv.len() - i,
{
    if i < 0 || i >= kv.len() {
        NodeView::Null
    } else if kv[i].0 == "type"@ {
        pair_value(kv[i].1)
    } else {
        type_from(kv, i + 1)
    }
}

/// The labels' names in file order, and each label as `[name, fields]`
/// with its fields sorted by key.
pub open spec fn label_parts(items: Seq<ValueView>) -> (Seq<NodeView>, Seq<NodeView>)
    decreases items.len(),
{
    if items.len() == 0 {
        (Seq::empty(), Seq::empty())
    } else {
        let r = label_parts(items.subrange(0, items.len() - 1));
        match items[items.len() - 1] {
            ValueView::Dict(f) => {
                let kv = sorted_fields(f);
                let name = type_from(kv, 0);
                (r.0.push(name), r.1.push(NodeView::List(seq![name, NodeView::List(keys_dropped(kv))])))
            },
            _ => r,
        }
    }
}

/// The ship labels: one ordered list in the file, split into the pack's
/// order list and its name-keyed label list.
pub open spec fn labels_read(ov: Pairs) -> Option<(Seq<NodeView>, Seq<NodeView>)> {
    match found(ov, "shipLabels"@) {
        Some(raw) => match unwrapped(raw) {
            ValueView::List(items) => Some(label_parts(items)),
            _ => None,
        },
        None => None,
    }
}

/// A copy of a node.
pub fn copy_node(n: &Node) -> (r: Node)
    ensures
        r@ == n@,
    decreases n,
{
    match n {
        Node::Null => Node::Null,
        Node::Bool(b) => Node::Bool(*b),
        Node::Int(i) => Node::Int(*i),
        Node::Float(f) => Node::Float(*f),
        Node::Str(s) => Node::Str(s.clone()),
        Node::List(items) => list_node(copy_nodes(items)),
    }
}

fn copy_nodes(items: &Vec<Node>) -> (r: Vec<Node>)
    ensures
        node_seq(r@) == node_seq(items@),
    decreases items,
{
    proof {
        lemma_node_seq(items@);
    }
    let mut out: Vec<Node> = Vec::new();
    let mut i: usize = 0;
    while i < items.len()
        invariant
            i <= items.len(),
            node_seq(items@).len() == items@.len(),
            forall|j: int| 0 <= j < items@.len() ==> #[trigger] node_seq(items@)[j] == node_model(items@[j]),
            node_seq(out@) == node_seq(items@).subrange(0, i as int),
        decreases items.len() - i,
    {
        let c = copy_node(&items[i]);
        proof {
            lemma_node_seq_push(out@, c);
        }
        out.push(c);
        proof {
            assert(node_seq(out@) =~= node_seq(items@).subrange(0, i + 1));
        }
        i = i + 1;
    }
    assert(node_seq(items@).subrange(0, items@.len() as int) =~= node_seq(items@));
    out
}

fn pair_value_exec(n: &Node) -> (r: Node)
    ensures
        r@ == pair_value(n@),
{
    match n {
        Node::List(p) => {
            proof {
                lemma_node_seq(p@);
            }
            if p.len() == 2 {
                copy_node(&p[1])
            } else {
                Node::Null
            }
        },
        _ => Node::Null,
    }
}

fn type_exec(kv: &Vec<(Vec<char>, Node)>) -> (r: Node)
    ensures
        r@ == type_from(kview(kv@), 0),
{
    let ghost k = kview(kv@);
    let ty = chars_of("type");
    let mut i: usize = 0;
    while i < kv.len()
        invariant
            i <= kv@.len(),
            k == kview(kv@),
            ty@ == "type"@,
            type_from(k, 0) == type_from(k, i as int),
        decreases kv@.len() - i,
    {
        assert(k[i as int] == (kv@[i as int].0@, node_model(kv@[i as int].1)));
        if crate::overview_pack::same_text(&kv[i].0, &ty) {
            return pair_value_exec(&kv[i].1);
        }
        i = i + 1;
    }
    Node::Null
}

fn labels_read_exec(ov: &Vec<(Value, Value)>) -> (r: Option<(Vec<Node>, Vec<Node>)>)
    ensures
        match r {
            Some((o, l)) => labels_read(model_pairs(ov@)) == Some((node_seq(o@), node_seq(l@))),
            None => labels_read(model_pairs(ov@)) is None,
        },
{
    match found_exec(ov, "shipLabels") {
        Some(raw) => match unwrapped_exec(raw) {
            Value::List(items) => {
                proof {
                    lemma_model_seq(items@);
                }
                let ghost m = model_seq(items@);
                let mut order: Vec<Node> = Vec::new();
                let mut labels: Vec<Node> = Vec::new();
                let mut i: usize = 0;
                assert(m.subrange(0, 0) =~= Seq::<ValueView>::empty());
                while i < items.len()
                    invariant
                        i <= items.len(),
                        m == model_seq(items@),
                        m.len() == items@.len(),
                        forall|j: int| 0 <= j < items@.len() ==> #[trigger] m[j] == model(items@[j]),
                        label_parts(m.subrange(0, i as int)) == (node_seq(order@), node_seq(labels@)),
                    decreases items.len() - i,
                {
                    proof {
                        assert(m.subrange(0, i + 1).subrange(0, i as int) =~= m.subrange(0, i as int));
                        assert(m.subrange(0, i + 1)[i as int] == m[i as int]);
                    }
                    match &items[i] {
                        Value::Dict(f) => {
                            let kv = sorted_fields_exec(f);
                            let name = type_exec(&kv);
                            let name2 = copy_node(&name);
                            let fields = list_node(drop_text_keys(kv));
                            let label = two(name2, fields);
                            proof {
                                lemma_node_seq_push(order@, name);
                                lemma_node_seq_push(labels@, label);
                            }
                            order.push(name);
                            labels.push(label);
                        },
                        _ => {},
                    }
                    i = i + 1;
                }
                assert(m.subrange(0, m.len() as int) =~= m);
                Some((order, labels))
            },
            _ => None,
        },
        None => None,
    }
}

/// The boolean settings among `names` that the overview holds as a bool,
/// each as `[name, on]`.
pub open spec fn settings_from(ov: Pairs, names: Seq<Seq<char>>) -> Seq<NodeView>
    decreases names.len(),
{
    if names.len() == 0 {
        Seq::empty()
    } else {
        let r = settings_from(ov, names.subrange(0, names.len() - 1));
        let name = names[names.len() - 1];
        match found(ov, name) {
            Some(raw) => match unwrapped(raw) {
                ValueView::Bool(on) => r.push(pair_view(name, NodeView::Bool(on))),
                _ => r,
            },
            None => r,
        }
    }
}

fn settings_exec(ov: &Vec<(Value, Value)>) -> (r: Vec<Node>)
    ensures
        node_seq(r@) == settings_from(model_pairs(ov@), overview_bool_names()),
{
    let names = overview_bool_keys();
    let ghost ns = overview_bool_names();
    let mut out: Vec<Node> = Vec::new();
    let mut i: usize = 0;
    assert(ns.subrange(0, 0) =~= Seq::<Seq<char>>::empty());
    while i < names.len()
        invariant
            i <= names@.len(),
            names@.len() == ns.len(),
            ns == overview_bool_names(),
            forall|j: int| 0 <= j < names@.len() ==> #[trigger] names@[j]@ == ns[j],
            node_seq(out@) == settings_from(model_pairs(ov@), ns.subrange(0, i as int)),
        decreases names@.len() - i,
    {
        proof {
            assert(ns.subrange(0, i + 1).subrange(0, i as int) =~= ns.subrange(0, i as int));
            assert(ns.subrange(0, i + 1)[i as int] == ns[i as int]);
        }
        let name = names[i];
        match found_exec(ov, name) {
            Some(raw) => match unwrapped_exec(raw) {
                Value::Bool(on) => {
                    let n = two(Node::Str(String::from_str(name)), Node::Bool(*on));
                    proof {
                        lemma_node_seq_push(out@, n);
                    }
                    out.push(n);
                },
                _ => {},
            },
            None => {},
        }
        i = i + 1;
    }
    assert(ns.subrange(0, ns.len() as int) =~= ns);
    out
}

// ---------------------------------------------------------------------------
// The pack.
// ---------------------------------------------------------------------------

/// A section, when there is one.
pub open spec fn opt_sec(name: Seq<char>, o: Option<NodeView>) -> Seq<(Seq<char>, NodeView)> {
    match o {
        Some(n) => seq![(name, n)],
        None => Seq::empty(),
    }
}

pub open spec fn labels_order(ov: Pairs) -> Option<NodeView> {
    match labels_read(ov) {
        Some((o, _)) => Some(NodeView::List(o)),
        None => None,
    }
}

pub open spec fn labels_list(ov: Pairs) -> Option<NodeView> {
    match labels_read(ov) {
        Some((_, l)) => Some(NodeView::List(l)),
        None => None,
    }
}

pub open spec fn colour_node(ov: Pairs) -> Option<NodeView> {
    match colours_read(ov) {
        Some((n, _)) => Some(n),
        None => None,
    }
}

pub open spec fn settings_read(ov: Pairs) -> Option<NodeView> {
    if settings_from(ov, overview_bool_names()).len() > 0 {
        Some(NodeView::List(settings_from(ov, overview_bool_names())))
    } else {
        None
    }
}

/// The sections read from the overview `ov`, in the order a pack file lists
/// them.
pub open spec fn read_sections(ov: Pairs) -> Seq<(Seq<char>, NodeView)> {
    opt_sec("backgroundOrder"@, list_read(ov, "backgroundOrder2"@))
        + opt_sec("backgroundStates"@, list_read(ov, "backgroundStates2"@))
        + opt_sec("columnOrder"@, list_read(ov, "overviewColumnOrder"@))
        + opt_sec("flagOrder"@, list_read(ov, "flagOrder2"@))
        + opt_sec("flagStates"@, list_read(ov, "flagStates2"@))
        + opt_sec("overviewColumns"@, list_read(ov, "overviewColumns"@))
        + opt_sec("presets"@, presets_read(ov))
        + opt_sec("shipLabelOrder"@, labels_order(ov))
        + opt_sec("shipLabels"@, labels_list(ov))
        + opt_sec("stateBlinks"@, blinks_read(ov))
        + opt_sec("stateColorsNameList"@, colour_node(ov))
        + opt_sec("tabSetup"@, tabs_read(ov))
        + opt_sec("userSettings"@, settings_read(ov))
}

/// The pack an account's tree `w` exports, and the warnings for what the
/// pack format cannot express. A tree with no overview gives an empty pack.
pub open spec fn spec_read_pack(w: ValueView) -> (PackView, Seq<Seq<char>>) {
    match read_overview(w) {
        None => (PackView { sections: Seq::empty(), ignored: Seq::empty() }, Seq::empty()),
        Some(ov) => (
            PackView { sections: read_sections(ov), ignored: Seq::empty() },
            colour_warnings(colours_read(ov)),
        ),
    }
}

pub open spec fn sections_view(s: Seq<(String, Node)>) -> Seq<(Seq<char>, NodeView)> {
    s.map_values(|e: (String, Node)| (e.0@, e.1@))
}

fn push_sec(secs: &mut Vec<(String, Node)>, name: &str, o: Option<Node>)
    ensures
        sections_view(final(secs)@) == sections_view(old(secs)@) + opt_sec(name@, opt_view(o)),
{
    match o {
        Some(n) => {
            let ghost before = secs@;
            secs.push((String::from_str(name), n));
            proof {
                assert(sections_view(secs@) =~= sections_view(before) + opt_sec(name@, opt_view(o)));
            }
        },
        None => {
            assert(sections_view(secs@) =~= sections_view(secs@) + opt_sec(name@, opt_view(o)));
        },
    }
}

fn read_from(ov: &Vec<(Value, Value)>) -> (r: (Pack, Vec<String>))
    ensures
        r.0@ == (PackView { sections: read_sections(model_pairs(ov@)), ignored: Seq::empty() }),
        r.1@.map_values(|s: String| s@) == colour_warnings(colours_read(model_pairs(ov@))),
{
    let ghost m = model_pairs(ov@);
    let mut secs: Vec<(String, Node)> = Vec::new();
    assert(sections_view(secs@) =~= Seq::<(Seq<char>, NodeView)>::empty());
    push_sec(&mut secs, "backgroundOrder", list_read_exec(ov, "backgroundOrder2"));
    push_sec(&mut secs, "backgroundStates", list_read_exec(ov, "backgroundStates2"));
    push_sec(&mut secs, "columnOrder", list_read_exec(ov, "overviewColumnOrder"));
    push_sec(&mut secs, "flagOrder", list_read_exec(ov, "flagOrder2"));
    push_sec(&mut secs, "flagStates", list_read_exec(ov, "flagStates2"));
    push_sec(&mut secs, "overviewColumns", list_read_exec(ov, "overviewColumns"));
    push_sec(&mut secs, "presets", presets_read_exec(ov));
    let (lo, ll) = match labels_read_exec(ov) {
        Some((o, l)) => (Some(list_node(o)), Some(list_node(l))),
        None => (None, None),
    };
    push_sec(&mut secs, "shipLabelOrder", lo);
    push_sec(&mut secs, "shipLabels", ll);
    push_sec(&mut secs, "stateBlinks", blinks_read_exec(ov));
    let mut warnings: Vec<String> = Vec::new();
    let cn = match colours_read_exec(ov) {
        Some((n, omitted)) => {
            if omitted > 0 {
                let mut w = decimal(omitted as i128);
                w.append(" custom colour(s) had no pack name and were omitted");
                warnings.push(w);
            }
            Some(n)
        },
        None => None,
    };
    push_sec(&mut secs, "stateColorsNameList", cn);
    push_sec(&mut secs, "tabSetup", tabs_read_exec(ov));
    let st = settings_exec(ov);
    let sn = if st.len() > 0 {
        Some(list_node(st))
    } else {
        None
    };
    proof {
        lemma_node_seq(st@);
    }
    push_sec(&mut secs, "userSettings", sn);
    let pack = Pack { sections: secs, ignored: Vec::new() };
    assert(pack@.ignored =~= Seq::<Seq<char>>::empty());
    assert(pack@.sections =~= read_sections(m));
    assert(warnings@.map_values(|s: String| s@) =~= colour_warnings(colours_read(m)));
    (pack, warnings)
}

/// Export the account's overview as a pack, with warnings for what the pack
/// format cannot express. Presets of the same name are left in file order.
pub fn read_pack(v: &Value) -> (r: (Pack, Vec<String>))
    requires
        spec_inline(v@) is Some,
    ensures
        (r.0@, r.1@.map_values(|s: String| s@)) == spec_read_pack(spec_inline(v@)->Some_0),
{
    let w = crate::reshare::inline(v);
    let empty = (Pack { sections: Vec::new(), ignored: Vec::new() }, Vec::new());
    proof {
        assert(empty.0@.sections =~= Seq::<(Seq<char>, NodeView)>::empty());
        assert(empty.0@.ignored =~= Seq::<Seq<char>>::empty());
        assert(empty.1@.map_values(|s: String| s@) =~= Seq::<Seq<char>>::empty());
    }
    match &w {
        Value::Dict(root) => match found_exec(root, "overview") {
            Some(Value::Dict(d)) => read_from(d),
            _ => empty,
        },
        _ => empty,
    }
}


// ---------------------------------------------------------------------------
// Laws.
// ---------------------------------------------------------------------------

proof fn lemma_ins_by_contains<K, T>(s: Seq<(K, T)>, x: (K, T), lt: spec_fn(K, K) -> bool, y: (K, T))
    ensures
        ins_by(s, x, lt).contains(y) <==> (s.contains(y) || y == x),
    decreases s.len(),
{
    if s.len() == 0 {
        assert(seq![x][0] == x);
    } else if !lt(x.0, s.last().0) {
        if s.contains(y) {
            let k = choose|k: int| 0 <= k < s.len() && s[k] == y;
            assert(s.push(x)[k] == y);
        }
        if y == x {
            assert(s.push(x)[s.len() as int] == x);
        }
        if s.push(x).contains(y) {
            let k = choose|k: int| 0 <= k < s.push(x).len() && s.push(x)[k] == y;
            if k < s.len() {
                assert(s[k] == y);
            }
        }
    } else {
        let dl = s.drop_last();
        lemma_ins_by_contains(dl, x, lt, y);
        let r = ins_by(dl, x, lt);
        if s.contains(y) {
            let k = choose|k: int| 0 <= k < s.len() && s[k] == y;
            if k < dl.len() {
                assert(dl[k] == y);
            } else {
                assert(r.push(s.last())[r.len() as int] == y);
            }
        }
        if y == x || dl.contains(y) {
            let k = choose|k: int| 0 <= k < r.len() && r[k] == y;
            assert(r.push(s.last())[k] == y);
        }
        if r.push(s.last()).contains(y) {
            let k = choose|k: int| 0 <= k < r.push(s.last()).len() && r.push(s.last())[k] == y;
            if k < r.len() {
                assert(r[k] == y);
                if dl.contains(y) {
                    let m = choose|m: int| 0 <= m < dl.len() && dl[m] == y;
                    assert(s[m] == y);
                }
            } else {
                assert(s[s.len() - 1] == y);
            }
        }
    }
}

/// Sorting keeps exactly the entries it was given.
pub proof fn lemma_sorted_stably_contains<K, T>(s: Seq<(K, T)>, lt: spec_fn(K, K) -> bool, y: (K, T))
    ensures
        sorted_stably(s, lt).contains(y) <==> s.contains(y),
    decreases s.len(),
{
    if s.len() > 0 {
        let dl = s.drop_last();
        lemma_sorted_stably_contains(dl, lt, y);
        lemma_ins_by_contains(sorted_stably(dl, lt), s.last(), lt, y);
        if s.contains(y) {
            let k = choose|k: int| 0 <= k < s.len() && s[k] == y;
            if k < dl.len() {
                assert(dl[k] == y);
            }
        }
        if dl.contains(y) {
            let k = choose|k: int| 0 <= k < dl.len() && dl[k] == y;
            assert(s[k] == y);
        }
        assert(s[s.len() - 1] == s.last());
    }
}

/// The exported entry a stored blink gives: `[surface_id, flag]` for a
/// `(surface, id)` key and a boolean value, the flag being the one stored.
pub open spec fn stored_blink(e: (ValueView, ValueView)) -> Option<NodeView> {
    match (e.0, e.1) {
        (ValueView::Tuple(kp), ValueView::Bool(b)) => if kp.len() == 2 && text_of(kp[0]) is Some && kp[1] is Int {
            Some(
                NodeView::List(
                    seq![
                        NodeView::Str(spec_join_surface_key(text_of(kp[0])->Some_0, kp[1]->Int_0 as int)),
                        NodeView::Bool(b),
                    ],
                ),
            )
        } else {
            None
        },
        _ => None,
    }
}

proof fn lemma_blink_items_hold(d: Pairs, x: NodeView)
    ensures
        (exists|i: int| 0 <= i < blink_items(d).len() && #[trigger] blink_items(d)[i].1 == x) <==> (exists|k: int|
            0 <= k < d.len() && #[trigger] stored_blink(d[k]) == Some(x)),
    decreases d.len(),
{
    if d.len() > 0 {
        let p = d.subrange(0, d.len() - 1);
        lemma_blink_items_hold(p, x);
        let r = blink_items(p);
        let bi = blink_items(d);
        let last = d[d.len() - 1];
        assert forall|k: int| 0 <= k < p.len() implies p[k] == d[k] by {}
        if exists|i: int| 0 <= i < bi.len() && #[trigger] bi[i].1 == x {
            let i = choose|i: int| 0 <= i < bi.len() && #[trigger] bi[i].1 == x;
            if i < r.len() {
                assert(bi[i] == r[i]);
                assert(exists|i2: int| 0 <= i2 < r.len() && #[trigger] r[i2].1 == x);
                let k = choose|k: int| 0 <= k < p.len() && #[trigger] stored_blink(p[k]) == Some(x);
                assert(stored_blink(d[k]) == Some(x));
            } else {
                assert(stored_blink(d[d.len() - 1]) == Some(x));
            }
        }
        if exists|k: int| 0 <= k < d.len() && #[trigger] stored_blink(d[k]) == Some(x) {
            let k = choose|k: int| 0 <= k < d.len() && #[trigger] stored_blink(d[k]) == Some(x);
            if k < p.len() {
                assert(stored_blink(p[k]) == Some(x));
                let i = choose|i: int| 0 <= i < r.len() && #[trigger] r[i].1 == x;
                assert(bi[i] == r[i]);
            } else {
                assert(bi[r.len() as int].1 == x);
            }
        }
    }
}

/// Exported blinks carry the flags the file stores: when the overview has
/// a `stateBlinks` dict, the pack's `stateBlinks` section holds
/// `[surface_id, flag]` exactly for the entries whose key is a
/// `(surface, id)` pair and whose value is the boolean `flag`.
pub proof fn lemma_blinks_carry_the_stored_flag(ov: Pairs, d: Pairs, x: NodeView)
    requires
        found(ov, "stateBlinks"@) matches Some(raw) && unwrapped(raw) == ValueView::Dict(d),
    ensures
        blinks_read(ov) matches Some(NodeView::List(items)) && (items.contains(x) <==> exists|k: int|
            0 <= k < d.len() && #[trigger] stored_blink(d[k]) == Some(x)),
{
    let bi = blink_items(d);
    let sorted = sorted_stably(bi, text_lt_fn());
    let items = keys_dropped(sorted);
    lemma_blink_items_hold(d, x);
    if items.contains(x) {
        let i = choose|i: int| 0 <= i < items.len() && items[i] == x;
        lemma_sorted_stably_contains(bi, text_lt_fn(), sorted[i]);
        assert(sorted.contains(sorted[i]));
        let j = choose|j: int| 0 <= j < bi.len() && bi[j] == sorted[i];
        assert(bi[j].1 == x);
    }
    if exists|i: int| 0 <= i < bi.len() && #[trigger] bi[i].1 == x {
        let i = choose|i: int| 0 <= i < bi.len() && #[trigger] bi[i].1 == x;
        lemma_sorted_stably_contains(bi, text_lt_fn(), bi[i]);
        assert(bi.contains(bi[i]));
        let j = choose|j: int| 0 <= j < sorted.len() && sorted[j] == bi[i];
        assert(items[j] == x);
    }
}

/// The exported pack of an account holds the `stateBlinks` section that the
/// overview's blinks read as.
pub proof fn lemma_read_pack_has_blinks(w: ValueView)
    requires
        read_overview(w) is Some,
        blinks_read(read_overview(w)->Some_0) is Some,
    ensures
        spec_read_pack(w).0.sections.contains(("stateBlinks"@, blinks_read(read_overview(w)->Some_0)->Some_0)),
{
    let ov = read_overview(w)->Some_0;
    let e = ("stateBlinks"@, blinks_read(ov)->Some_0);
    let pre = opt_sec("backgroundOrder"@, list_read(ov, "backgroundOrder2"@))
        + opt_sec("backgroundStates"@, list_read(ov, "backgroundStates2"@))
        + opt_sec("columnOrder"@, list_read(ov, "overviewColumnOrder"@))
        + opt_sec("flagOrder"@, list_read(ov, "flagOrder2"@))
        + opt_sec("flagStates"@, list_read(ov, "flagStates2"@))
        + opt_sec("overviewColumns"@, list_read(ov, "overviewColumns"@))
        + opt_sec("presets"@, presets_read(ov))
        + opt_sec("shipLabelOrder"@, labels_order(ov))
        + opt_sec("shipLabels"@, labels_list(ov));
    let post = opt_sec("stateColorsNameList"@, colour_node(ov))
        + opt_sec("tabSetup"@, tabs_read(ov))
        + opt_sec("userSettings"@, settings_read(ov));
    assert(read_sections(ov) =~= pre + seq![e] + post);
    assert(read_sections(ov)[pre.len() as int] == e);
}

} // verus!
