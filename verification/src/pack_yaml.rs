//! Pack files as YAML: the parser's tree held as plain values (a YAML real
//! kept as its text), and the pack's top level read from it.

use vstd::prelude::*;
use vstd::string::StringExecFns;

use crate::overview_pack::{
    document_view, lemma_node_seq, node_model, node_seq, pack_from_document, spec_pack_from_document, Node, NodeView,
    Pack, PackError, PackView,
};
use crate::pack_apply::{failure_of, PackFailure};
use yaml_rust2::{Yaml, YamlLoader};

verus! {

broadcast use vstd::std_specs::vec::group_vec_axioms;

#[verifier::external_type_specification]
#[verifier::external_body]
pub struct ExYaml(Yaml);

/// One node of a YAML document, as the parser gives it.
#[derive(Debug, PartialEq)]
pub enum YamlNode {
    /// A float scalar, by its text (read as a double by the caller).
    Real(String),
    Int(i64),
    Str(String),
    Bool(bool),
    List(Vec<YamlNode>),
    /// A mapping, its entries in document order.
    Mapping(Vec<(YamlNode, YamlNode)>),
    /// An alias the parser did not resolve.
    Alias(usize),
    Null,
    /// A scalar the parser could not read as its declared type.
    Bad,
}

/// The mathematical model of a [`YamlNode`].
pub enum YamlView {
    Real(Seq<char>),
    Int(i64),
    Str(Seq<char>),
    Bool(bool),
    List(Seq<YamlView>),
    Mapping(Seq<(YamlView, YamlView)>),
    Alias(usize),
    Null,
    Bad,
}

pub open spec fn yaml_model(n: YamlNode) -> YamlView
    decreases n,
{
    match n {
        YamlNode::Real(s) => YamlView::Real(s@),
        YamlNode::Int(i) => YamlView::Int(i),
        YamlNode::Str(s) => YamlView::Str(s@),
        YamlNode::Bool(b) => YamlView::Bool(b),
        YamlNode::List(items) => YamlView::List(yaml_seq(items@)),
        YamlNode::Mapping(e) => YamlView::Mapping(yaml_pairs(e@)),
        YamlNode::Alias(a) => YamlView::Alias(a),
        YamlNode::Null => YamlView::Null,
        YamlNode::Bad => YamlView::Bad,
    }
}

pub open spec fn yaml_seq(s: Seq<YamlNode>) -> Seq<YamlView>
    decreases s,
{
    if s.len() == 0 {
        Seq::empty()
    } else {
        yaml_seq(s.subrange(0, s.len() - 1)).push(yaml_model(s[s.len() - 1]))
    }
}

pub open spec fn yaml_pairs(s: Seq<(YamlNode, YamlNode)>) -> Seq<(YamlView, YamlView)>
    decreases s,
{
    if s.len() == 0 {
        Seq::empty()
    } else {
        let (k, v) = s[s.len() - 1];
        yaml_pairs(s.subrange(0, s.len() - 1)).push((yaml_model(k), yaml_model(v)))
    }
}

impl View for YamlNode {
    type V = YamlView;

    open spec fn view(&self) -> YamlView {
        yaml_model(*self)
    }
}

pub proof fn lemma_yaml_seq(s: Seq<YamlNode>)
    ensures
        yaml_seq(s).len() == s.len(),
        forall|i: int| 0 <= i < s.len() ==> #[trigger] yaml_seq(s)[i] == yaml_model(s[i]),
    decreases s.len(),
{
    if s.len() > 0 {
        lemma_yaml_seq(s.subrange(0, s.len() - 1));
    }
}

pub proof fn lemma_yaml_pairs(s: Seq<(YamlNode, YamlNode)>)
    ensures
        yaml_pairs(s).len() == s.len(),
        forall|i: int| 0 <= i < s.len() ==> #[trigger] yaml_pairs(s)[i] == (yaml_model(s[i].0), yaml_model(s[i].1)),
    decreases s.len(),
{
    if s.len() > 0 {
        lemma_yaml_pairs(s.subrange(0, s.len() - 1));
    }
}

/// The documents of a YAML load, by view; or the parser's message.
pub open spec fn docs_view(r: Result<Vec<YamlNode>, String>) -> Result<Seq<YamlView>, Seq<char>> {
    match r {
        Ok(d) => Ok(yaml_seq(d@)),
        Err(e) => Err(e@),
    }
}

/// What `YamlLoader::load_from_str` makes of the text `text`: its documents,
/// or the message of the scan error that stopped it.
pub uninterp spec fn yaml_docs(text: Seq<char>) -> Result<Seq<YamlView>, Seq<char>>;

/// One parser node as a [`YamlNode`], variant for variant. Used only by
/// [`yaml_load`] to hand back its result; it states nothing by itself.
#[verifier::external_body]
fn yaml_node(y: Yaml) -> (r: YamlNode) {
    match y {
        Yaml::Real(s) => YamlNode::Real(s),
        Yaml::Integer(i) => YamlNode::Int(i),
        Yaml::String(s) => YamlNode::Str(s),
        Yaml::Boolean(b) => YamlNode::Bool(b),
        Yaml::Array(a) => YamlNode::List(a.into_iter().map(yaml_node).collect()),
        Yaml::Hash(h) => YamlNode::Mapping(h.into_iter().map(|(k, v)| (yaml_node(k), yaml_node(v))).collect()),
        Yaml::Alias(a) => YamlNode::Alias(a),
        Yaml::Null => YamlNode::Null,
        Yaml::BadValue => YamlNode::Bad,
    }
}

/// `YamlLoader::load_from_str`: the documents of `text`, node for node, or
/// the scan error's message. The contract claims only that the result is a
/// function of the text ([`yaml_docs`]); the parse itself is not restated.
#[verifier::external_body]
fn yaml_load(text: &str) -> (r: Result<Vec<YamlNode>, String>)
    ensures
        docs_view(r) == yaml_docs(text@),
{
    match YamlLoader::load_from_str(text) {
        Ok(docs) => Ok(docs.into_iter().map(yaml_node).collect()),
        Err(e) => Err(e.to_string()),
    }
}

/// Load a pack file's YAML: its documents, or the parser's message.
pub fn load_yaml(text: &str) -> (r: Result<Vec<YamlNode>, String>)
    ensures
        docs_view(r) == yaml_docs(text@),
{
    yaml_load(text)
}

// ---------------------------------------------------------------------------
// The YAML tree as pack nodes.
// ---------------------------------------------------------------------------

/// The double a real's text reads as, from the table `reals` of texts the
/// caller could read: the first entry for that text.
pub open spec fn real_bits(reals: Seq<(Seq<char>, u64)>, t: Seq<char>, i: int) -> Option<u64>
    decreases reals.len() - i,
{
    if i < 0 || i >= reals.len() {
        None
    } else if reals[i].0 == t {
        Some(reals[i].1)
    } else {
        real_bits(reals, t, i + 1)
    }
}

/// A YAML node as a pack node: a real as the double the table gives it, or
/// as its text when the table has none; a mapping as `[key, value]` pairs;
/// an alias or unreadable scalar as null.
pub open spec fn yaml_node_view(y: YamlView, reals: Seq<(Seq<char>, u64)>) -> NodeView
    decreases y, 1nat,
{
    match y {
        YamlView::Real(t) => match real_bits(reals, t, 0) {
            Some(b) => NodeView::Float(b),
            None => NodeView::Str(t),
        },
        YamlView::Int(i) => NodeView::Int(i),
        YamlView::Str(s) => NodeView::Str(s),
        YamlView::Bool(b) => NodeView::Bool(b),
        YamlView::List(items) => NodeView::List(yaml_nodes_view(items, reals)),
        YamlView::Mapping(e) => NodeView::List(yaml_pair_nodes_view(e, reals)),
        _ => NodeView::Null,
    }
}

pub open spec fn yaml_nodes_view(s: Seq<YamlView>, reals: Seq<(Seq<char>, u64)>) -> Seq<NodeView>
    decreases s, 0nat,
{
    if s.len() == 0 {
        Seq::empty()
    } else {
        yaml_nodes_view(s.subrange(0, s.len() - 1), reals).push(yaml_node_view(s[s.len() - 1], reals))
    }
}

pub open spec fn yaml_pair_nodes_view(s: Seq<(YamlView, YamlView)>, reals: Seq<(Seq<char>, u64)>) -> Seq<NodeView>
    decreases s, 0nat,
{
    if s.len() == 0 {
        Seq::empty()
    } else {
        let (k, v) = s[s.len() - 1];
        yaml_pair_nodes_view(s.subrange(0, s.len() - 1), reals).push(
            NodeView::List(seq![yaml_node_view(k, reals), yaml_node_view(v, reals)]),
        )
    }
}

/// One top-level entry: its key when that is a string, and its value.
pub open spec fn top_entry(p: (YamlView, YamlView), reals: Seq<(Seq<char>, u64)>) -> (Option<Seq<char>>, NodeView) {
    (
        match p.0 {
            YamlView::Str(s) => Some(s),
            _ => None,
        },
        yaml_node_view(p.1, reals),
    )
}

/// The top level of a pack file: when the first document is a mapping, its
/// entries, each with its key when that is a string; otherwise nothing.
pub open spec fn top_level(docs: Seq<YamlView>, reals: Seq<(Seq<char>, u64)>) -> Option<
    Seq<(Option<Seq<char>>, NodeView)>,
> {
    if docs.len() > 0 {
        match docs[0] {
            YamlView::Mapping(e) => Some(e.map_values(|p: (YamlView, YamlView)| top_entry(p, reals))),
            _ => None,
        }
    } else {
        None
    }
}

pub open spec fn reals_view(reals: Seq<(String, u64)>) -> Seq<(Seq<char>, u64)> {
    reals.map_values(|e: (String, u64)| (e.0@, e.1))
}

fn real_bits_exec(reals: &Vec<(String, u64)>, t: &String) -> (r: Option<u64>)
    ensures
        r == real_bits(reals_view(reals@), t@, 0),
{
    let ghost rv = reals_view(reals@);
    let mut i: usize = 0;
    while i < reals.len()
        invariant
            i <= reals@.len(),
            rv == reals_view(reals@),
            real_bits(rv, t@, 0) == real_bits(rv, t@, i as int),
        decreases reals@.len() - i,
    {
        assert(rv[i as int] == (reals@[i as int].0@, reals@[i as int].1));
        if crate::overview_tabs::text_is(&reals[i].0, t.as_str()) {
            return Some(reals[i].1);
        }
        i = i + 1;
    }
    None
}

fn node_list(items: Vec<Node>) -> (r: Node)
    ensures
        r@ == NodeView::List(node_seq(items@)),
{
    Node::List(items)
}

proof fn lemma_node_seq_push(s: Seq<Node>, x: Node)
    ensures
        node_seq(s.push(x)) == node_seq(s).push(node_model(x)),
{
    assert(s.push(x).subrange(0, s.len() as int) =~= s);
}

/// A YAML node as a pack node, as [`yaml_node_view`] states it.
pub fn yaml_to_node(y: &YamlNode, reals: &Vec<(String, u64)>) -> (r: Node)
    ensures
        r@ == yaml_node_view(y@, reals_view(reals@)),
    decreases y,
{
    match y {
        YamlNode::Real(t) => match real_bits_exec(reals, t) {
            Some(b) => Node::Float(b),
            None => Node::Str(t.clone()),
        },
        YamlNode::Int(i) => Node::Int(*i),
        YamlNode::Str(s) => Node::Str(s.clone()),
        YamlNode::Bool(b) => Node::Bool(*b),
        YamlNode::List(items) => node_list(yaml_items_to_nodes(items, reals)),
        YamlNode::Mapping(e) => node_list(yaml_pairs_to_nodes(e, reals)),
        _ => Node::Null,
    }
}

fn yaml_items_to_nodes(items: &Vec<YamlNode>, reals: &Vec<(String, u64)>) -> (r: Vec<Node>)
    ensures
        node_seq(r@) == yaml_nodes_view(yaml_seq(items@), reals_view(reals@)),
    decreases items,
{
    proof {
        lemma_yaml_seq(items@);
    }
    let ghost m = yaml_seq(items@);
    let mut out: Vec<Node> = Vec::new();
    let mut i: usize = 0;
    assert(m.subrange(0, 0) =~= Seq::<YamlView>::empty());
    while i < items.len()
        invariant
            i <= items.len(),
            m == yaml_seq(items@),
            m.len() == items@.len(),
            forall|j: int| 0 <= j < items@.len() ==> #[trigger] m[j] == yaml_model(items@[j]),
            node_seq(out@) == yaml_nodes_view(m.subrange(0, i as int), reals_view(reals@)),
        decreases items.len() - i,
    {
        let n = yaml_to_node(&items[i], reals);
        proof {
            lemma_node_seq_push(out@, n);
            assert(m.subrange(0, i + 1).subrange(0, i as int) =~= m.subrange(0, i as int));
            assert(m.subrange(0, i + 1)[i as int] == m[i as int]);
        }
        out.push(n);
        i = i + 1;
    }
    assert(m.subrange(0, m.len() as int) =~= m);
    out
}

fn yaml_pairs_to_nodes(e: &Vec<(YamlNode, YamlNode)>, reals: &Vec<(String, u64)>) -> (r: Vec<Node>)
    ensures
        node_seq(r@) == yaml_pair_nodes_view(yaml_pairs(e@), reals_view(reals@)),
    decreases e,
{
    proof {
        lemma_yaml_pairs(e@);
    }
    let ghost m = yaml_pairs(e@);
    let mut out: Vec<Node> = Vec::new();
    let mut i: usize = 0;
    assert(m.subrange(0, 0) =~= Seq::<(YamlView, YamlView)>::empty());
    while i < e.len()
        invariant
            i <= e.len(),
            m == yaml_pairs(e@),
            m.len() == e@.len(),
            forall|j: int| 0 <= j < e@.len() ==> #[trigger] m[j] == (yaml_model(e@[j].0), yaml_model(e@[j].1)),
            node_seq(out@) == yaml_pair_nodes_view(m.subrange(0, i as int), reals_view(reals@)),
        decreases e.len() - i,
    {
        let k = yaml_to_node(&e[i].0, reals);
        let x = yaml_to_node(&e[i].1, reals);
        let mut pair: Vec<Node> = Vec::new();
        pair.push(k);
        pair.push(x);
        proof {
            lemma_node_seq(pair@);
            assert(node_seq(pair@) =~= seq![node_model(pair@[0]), node_model(pair@[1])]);
        }
        let n = node_list(pair);
        proof {
            lemma_node_seq_push(out@, n);
            assert(m.subrange(0, i + 1).subrange(0, i as int) =~= m.subrange(0, i as int));
            assert(m.subrange(0, i + 1)[i as int] == m[i as int]);
        }
        out.push(n);
        i = i + 1;
    }
    assert(m.subrange(0, m.len() as int) =~= m);
    out
}

/// Top-level entries by view.
pub open spec fn entries_view(v: Seq<(Option<String>, Node)>) -> Seq<(Option<Seq<char>>, NodeView)> {
    v.map_values(
        |e: (Option<String>, Node)|
            (
                match e.0 {
                    Some(s) => Some(s@),
                    None => None,
                },
                node_model(e.1),
            ),
    )
}

/// The top-level entries by view.
pub open spec fn top_view(t: Option<Vec<(Option<String>, Node)>>) -> Option<Seq<(Option<Seq<char>>, NodeView)>> {
    match t {
        Some(v) => Some(entries_view(v@)),
        None => None,
    }
}

/// The top level of a pack file, as [`top_level`] states it.
pub fn top_entries(docs: &Vec<YamlNode>, reals: &Vec<(String, u64)>) -> (r: Option<Vec<(Option<String>, Node)>>)
    ensures
        top_view(r) == top_level(yaml_seq(docs@), reals_view(reals@)),
{
    proof {
        lemma_yaml_seq(docs@);
    }
    if docs.len() == 0 {
        return None;
    }
    match &docs[0] {
        YamlNode::Mapping(e) => {
            proof {
                lemma_yaml_pairs(e@);
            }
            let ghost m = yaml_pairs(e@);
            let ghost rv = reals_view(reals@);
            let mut out: Vec<(Option<String>, Node)> = Vec::new();
            let mut i: usize = 0;
            assert(entries_view(out@) =~= m.subrange(0, 0).map_values(|p: (YamlView, YamlView)| top_entry(p, rv)));
            while i < e.len()
                invariant
                    i <= e.len(),
                    m == yaml_pairs(e@),
                    m.len() == e@.len(),
                    forall|j: int| 0 <= j < e@.len() ==> #[trigger] m[j] == (yaml_model(e@[j].0), yaml_model(e@[j].1)),
                    rv == reals_view(reals@),
                    entries_view(out@) == m.subrange(0, i as int).map_values(|p: (YamlView, YamlView)| top_entry(p, rv)),
                decreases e.len() - i,
            {
                let key = match &e[i].0 {
                    YamlNode::Str(s) => {
                        let c = s.clone();
                        assert(c@ == s@);
                        Some(c)
                    },
                    _ => None,
                };
                let n = yaml_to_node(&e[i].1, reals);
                assert(m[i as int] == (yaml_model(e@[i as int].0), yaml_model(e@[i as int].1)));
                assert((match key {
                    Some(k) => Some(k@),
                    None => None::<Seq<char>>,
                }) == top_entry(m[i as int], rv).0);
                let ghost ob = out@;
                out.push((key, n));
                proof {
                    assert(entries_view(out@) =~= entries_view(ob).push(top_entry(m[i as int], rv)));
                    assert(m.subrange(0, i + 1).map_values(|p: (YamlView, YamlView)| top_entry(p, rv)) =~= m.subrange(0, i as int).map_values(|p: (YamlView, YamlView)| top_entry(p, rv)).push(top_entry(m[i as int], rv)));
                }
                i = i + 1;
            }
            assert(m.subrange(0, m.len() as int) =~= m);
            Some(out)
        },
        _ => None,
    }
}

/// The real scalars of a YAML tree, by their text, in document order.
pub open spec fn reals_in(y: YamlView) -> Seq<Seq<char>>
    decreases y, 1nat,
{
    match y {
        YamlView::Real(t) => seq![t],
        YamlView::List(items) => reals_in_seq(items),
        YamlView::Mapping(e) => reals_in_pairs(e),
        _ => Seq::empty(),
    }
}

pub open spec fn reals_in_seq(s: Seq<YamlView>) -> Seq<Seq<char>>
    decreases s, 0nat,
{
    if s.len() == 0 {
        Seq::empty()
    } else {
        reals_in_seq(s.subrange(0, s.len() - 1)) + reals_in(s[s.len() - 1])
    }
}

pub open spec fn reals_in_pairs(s: Seq<(YamlView, YamlView)>) -> Seq<Seq<char>>
    decreases s, 0nat,
{
    if s.len() == 0 {
        Seq::empty()
    } else {
        let (k, v) = s[s.len() - 1];
        reals_in_pairs(s.subrange(0, s.len() - 1)) + reals_in(k) + reals_in(v)
    }
}

/// Append the texts of the reals of `y` to `out`, as [`reals_in`] lists them.
fn collect_reals(y: &YamlNode, out: &mut Vec<String>)
    ensures
        final(out)@.map_values(|s: String| s@) == old(out)@.map_values(|s: String| s@) + reals_in(y@),
    decreases y,
{
    match y {
        YamlNode::Real(t) => {
            let ghost before = out@;
            out.push(t.clone());
            assert(out@.map_values(|s: String| s@) =~= before.map_values(|s: String| s@) + seq![t@]);
        },
        YamlNode::List(items) => collect_reals_seq(items, out),
        YamlNode::Mapping(e) => collect_reals_pairs(e, out),
        _ => {
            assert(out@.map_values(|s: String| s@) =~= out@.map_values(|s: String| s@) + reals_in(y@));
        },
    }
}

fn collect_reals_seq(items: &Vec<YamlNode>, out: &mut Vec<String>)
    ensures
        final(out)@.map_values(|s: String| s@) == old(out)@.map_values(|s: String| s@) + reals_in_seq(
            yaml_seq(items@),
        ),
    decreases items,
{
    proof {
        lemma_yaml_seq(items@);
    }
    let ghost m = yaml_seq(items@);
    let ghost start = out@.map_values(|s: String| s@);
    let mut i: usize = 0;
    assert(m.subrange(0, 0) =~= Seq::<YamlView>::empty());
    assert(start + reals_in_seq(m.subrange(0, 0)) =~= start);
    while i < items.len()
        invariant
            i <= items.len(),
            m == yaml_seq(items@),
            m.len() == items@.len(),
            forall|j: int| 0 <= j < items@.len() ==> #[trigger] m[j] == yaml_model(items@[j]),
            out@.map_values(|s: String| s@) == start + reals_in_seq(m.subrange(0, i as int)),
        decreases items.len() - i,
    {
        collect_reals(&items[i], out);
        proof {
            assert(m.subrange(0, i + 1).subrange(0, i as int) =~= m.subrange(0, i as int));
            assert(m.subrange(0, i + 1)[i as int] == m[i as int]);
            assert(start + reals_in_seq(m.subrange(0, i + 1)) =~= start + reals_in_seq(m.subrange(0, i as int)) + reals_in(
                m[i as int],
            ));
        }
        i = i + 1;
    }
    assert(m.subrange(0, m.len() as int) =~= m);
}

fn collect_reals_pairs(e: &Vec<(YamlNode, YamlNode)>, out: &mut Vec<String>)
    ensures
        final(out)@.map_values(|s: String| s@) == old(out)@.map_values(|s: String| s@) + reals_in_pairs(
            yaml_pairs(e@),
        ),
    decreases e,
{
    proof {
        lemma_yaml_pairs(e@);
    }
    let ghost m = yaml_pairs(e@);
    let ghost start = out@.map_values(|s: String| s@);
    let mut i: usize = 0;
    assert(m.subrange(0, 0) =~= Seq::<(YamlView, YamlView)>::empty());
    assert(start + reals_in_pairs(m.subrange(0, 0)) =~= start);
    while i < e.len()
        invariant
            i <= e.len(),
            m == yaml_pairs(e@),
            m.len() == e@.len(),
            forall|j: int| 0 <= j < e@.len() ==> #[trigger] m[j] == (yaml_model(e@[j].0), yaml_model(e@[j].1)),
            out@.map_values(|s: String| s@) == start + reals_in_pairs(m.subrange(0, i as int)),
        decreases e.len() - i,
    {
        collect_reals(&e[i].0, out);
        collect_reals(&e[i].1, out);
        proof {
            assert(m.subrange(0, i + 1).subrange(0, i as int) =~= m.subrange(0, i as int));
            assert(m.subrange(0, i + 1)[i as int] == m[i as int]);
            assert(start + reals_in_pairs(m.subrange(0, i + 1)) =~= start + reals_in_pairs(m.subrange(0, i as int))
                + reals_in(m[i as int].0) + reals_in(m[i as int].1));
        }
        i = i + 1;
    }
    assert(m.subrange(0, m.len() as int) =~= m);
}

/// The texts of the reals in the first document, for the caller to read as
/// doubles.
pub fn real_texts(docs: &Vec<YamlNode>) -> (r: Vec<String>)
    ensures
        r@.map_values(|s: String| s@) == if docs@.len() > 0 {
            reals_in(docs@[0]@)
        } else {
            Seq::empty()
        },
{
    let mut out: Vec<String> = Vec::new();
    assert(out@.map_values(|s: String| s@) =~= Seq::<Seq<char>>::empty());
    if docs.len() > 0 {
        collect_reals(&docs[0], &mut out);
        assert(out@.map_values(|s: String| s@) =~= reals_in(docs@[0]@));
    }
    out
}

/// A loaded pack file's top level, its reals read through `reals`.
pub open spec fn loaded_top(docs: Result<Seq<YamlView>, Seq<char>>, reals: Seq<(Seq<char>, u64)>) -> Result<
    Option<Seq<(Option<Seq<char>>, NodeView)>>,
    Seq<char>,
> {
    match docs {
        Ok(d) => Ok(top_level(d, reals)),
        Err(e) => Err(e),
    }
}

/// The pack a loaded pack file holds, its reals read through the table
/// `reals`: the top level of the first document, read as
/// [`pack_from_document`] reads it; a load error is a parse error.
pub fn pack_from_yaml(docs: &Result<Vec<YamlNode>, String>, reals: &Vec<(String, u64)>) -> (r: Result<Pack, PackError>)
    ensures
        match r {
            Ok(p) => spec_pack_from_document(loaded_top(docs_view(*docs), reals_view(reals@))) == Ok::<
                PackView,
                PackFailure,
            >(p@),
            Err(e) => spec_pack_from_document(loaded_top(docs_view(*docs), reals_view(reals@))) == Err::<
                PackView,
                PackFailure,
            >(failure_of(e)),
        },
{
    let doc: Result<Option<Vec<(Option<String>, Node)>>, String> = match docs {
        Ok(d) => {
            let t = top_entries(d, reals);
            proof {
                if t is Some {
                    let v = t->Some_0;
                    assert(document_view(Ok(Some(v)))->Ok_0->Some_0 =~= entries_view(v@));
                }
            }
            Ok(t)
        },
        Err(e) => {
            let c = e.clone();
            assert(c@ == e@);
            Err(c)
        },
    };
    assert(document_view(doc) == loaded_top(docs_view(*docs), reals_view(reals@)));
    pack_from_document(doc)
}

} // verus!
