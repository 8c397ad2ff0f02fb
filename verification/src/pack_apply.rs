//! Applying an overview pack to a user file. Every replacement value is
//! built before the first change to the document, so a pack that fails to
//! convert leaves the document as it was; sections the pack omits are left
//! untouched.

use vstd::prelude::*;
use vstd::slice::slice_to_vec;
use vstd::string::StringExecFns;

use crate::batch::{dict_inner, find_key, find_key_exec, lemma_find_key_from};
use crate::container::{
    dict_replaced, int_of, lemma_dict_replaced, lemma_list_replaced, lemma_model_pairs_push,
    lemma_model_seq_push, list_inner, list_inner_exec, list_replaced, not_bytes_key, sort_ints,
    swap_item_list, set_item_list, take_entry_dict, put_entry_dict, take_entry_list, put_entry_list,
    without_bytes_key, Pairs,
};
use crate::overview_pack::{
    color_rgba, node_eq, node_eq_exec, node_model, node_seq, lemma_node_seq, pairs, pairs_of, ints, ints_of,
    strs, strs_of, str_of, as_str, spec_color_rgba, spec_split_surface_key, split_surface_key, Node, NodeView,
    Pack, PackError, PackView, pack_get, PackReport,
};
use crate::overview_states::{
    is_overview_bool, overview_bool_names, payload_set, put_payload, sorted_set, dedup_exec, Slot,
};
use crate::overview_tabs::{
    fallback_tab, fallback_tab_exec, int_values, int_values_exec, is_name_key, is_name_key_exec, kb,
    lemma_rewrapped, overview_of, prepare_tabs, put_overview_entries, rewrapped, tabs_created, tabs_of,
    tabs_ok, take_overview, with_overview, with_tabs, bytes_same,
};
use crate::parse::{decimal, decimal_text};
use crate::reshare::spec_inline;
use crate::value::{lemma_model_pairs, lemma_model_seq, model, model_pairs, model_seq, Value, ValueView};

verus! {

broadcast use vstd::std_specs::vec::group_vec_axioms;

/// What the build phase collects: the container writes, in order, and the
/// report's lines so far.
#[verifier::ext_equal]
pub struct PackBuild {
    pub writes: Seq<(Seq<u8>, ValueView)>,
    pub applied: Seq<Seq<char>>,
    pub warnings: Seq<Seq<char>>,
}

/// The pack sections that are a plain list, with the `overview` container
/// key each is stored under.
pub open spec fn list_sections() -> Seq<(Seq<char>, Seq<char>)> {
    seq![
        ("backgroundStates"@, "backgroundStates2"@),
        ("backgroundOrder"@, "backgroundOrder2"@),
        ("flagStates"@, "flagStates2"@),
        ("flagOrder"@, "flagOrder2"@),
        ("columnOrder"@, "overviewColumnOrder"@),
        ("overviewColumns"@, "overviewColumns"@),
    ]
}

/// The value a list section is stored as: column names as bytes, state ids
/// as integers, the two enabled-state lists sorted and without duplicates.
pub open spec fn list_value(i: int, node: NodeView) -> ValueView {
    if i >= 4 {
        ValueView::List(strs_of(node).map_values(|s: Seq<char>| ValueView::Bytes(kb(s))))
    } else {
        let ids = ints_of(node);
        ValueView::List(int_values(if i == 0 || i == 2 { sorted_set(ids) } else { ids }))
    }
}

/// The warning for a section the build does not recognise.
pub open spec fn ignored_warning(name: Seq<char>) -> Seq<char> {
    "ignored unknown section '"@ + name + "'"@
}

/// The build after the first `n` list sections.
pub open spec fn list_build(p: PackView, n: int) -> PackBuild
    decreases n,
{
    if n <= 0 {
        PackBuild {
            writes: Seq::empty(),
            applied: Seq::empty(),
            warnings: p.ignored.map_values(|name: Seq<char>| ignored_warning(name)),
        }
    } else {
        let b = list_build(p, n - 1);
        let sec = list_sections()[n - 1];
        match pack_get(p, sec.0) {
            Some(node) => PackBuild {
                writes: b.writes.push((kb(sec.1), list_value(n - 1, node))),
                applied: b.applied.push(sec.0),
                warnings: b.warnings,
            },
            None => b,
        }
    }
}

/// A `(surface, id)` state key.
pub open spec fn surface_key(surface: Seq<char>, id: int) -> ValueView {
    ValueView::Tuple(seq![ValueView::Bytes(kb(surface)), ValueView::Int(id as i64)])
}

/// The warning for a colour name the palette lacks.
pub open spec fn colour_warning(name: Seq<char>) -> Seq<char> {
    "unknown colour name '"@ + name + "' \u{2014} left at EVE's default"@
}

/// The colour entries of `stateColorsNameList`, and the warnings for names
/// the palette lacks (such a state is left at the client's default).
pub open spec fn colour_fold(ps: Seq<(NodeView, NodeView)>) -> (Pairs, Seq<Seq<char>>)
    decreases ps.len(),
{
    if ps.len() == 0 {
        (Seq::empty(), Seq::empty())
    } else {
        let (e, w) = colour_fold(ps.drop_last());
        let (k, val) = ps.last();
        match (str_of(k), str_of(val)) {
            (Some(key), Some(name)) => match spec_split_surface_key(key) {
                Some((surface, id)) => match spec_color_rgba(name) {
                    Some(c) => (e.push((surface_key(surface, id), crate::overview_states::rgba_value(c))), w),
                    None => (e, w.push(colour_warning(name))),
                },
                None => (e, w),
            },
            _ => (e, w),
        }
    }
}

/// The blink entries of `stateBlinks`.
pub open spec fn blink_fold(ps: Seq<(NodeView, NodeView)>) -> Pairs
    decreases ps.len(),
{
    if ps.len() == 0 {
        Seq::empty()
    } else {
        let e = blink_fold(ps.drop_last());
        let (k, val) = ps.last();
        match (str_of(k), val) {
            (Some(key), NodeView::Bool(on)) => match spec_split_surface_key(key) {
                Some((surface, id)) => e.push((surface_key(surface, id), ValueView::Bool(on))),
                None => e,
            },
            _ => e,
        }
    }
}

/// A ship-label field's pack value in the file's vocabulary: text becomes
/// bytes, sequences become lists.
pub open spec fn label_value(n: NodeView) -> ValueView
    decreases n, 1nat,
{
    match n {
        NodeView::Null => ValueView::Nil,
        NodeView::Bool(x) => ValueView::Bool(x),
        NodeView::Int(i) => ValueView::Int(i),
        NodeView::Float(f) => ValueView::Float(f),
        NodeView::Str(s) => ValueView::Bytes(kb(s)),
        NodeView::List(items) => ValueView::List(label_values(items)),
    }
}

pub open spec fn label_values(items: Seq<NodeView>) -> Seq<ValueView>
    decreases items, 0nat,
{
    if items.len() == 0 {
        Seq::empty()
    } else {
        label_values(items.subrange(0, items.len() - 1)).push(label_value(items[items.len() - 1]))
    }
}

/// A label's fields: each text-keyed pair, the key as bytes.
pub open spec fn label_fields(ps: Seq<(NodeView, NodeView)>) -> Pairs
    decreases ps.len(),
{
    if ps.len() == 0 {
        Seq::empty()
    } else {
        let e = label_fields(ps.drop_last());
        match str_of(ps.last().0) {
            Some(k) => e.push((ValueView::Bytes(kb(k)), label_value(ps.last().1))),
            None => e,
        }
    }
}

/// The first body at or after `i` keyed by a node equal to `want`.
pub open spec fn find_body(bodies: Seq<(NodeView, NodeView)>, want: NodeView, i: int) -> Option<int>
    decreases bodies.len() - i,
{
    if i < 0 || i >= bodies.len() {
        None
    } else if node_eq(bodies[i].0, want) {
        Some(i)
    } else {
        find_body(bodies, want, i + 1)
    }
}

/// The file's ordered list of label dicts, from the pack's order list and
/// its name-keyed bodies; an order entry with no body is skipped.
pub open spec fn labels_list(order: Seq<NodeView>, bodies: Seq<(NodeView, NodeView)>) -> Seq<ValueView>
    decreases order.len(),
{
    if order.len() == 0 {
        Seq::empty()
    } else {
        let r = labels_list(order.drop_last(), bodies);
        match find_body(bodies, order.last(), 0) {
            Some(i) => r.push(ValueView::Dict(label_fields(pairs_of(bodies[i].1)))),
            None => r,
        }
    }
}

/// The warning for a setting the client has no key for.
pub open spec fn setting_warning(name: Seq<char>) -> Seq<char> {
    "ignored unknown setting '"@ + name + "'"@
}

/// The writes and warnings of `userSettings`: a known setting is written as
/// the file keys it; any other is reported, never minted.
pub open spec fn settings_fold(ps: Seq<(NodeView, NodeView)>) -> (Seq<(Seq<u8>, ValueView)>, Seq<Seq<char>>)
    decreases ps.len(),
{
    if ps.len() == 0 {
        (Seq::empty(), Seq::empty())
    } else {
        let (ws, w) = settings_fold(ps.drop_last());
        match (str_of(ps.last().0), ps.last().1) {
            (Some(name), NodeView::Bool(on)) => if overview_bool_names().contains(name) {
                (ws.push((kb(name), ValueView::Bool(on))), w)
            } else {
                (ws, w.push(setting_warning(name)))
            },
            _ => (ws, w),
        }
    }
}

/// Why a pack could not be read or applied, by view.
pub enum PackFailure {
    Yaml(Seq<char>),
    NotAMapping,
    NotAPack,
    BadSection(Seq<char>),
    NoOverview,
}

/// A pack error, by view.
pub open spec fn failure_of(e: PackError) -> PackFailure {
    match e {
        PackError::Yaml { message } => PackFailure::Yaml(message@),
        PackError::NotAMapping => PackFailure::NotAMapping,
        PackError::NotAPack => PackFailure::NotAPack,
        PackError::BadSection { name } => PackFailure::BadSection(name@),
        PackError::NoOverview => PackFailure::NoOverview,
    }
}

/// What an import did, by view.
#[verifier::ext_equal]
pub struct ReportView {
    pub applied: Seq<Seq<char>>,
    pub warnings: Seq<Seq<char>>,
}

/// An import's outcome, by view.
pub open spec fn outcome_of(r: Result<PackReport, PackError>) -> Result<ReportView, PackFailure> {
    match r {
        Ok(rep) => Ok(
            ReportView {
                applied: rep.applied@.map_values(|s: String| s@),
                warnings: rep.warnings@.map_values(|s: String| s@),
            },
        ),
        Err(e) => Err(failure_of(e)),
    }
}

/// The build phase: every write, before anything changes. The only failure
/// is a `shipLabelOrder` that is not a sequence.
pub open spec fn pack_build(p: PackView) -> Result<PackBuild, PackFailure> {
    let b1 = list_build(p, 6);
    let b2 = match pack_get(p, "stateColorsNameList"@) {
        Some(node) => {
            let (e, w) = colour_fold(pairs_of(node));
            PackBuild {
                writes: b1.writes.push((kb("stateColors"@), ValueView::Dict(e))),
                applied: b1.applied.push("stateColorsNameList"@),
                warnings: b1.warnings + w,
            }
        },
        None => b1,
    };
    let b3 = match pack_get(p, "stateBlinks"@) {
        Some(node) => PackBuild {
            writes: b2.writes.push((kb("stateBlinks"@), ValueView::Dict(blink_fold(pairs_of(node))))),
            applied: b2.applied.push("stateBlinks"@),
            warnings: b2.warnings,
        },
        None => b2,
    };
    let labels = match (pack_get(p, "shipLabelOrder"@), pack_get(p, "shipLabels"@)) {
        (Some(order), Some(bodies)) => match order {
            NodeView::List(items) => Ok(
                PackBuild {
                    writes: b3.writes.push(
                        (kb("shipLabels"@), ValueView::List(labels_list(items, pairs_of(bodies)))),
                    ),
                    applied: b3.applied.push("shipLabels"@),
                    warnings: b3.warnings,
                },
            ),
            _ => Err(PackFailure::BadSection("shipLabelOrder"@)),
        },
        _ => Ok(b3),
    };
    match labels {
        Err(e) => Err(e),
        Ok(b4) => Ok(
            match pack_get(p, "userSettings"@) {
                Some(node) => {
                    let (ws, w) = settings_fold(pairs_of(node));
                    PackBuild {
                        writes: b4.writes + ws,
                        applied: b4.applied.push("userSettings"@),
                        warnings: b4.warnings + w,
                    }
                },
                None => b4,
            },
        ),
    }
}

/// A preset's fields: each text-keyed pair, the key as bytes and the value
/// as the list of its integers.
pub open spec fn preset_fields(ps: Seq<(NodeView, NodeView)>) -> Pairs
    decreases ps.len(),
{
    if ps.len() == 0 {
        Seq::empty()
    } else {
        let e = preset_fields(ps.drop_last());
        match str_of(ps.last().0) {
            Some(k) => e.push((ValueView::Bytes(kb(k)), ValueView::List(int_values(ints_of(ps.last().1))))),
            None => e,
        }
    }
}

/// The presets dict: each text-named preset, the name as bytes.
pub open spec fn preset_entries(ps: Seq<(NodeView, NodeView)>) -> Pairs
    decreases ps.len(),
{
    if ps.len() == 0 {
        Seq::empty()
    } else {
        let e = preset_entries(ps.drop_last());
        match str_of(ps.last().0) {
            Some(name) => e.push((ValueView::Bytes(kb(name)), ValueView::Dict(preset_fields(pairs_of(ps.last().1))))),
            None => e,
        }
    }
}

/// An empty section (`[]` in the file). For `presets` and `tabSetup` it
/// reads as "not defined": wiping every preset or tab would leave an
/// overview the client cannot render.
pub open spec fn is_empty_section(n: NodeView) -> bool {
    n matches NodeView::List(items) && items.len() == 0
}

/// The section `name`, when the pack defines it with some content.
pub open spec fn live_section(p: PackView, name: Seq<char>) -> Option<NodeView> {
    match pack_get(p, name) {
        Some(n) => if is_empty_section(n) {
            None
        } else {
            Some(n)
        },
        None => None,
    }
}

pub open spec fn empty_presets_warning() -> Seq<char> {
    "ignored empty 'presets' section (would have left the account with no presets)"@
}

pub open spec fn empty_tabs_warning() -> Seq<char> {
    "ignored empty 'tabSetup' section (would have left the account with no tabs)"@
}

/// The warnings for an empty `presets` or `tabSetup` section.
pub open spec fn empty_warnings(p: PackView) -> Seq<Seq<char>> {
    (if pack_get(p, "presets"@) matches Some(n) && is_empty_section(n) {
        seq![empty_presets_warning()]
    } else {
        Seq::empty()
    }) + (if pack_get(p, "tabSetup"@) matches Some(n) && is_empty_section(n) {
        seq![empty_tabs_warning()]
    } else {
        Seq::empty()
    })
}

/// The warning for `n` windows left with no tab.
pub open spec fn emptied_warning(n: nat) -> Seq<char> {
    decimal_text(n as int)
        + " overview window(s) ended up with no tabs (the pack has fewer tabs than the account's window layout expects)"@
}

/// The overview after the writes, in order: each payload set under its key,
/// keeping an existing timestamp wrapper, restoring one on a bare value, and
/// minting one with a zero timestamp for a new key.
pub open spec fn writes_applied(ov: Pairs, ws: Seq<(Seq<u8>, ValueView)>) -> Pairs
    decreases ws.len(),
{
    if ws.len() == 0 {
        ov
    } else {
        payload_set(writes_applied(ov, ws.drop_last()), ws.last().0, ws.last().1, Slot::NotStamp, true)
    }
}

/// The overview after the writes and the presets, before the tab setup. New
/// presets drop any unsaved working copy, which would otherwise bring back
/// a preset the pack does not define.
pub open spec fn staged(p: PackView, b: PackBuild, ov: Pairs) -> Pairs {
    let ov1 = writes_applied(ov, b.writes);
    match live_section(p, "presets"@) {
        Some(node) => payload_set(
            ov1,
            kb("overviewProfilePresets"@),
            ValueView::Dict(preset_entries(pairs_of(node))),
            Slot::NotStamp,
            true,
        ).filter(not_bytes_key(kb("overviewProfilePresets_notSaved"@))),
        None => ov1,
    }
}

/// The pack can be applied to the overview `ov` without fault: the tab dict
/// is reachable when the pack sets tabs up.
pub open spec fn pack_ready(p: PackView, ov: Pairs) -> bool {
    match pack_build(p) {
        Ok(b) => live_section(p, "tabSetup"@) is Some ==> tabs_ok(staged(p, b, ov)),
        Err(_) => true,
    }
}

/// The overview and the report after applying the build `b` of pack `p`.
pub open spec fn pack_applied(p: PackView, b: PackBuild, ov: Pairs) -> (Pairs, ReportView) {
    let ov2 = staged(p, b, ov);
    let applied = b.applied + if live_section(p, "presets"@) is Some {
        seq!["presets"@]
    } else {
        Seq::empty()
    };
    let warnings = b.warnings + empty_warnings(p);
    match live_section(p, "tabSetup"@) {
        Some(node) => {
            let (ov3, n) = tabs_applied(ov2, node);
            (
                ov3,
                ReportView {
                    applied: applied.push("tabSetup"@),
                    warnings: if n > 0 {
                        warnings.push(emptied_warning(n))
                    } else {
                        warnings
                    },
                },
            )
        },
        None => (ov2, ReportView { applied, warnings }),
    }
}

/// Applying pack `p` to the document `w`: a build failure leaves it as it
/// was; otherwise it is inlined, and then `NoOverview` when it has no
/// overview container.
pub open spec fn spec_apply_pack(w: ValueView, p: PackView) -> (ValueView, Result<ReportView, PackFailure>) {
    match pack_build(p) {
        Err(e) => (w, Err(e)),
        Ok(b) => {
            let i = spec_inline(w)->Some_0;
            match overview_of(i) {
                Some(ov) => (with_overview(i, pack_applied(p, b, ov).0), Ok(pack_applied(p, b, ov).1)),
                None => (i, Err(PackFailure::NoOverview)),
            }
        },
    }
}

// ---------------------------------------------------------------------------
// Building the writes.
// ---------------------------------------------------------------------------

/// `a` followed by `b`, then `c`.
fn text3(a: &str, b: &str, c: &str) -> (r: String)
    ensures
        r@ == a@ + b@ + c@,
{
    let mut s = String::from_str(a);
    s.append(b);
    s.append(c);
    s
}

/// Build-phase state, by view.
pub open spec fn build_view(writes: Seq<(Vec<u8>, Value)>, applied: Seq<String>, warnings: Seq<String>) -> PackBuild {
    PackBuild {
        writes: writes.map_values(|e: (Vec<u8>, Value)| (e.0@, e.1@)),
        applied: applied.map_values(|s: String| s@),
        warnings: warnings.map_values(|s: String| s@),
    }
}

fn list_value_exec(i: usize, node: &Node) -> (r: Value)
    requires
        i < 6,
    ensures
        r@ == list_value(i as int, node@),
{
    if i >= 4 {
        let names = strs(node);
        let mut items: Vec<Value> = Vec::new();
        let mut k: usize = 0;
        while k < names.len()
            invariant
                k <= names@.len(),
                names@.len() == strs_of(node@).len(),
                forall|j: int| 0 <= j < names@.len() ==> (#[trigger] names@[j])@ == strs_of(node@)[j],
                items@.len() == k,
                forall|j: int| 0 <= j < k ==> (#[trigger] items@[j])@ == ValueView::Bytes(kb(strs_of(node@)[j])),
            decreases names@.len() - k,
        {
            items.push(Value::Bytes(slice_to_vec(names[k].as_str().as_bytes())));
            k = k + 1;
        }
        proof {
            lemma_model_seq(items@);
            assert(model_seq(items@) =~= strs_of(node@).map_values(|s: Seq<char>| ValueView::Bytes(kb(s))));
        }
        Value::List(items)
    } else {
        let ids = ints(node);
        let out = if i == 0 || i == 2 {
            dedup_exec(&sort_ints(&ids))
        } else {
            ids
        };
        Value::List(int_values_exec(out.as_slice()))
    }
}

/// The list sections, each with the `overview` container key it is stored
/// under, as [`list_sections`] states them.
pub fn list_sections_exec() -> (r: Vec<(&'static str, &'static str)>)
    ensures
        r@.len() == list_sections().len(),
        forall|i: int| 0 <= i < r@.len() ==> ((#[trigger] r@[i]).0@, r@[i].1@) == list_sections()[i],
{
    vec![
        ("backgroundStates", "backgroundStates2"),
        ("backgroundOrder", "backgroundOrder2"),
        ("flagStates", "flagStates2"),
        ("flagOrder", "flagOrder2"),
        ("columnOrder", "overviewColumnOrder"),
        ("overviewColumns", "overviewColumns"),
    ]
}

/// The build through the list sections, as [`list_build`] states it.
fn build_lists(pack: &Pack) -> (r: (Vec<(Vec<u8>, Value)>, Vec<String>, Vec<String>))
    ensures
        build_view(r.0@, r.1@, r.2@) == list_build(pack@, 6),
{
    let mut writes: Vec<(Vec<u8>, Value)> = Vec::new();
    let mut applied: Vec<String> = Vec::new();
    let mut warnings: Vec<String> = Vec::new();
    let ghost ign = pack@.ignored;
    let mut i: usize = 0;
    while i < pack.ignored.len()
        invariant
            i <= pack.ignored@.len(),
            ign == pack@.ignored,
            ign.len() == pack.ignored@.len(),
            forall|j: int| 0 <= j < ign.len() ==> #[trigger] ign[j] == pack.ignored@[j]@,
            warnings@.len() == i,
            forall|j: int| 0 <= j < i ==> (#[trigger] warnings@[j])@ == ignored_warning(ign[j]),
        decreases pack.ignored@.len() - i,
    {
        warnings.push(text3("ignored unknown section '", pack.ignored[i].as_str(), "'"));
        i = i + 1;
    }
    proof {
        assert(warnings@.map_values(|s: String| s@) =~= ign.map_values(|name: Seq<char>| ignored_warning(name)));
        assert(writes@.map_values(|e: (Vec<u8>, Value)| (e.0@, e.1@)) =~= Seq::<(Seq<u8>, ValueView)>::empty());
        assert(applied@.map_values(|s: String| s@) =~= Seq::<Seq<char>>::empty());
    }
    let secs = list_sections_exec();
    let mut n: usize = 0;
    while n < 6
        invariant
            n <= 6,
            secs@.len() == 6,
            forall|k: int| 0 <= k < secs@.len() ==> ((#[trigger] secs@[k]).0@, secs@[k].1@) == list_sections()[k],
            build_view(writes@, applied@, warnings@) == list_build(pack@, n as int),
        decreases 6 - n,
    {
        let (sec, key) = secs[n];
        match pack.get(sec) {
            Some(node) => {
                let x = list_value_exec(n, node);
                let ghost wv = writes@;
                let ghost av = applied@;
                writes.push((slice_to_vec(key.as_bytes()), x));
                applied.push(String::from_str(sec));
                proof {
                    assert(writes@.map_values(|e: (Vec<u8>, Value)| (e.0@, e.1@)) =~= wv.map_values(
                        |e: (Vec<u8>, Value)| (e.0@, e.1@),
                    ).push((kb(list_sections()[n as int].1), list_value(n as int, node@))));
                    assert(applied@.map_values(|s: String| s@) =~= av.map_values(|s: String| s@).push(
                        list_sections()[n as int].0,
                    ));
                }
            },
            None => {},
        }
        n = n + 1;
    }
    (writes, applied, warnings)
}

/// The colour entries and warnings of `stateColorsNameList`.
fn build_colours(node: &Node) -> (r: (Vec<(Value, Value)>, Vec<String>))
    ensures
        model_pairs(r.0@) == colour_fold(pairs_of(node@)).0,
        r.1@.map_values(|s: String| s@) == colour_fold(pairs_of(node@)).1,
{
    let ps = pairs(node);
    let ghost pv = pairs_of(node@);
    let mut e: Vec<(Value, Value)> = Vec::new();
    let mut w: Vec<String> = Vec::new();
    let mut i: usize = 0;
    assert(pv.take(0) =~= Seq::<(NodeView, NodeView)>::empty());
    assert(model_pairs(e@) =~= Seq::<(ValueView, ValueView)>::empty());
    assert(w@.map_values(|s: String| s@) =~= Seq::<Seq<char>>::empty());
    while i < ps.len()
        invariant
            i <= ps@.len(),
            pv == pairs_of(node@),
            ps@.len() == pv.len(),
            forall|j: int| 0 <= j < ps@.len() ==> ((#[trigger] ps@[j]).0@, ps@[j].1@) == pv[j],
            model_pairs(e@) == colour_fold(pv.take(i as int)).0,
            w@.map_values(|s: String| s@) == colour_fold(pv.take(i as int)).1,
        decreases ps@.len() - i,
    {
        assert(pv.take(i + 1).drop_last() =~= pv.take(i as int));
        assert(pv.take(i + 1).last() == pv[i as int]);
        let (k, val) = ps[i];
        match (as_str(k), as_str(val)) {
            (Some(key), Some(name)) => match split_surface_key(key) {
                Some((surface, id)) => match color_rgba(name) {
                    Some(c) => {
                        let parts = vec![Value::Bytes(slice_to_vec(surface.as_bytes())), Value::Int(id)];
                        proof {
                            lemma_model_seq(parts@);
                            assert(model_seq(parts@) =~= seq![ValueView::Bytes(kb(surface@)), ValueView::Int(id)]);
                        }
                        let item = (Value::Tuple(parts), crate::overview_states::rgba_value_exec(c));
                        proof {
                            lemma_model_pairs_push(e@, item);
                        }
                        e.push(item);
                    },
                    None => {
                        let ghost wv = w@;
                        w.push(text3("unknown colour name '", name, "' \u{2014} left at EVE's default"));
                        proof {
                            assert(w@.map_values(|s: String| s@) =~= wv.map_values(|s: String| s@).push(colour_warning(name@)));
                        }
                    },
                },
                None => {},
            },
            _ => {},
        }
        i = i + 1;
    }
    assert(pv.take(pv.len() as int) =~= pv);
    (e, w)
}

/// The blink entries of `stateBlinks`.
fn build_blinks(node: &Node) -> (r: Vec<(Value, Value)>)
    ensures
        model_pairs(r@) == blink_fold(pairs_of(node@)),
{
    let ps = pairs(node);
    let ghost pv = pairs_of(node@);
    let mut e: Vec<(Value, Value)> = Vec::new();
    let mut i: usize = 0;
    assert(pv.take(0) =~= Seq::<(NodeView, NodeView)>::empty());
    assert(model_pairs(e@) =~= Seq::<(ValueView, ValueView)>::empty());
    while i < ps.len()
        invariant
            i <= ps@.len(),
            pv == pairs_of(node@),
            ps@.len() == pv.len(),
            forall|j: int| 0 <= j < ps@.len() ==> ((#[trigger] ps@[j]).0@, ps@[j].1@) == pv[j],
            model_pairs(e@) == blink_fold(pv.take(i as int)),
        decreases ps@.len() - i,
    {
        assert(pv.take(i + 1).drop_last() =~= pv.take(i as int));
        assert(pv.take(i + 1).last() == pv[i as int]);
        let (k, val) = ps[i];
        match (as_str(k), val) {
            (Some(key), Node::Bool(on)) => match split_surface_key(key) {
                Some((surface, id)) => {
                    let parts = vec![Value::Bytes(slice_to_vec(surface.as_bytes())), Value::Int(id)];
                    proof {
                        lemma_model_seq(parts@);
                        assert(model_seq(parts@) =~= seq![ValueView::Bytes(kb(surface@)), ValueView::Int(id)]);
                    }
                    let item = (Value::Tuple(parts), Value::Bool(*on));
                    proof {
                        lemma_model_pairs_push(e@, item);
                    }
                    e.push(item);
                },
                None => {},
            },
            _ => {},
        }
        i = i + 1;
    }
    assert(pv.take(pv.len() as int) =~= pv);
    e
}

fn label_value_exec(n: &Node) -> (r: Value)
    ensures
        r@ == label_value(n@),
    decreases n@,
{
    match n {
        Node::Null => Value::Nil,
        Node::Bool(x) => Value::Bool(*x),
        Node::Int(i) => Value::Int(*i),
        Node::Float(f) => Value::Float(*f),
        Node::Str(s) => Value::Bytes(slice_to_vec(s.as_str().as_bytes())),
        Node::List(items) => {
            let ghost m = node_seq(items@);
            proof {
                lemma_node_seq(items@);
            }
            let mut out: Vec<Value> = Vec::new();
            let mut k: usize = 0;
            assert(m.take(0) =~= Seq::<NodeView>::empty());
            proof {
                lemma_model_seq(out@);
            }
            while k < items.len()
                invariant
                    k <= items.len(),
                    m == node_seq(items@),
                    m.len() == items@.len(),
                    forall|j: int| 0 <= j < items@.len() ==> #[trigger] m[j] == node_model(items@[j]),
                    n@ == NodeView::List(m),
                    model_seq(out@) == label_values(m.take(k as int)),
                decreases items.len() - k,
            {
                proof {
                    assert(m[k as int] == items@[k as int]@);
                    assert(decreases_to!(n@ => (n@)->List_0));
                    assert(decreases_to!((n@)->List_0 => m[k as int]));
                    assert(m.take(k + 1).subrange(0, k as int) =~= m.take(k as int));
                    assert(m.take(k + 1)[k as int] == m[k as int]);
                }
                let x = label_value_exec(&items[k]);
                proof {
                    lemma_model_seq_push(out@, x);
                }
                out.push(x);
                k = k + 1;
            }
            assert(m.take(m.len() as int) =~= m);
            Value::List(out)
        },
    }
}

fn label_fields_exec(body: &Node) -> (r: Vec<(Value, Value)>)
    ensures
        model_pairs(r@) == label_fields(pairs_of(body@)),
{
    let ps = pairs(body);
    let ghost pv = pairs_of(body@);
    let mut e: Vec<(Value, Value)> = Vec::new();
    let mut i: usize = 0;
    assert(pv.take(0) =~= Seq::<(NodeView, NodeView)>::empty());
    assert(model_pairs(e@) =~= Seq::<(ValueView, ValueView)>::empty());
    while i < ps.len()
        invariant
            i <= ps@.len(),
            pv == pairs_of(body@),
            ps@.len() == pv.len(),
            forall|j: int| 0 <= j < ps@.len() ==> ((#[trigger] ps@[j]).0@, ps@[j].1@) == pv[j],
            model_pairs(e@) == label_fields(pv.take(i as int)),
        decreases ps@.len() - i,
    {
        assert(pv.take(i + 1).drop_last() =~= pv.take(i as int));
        assert(pv.take(i + 1).last() == pv[i as int]);
        let (k, val) = ps[i];
        match as_str(k) {
            Some(key) => {
                let item = (Value::Bytes(slice_to_vec(key.as_bytes())), label_value_exec(val));
                proof {
                    lemma_model_pairs_push(e@, item);
                }
                e.push(item);
            },
            None => {},
        }
        i = i + 1;
    }
    assert(pv.take(pv.len() as int) =~= pv);
    e
}

/// The ship labels, as [`labels_list`] states them.
fn build_labels(order: &Vec<Node>, labels: &Node) -> (r: Vec<Value>)
    ensures
        model_seq(r@) == labels_list(node_seq(order@), pairs_of(labels@)),
{
    let bodies = pairs(labels);
    let ghost bv = pairs_of(labels@);
    let ghost m = node_seq(order@);
    proof {
        lemma_node_seq(order@);
    }
    let mut out: Vec<Value> = Vec::new();
    let mut i: usize = 0;
    assert(m.take(0) =~= Seq::<NodeView>::empty());
    proof {
        lemma_model_seq(out@);
    }
    while i < order.len()
        invariant
            i <= order.len(),
            m == node_seq(order@),
            m.len() == order@.len(),
            forall|j: int| 0 <= j < order@.len() ==> #[trigger] m[j] == node_model(order@[j]),
            bv == pairs_of(labels@),
            bodies@.len() == bv.len(),
            forall|j: int| 0 <= j < bodies@.len() ==> ((#[trigger] bodies@[j]).0@, bodies@[j].1@) == bv[j],
            model_seq(out@) == labels_list(m.take(i as int), bv),
        decreases order.len() - i,
    {
        assert(m.take(i + 1).drop_last() =~= m.take(i as int));
        assert(m.take(i + 1).last() == m[i as int]);
        let want = &order[i];
        let mut j: usize = 0;
        while j < bodies.len()
            invariant
                j <= bodies@.len(),
                bodies@.len() == bv.len(),
                forall|q: int| 0 <= q < bodies@.len() ==> ((#[trigger] bodies@[q]).0@, bodies@[q].1@) == bv[q],
                find_body(bv, want@, 0) == find_body(bv, want@, j as int),
            ensures
                j <= bodies@.len(),
                find_body(bv, want@, 0) == find_body(bv, want@, j as int),
                j < bodies@.len() ==> node_eq(bv[j as int].0, want@),
            decreases bodies@.len() - j,
        {
            if node_eq_exec(bodies[j].0, want) {
                break;
            }
            j = j + 1;
        }
        if j < bodies.len() {
            let item = Value::Dict(label_fields_exec(bodies[j].1));
            proof {
                lemma_model_seq_push(out@, item);
            }
            out.push(item);
        }
        i = i + 1;
    }
    assert(m.take(m.len() as int) =~= m);
    out
}

/// The writes and warnings of `userSettings`.
fn build_settings(node: &Node) -> (r: (Vec<(Vec<u8>, Value)>, Vec<String>))
    ensures
        r.0@.map_values(|e: (Vec<u8>, Value)| (e.0@, e.1@)) == settings_fold(pairs_of(node@)).0,
        r.1@.map_values(|s: String| s@) == settings_fold(pairs_of(node@)).1,
{
    let ps = pairs(node);
    let ghost pv = pairs_of(node@);
    let mut ws: Vec<(Vec<u8>, Value)> = Vec::new();
    let mut w: Vec<String> = Vec::new();
    let mut i: usize = 0;
    assert(pv.take(0) =~= Seq::<(NodeView, NodeView)>::empty());
    assert(ws@.map_values(|e: (Vec<u8>, Value)| (e.0@, e.1@)) =~= Seq::<(Seq<u8>, ValueView)>::empty());
    assert(w@.map_values(|s: String| s@) =~= Seq::<Seq<char>>::empty());
    while i < ps.len()
        invariant
            i <= ps@.len(),
            pv == pairs_of(node@),
            ps@.len() == pv.len(),
            forall|j: int| 0 <= j < ps@.len() ==> ((#[trigger] ps@[j]).0@, ps@[j].1@) == pv[j],
            ws@.map_values(|e: (Vec<u8>, Value)| (e.0@, e.1@)) == settings_fold(pv.take(i as int)).0,
            w@.map_values(|s: String| s@) == settings_fold(pv.take(i as int)).1,
        decreases ps@.len() - i,
    {
        assert(pv.take(i + 1).drop_last() =~= pv.take(i as int));
        assert(pv.take(i + 1).last() == pv[i as int]);
        let (k, val) = ps[i];
        match (as_str(k), val) {
            (Some(name), Node::Bool(on)) => {
                if is_overview_bool(name) {
                    let ghost wv = ws@;
                    ws.push((slice_to_vec(name.as_bytes()), Value::Bool(*on)));
                    proof {
                        assert(ws@.map_values(|e: (Vec<u8>, Value)| (e.0@, e.1@)) =~= wv.map_values(
                            |e: (Vec<u8>, Value)| (e.0@, e.1@),
                        ).push((kb(name@), ValueView::Bool(*on))));
                    }
                } else {
                    let ghost wv = w@;
                    w.push(text3("ignored unknown setting '", name, "'"));
                    proof {
                        assert(w@.map_values(|s: String| s@) =~= wv.map_values(|s: String| s@).push(setting_warning(name@)));
                    }
                }
            },
            _ => {},
        }
        i = i + 1;
    }
    assert(pv.take(pv.len() as int) =~= pv);
    (ws, w)
}

/// The build phase, as [`pack_build`] states it.
fn build(pack: &Pack) -> (r: Result<(Vec<(Vec<u8>, Value)>, Vec<String>, Vec<String>), PackError>)
    ensures
        match r {
            Ok(b) => pack_build(pack@) == Ok::<PackBuild, PackFailure>(build_view(b.0@, b.1@, b.2@)),
            Err(e) => pack_build(pack@) == Err::<PackBuild, PackFailure>(PackFailure::BadSection("shipLabelOrder"@))
                && (e matches PackError::BadSection { name } && name@ == "shipLabelOrder"@),
        },
{
    let (mut writes, mut applied, mut warnings) = build_lists(pack);
    match pack.get("stateColorsNameList") {
        Some(node) => {
            let (e, w) = build_colours(node);
            let ghost (wv, av, nv) = (writes@, applied@, warnings@);
            writes.push((slice_to_vec("stateColors".as_bytes()), Value::Dict(e)));
            applied.push(String::from_str("stateColorsNameList"));
            let mut w = w;
            warnings.append(&mut w);
            proof {
                assert(writes@.map_values(|e: (Vec<u8>, Value)| (e.0@, e.1@)) =~= wv.map_values(
                    |e: (Vec<u8>, Value)| (e.0@, e.1@),
                ).push((kb("stateColors"@), ValueView::Dict(colour_fold(pairs_of(node@)).0))));
                assert(applied@.map_values(|s: String| s@) =~= av.map_values(|s: String| s@).push("stateColorsNameList"@));
                assert(warnings@.map_values(|s: String| s@) =~= nv.map_values(|s: String| s@) + colour_fold(
                    pairs_of(node@),
                ).1);
            }
        },
        None => {},
    }
    match pack.get("stateBlinks") {
        Some(node) => {
            let e = build_blinks(node);
            let ghost (wv, av) = (writes@, applied@);
            writes.push((slice_to_vec("stateBlinks".as_bytes()), Value::Dict(e)));
            applied.push(String::from_str("stateBlinks"));
            proof {
                assert(writes@.map_values(|e: (Vec<u8>, Value)| (e.0@, e.1@)) =~= wv.map_values(
                    |e: (Vec<u8>, Value)| (e.0@, e.1@),
                ).push((kb("stateBlinks"@), ValueView::Dict(blink_fold(pairs_of(node@))))));
                assert(applied@.map_values(|s: String| s@) =~= av.map_values(|s: String| s@).push("stateBlinks"@));
            }
        },
        None => {},
    }
    match (pack.get("shipLabelOrder"), pack.get("shipLabels")) {
        (Some(order), Some(labels)) => match order {
            Node::List(items) => {
                let list = build_labels(items, labels);
                let ghost (wv, av) = (writes@, applied@);
                writes.push((slice_to_vec("shipLabels".as_bytes()), Value::List(list)));
                applied.push(String::from_str("shipLabels"));
                proof {
                    assert(writes@.map_values(|e: (Vec<u8>, Value)| (e.0@, e.1@)) =~= wv.map_values(
                        |e: (Vec<u8>, Value)| (e.0@, e.1@),
                    ).push((kb("shipLabels"@), ValueView::List(labels_list(node_seq(items@), pairs_of(labels@))))));
                    assert(applied@.map_values(|s: String| s@) =~= av.map_values(|s: String| s@).push("shipLabels"@));
                }
            },
            _ => {
                return Err(PackError::BadSection { name: String::from_str("shipLabelOrder") });
            },
        },
        _ => {},
    }
    match pack.get("userSettings") {
        Some(node) => {
            let (ws, w) = build_settings(node);
            let ghost (wv, av, nv) = (writes@, applied@, warnings@);
            let mut ws = ws;
            let mut w = w;
            let ghost (wsv, w0) = (ws@, w@);
            writes.append(&mut ws);
            applied.push(String::from_str("userSettings"));
            warnings.append(&mut w);
            proof {
                assert(writes@ =~= wv + wsv);
                assert(writes@.map_values(|e: (Vec<u8>, Value)| (e.0@, e.1@)) =~= wv.map_values(
                    |e: (Vec<u8>, Value)| (e.0@, e.1@),
                ) + settings_fold(pairs_of(node@)).0);
                assert(applied@.map_values(|s: String| s@) =~= av.map_values(|s: String| s@).push("userSettings"@));
                assert(warnings@ =~= nv + w0);
                assert(warnings@.map_values(|s: String| s@) =~= nv.map_values(|s: String| s@) + settings_fold(
                    pairs_of(node@),
                ).1);
            }
        },
        None => {},
    }
    proof {
        assert(build_view(writes@, applied@, warnings@) =~= pack_build(pack@)->Ok_0);
    }
    Ok((writes, applied, warnings))
}

// ---------------------------------------------------------------------------
// The tab setup.
// ---------------------------------------------------------------------------

/// The lowest-indexed tab among the first `n` entries (the first of equals).
pub open spec fn lowest_upto(t: Pairs, n: int) -> Option<(i64, ValueView)>
    decreases n,
{
    if n <= 0 {
        None
    } else {
        let r = lowest_upto(t, n - 1);
        match int_of(t[n - 1].0) {
            Some(idx) => match r {
                Some(best) => if idx < best.0 {
                    Some((idx, t[n - 1].1))
                } else {
                    r
                },
                None => Some((idx, t[n - 1].1)),
            },
            None => r,
        }
    }
}

/// The tab a pack's tabs are cloned from: the account's lowest-indexed tab,
/// so that new tabs keep the keys the client's reset path reads.
pub open spec fn template_of(t: Pairs) -> Option<ValueView> {
    match lowest_upto(t, t.len() as int) {
        Some(best) => Some(best.1),
        None => None,
    }
}

/// Entries other than the tab-name key, in any of its spellings.
pub open spec fn not_name_key() -> spec_fn((ValueView, ValueView)) -> bool {
    |e: (ValueView, ValueView)| !is_name_key(e.0)
}

/// One `[field, text]` pair of a pack tab applied to a tab's fields: the
/// name replaces every name entry with a UCS-2 one, `bracket` and `overview`
/// replace their entry with bytes; anything else is ignored.
pub open spec fn field_step(f: Pairs, k: NodeView, val: NodeView) -> Pairs {
    match (str_of(k), str_of(val)) {
        (Some(key), Some(text)) => if key == "name"@ {
            f.filter(not_name_key()).push((ValueView::Str("name"@), ValueView::StrUcs2(text)))
        } else if key == "bracket"@ || key == "overview"@ {
            f.filter(not_bytes_key(kb(key))).push((ValueView::Bytes(kb(key)), ValueView::Bytes(kb(text))))
        } else {
            f
        },
        _ => f,
    }
}

pub open spec fn fields_from(f: Pairs, ps: Seq<(NodeView, NodeView)>) -> Pairs
    decreases ps.len(),
{
    if ps.len() == 0 {
        f
    } else {
        field_step(fields_from(f, ps.drop_last()), ps.last().0, ps.last().1)
    }
}

/// A tab's fields without its column overrides: pack columns are
/// account-wide.
pub open spec fn no_column_overrides(f: Pairs) -> Pairs {
    f.filter(not_bytes_key(kb("tabColumns"@))).filter(not_bytes_key(kb("tabColumnOrder"@)))
}

/// The tab a pack tab body makes: a clone of the template (the fallback tab
/// on an account with no tabs) with its overrides dropped and the body's
/// fields applied; none when the template holds no dict.
pub open spec fn pack_tab(template: Option<ValueView>, body: NodeView) -> Option<ValueView> {
    let tab = match template {
        Some(t) => t,
        None => fallback_tab(),
    };
    match dict_inner(tab) {
        Some(f) => Some(dict_replaced(tab, fields_from(no_column_overrides(f), pairs_of(body)))),
        None => None,
    }
}

/// The new tab dict, and the indices it defines, from the `[index, body]`
/// pairs of `tabSetup`.
pub open spec fn fresh_tabs(template: Option<ValueView>, ps: Seq<(NodeView, NodeView)>) -> (Pairs, Seq<i64>)
    decreases ps.len(),
{
    if ps.len() == 0 {
        (Seq::empty(), Seq::empty())
    } else {
        let (t, ix) = fresh_tabs(template, ps.drop_last());
        match ps.last().0 {
            NodeView::Int(i) => match pack_tab(template, ps.last().1) {
                Some(tab) => (t.push((ValueView::Int(i), tab)), ix.push(i)),
                None => (t, ix),
            },
            _ => (t, ix),
        }
    }
}

/// Items that are one of the indices `ix`.
pub open spec fn keep_in(ix: Seq<i64>) -> spec_fn(ValueView) -> bool {
    |e: ValueView| int_of(e) is Some && ix.contains(int_of(e)->Some_0)
}

/// The integers among `l`.
pub open spec fn int_items(l: Seq<ValueView>) -> Seq<i64>
    decreases l.len(),
{
    if l.len() == 0 {
        Seq::empty()
    } else {
        let r = int_items(l.drop_last());
        match int_of(l.last()) {
            Some(i) => r.push(i),
            None => r,
        }
    }
}

/// Windows 1 to `n - 1` of the mapping keeping only indices the pack
/// defines, and the indices they keep.
pub open spec fn claim_upto(gs: Seq<ValueView>, ix: Seq<i64>, n: int) -> (Seq<ValueView>, Seq<i64>)
    decreases n,
{
    if n <= 1 {
        (gs, Seq::empty())
    } else {
        let (g, c) = claim_upto(gs, ix, n - 1);
        match list_inner(gs[n - 1]) {
            Some(l) => {
                let l2 = l.filter(keep_in(ix));
                (g.update(n - 1, list_replaced(gs[n - 1], l2)), c + int_items(l2))
            },
            None => (g, c),
        }
    }
}

/// Indices no other window claimed.
pub open spec fn not_in(c: Seq<i64>) -> spec_fn(i64) -> bool {
    |i: i64| !c.contains(i)
}

/// How many windows hold an empty tab list.
pub open spec fn count_empty(gs: Seq<ValueView>) -> nat
    decreases gs.len(),
{
    if gs.len() == 0 {
        0
    } else {
        count_empty(gs.drop_last()) + if list_inner(gs.last()) matches Some(l) && l.len() == 0 {
            1nat
        } else {
            0nat
        }
    }
}

/// The windows `gs` re-pointed at the tab indices `ix`: each secondary window
/// keeps only indices in `ix`, and window 0 gets those no other window kept.
pub open spec fn repointed(gs: Seq<ValueView>, ix: Seq<i64>) -> Seq<ValueView> {
    let (g1, claimed) = claim_upto(gs, ix, gs.len() as int);
    if gs.len() > 0 && list_inner(g1[0]) is Some {
        g1.update(0, list_replaced(g1[0], int_values(ix.filter(not_in(claimed)))))
    } else {
        g1
    }
}

/// Replacing the tab dict from `tabSetup`, then re-pointing the window
/// mapping when the account has one (it is never minted): each secondary
/// window keeps only indices the pack defines, and window 0 gets the rest.
/// Also says how many windows end up with no tab.
pub open spec fn tabs_applied(ov: Pairs, node: NodeView) -> (Pairs, nat) {
    let (fresh, ix) = fresh_tabs(template_of(tabs_of(ov)), pairs_of(node));
    let ov1 = with_tabs(ov, fresh);
    match find_key(ov1, kb("tabsByWindowInstanceID"@)) {
        Some(j) => match list_inner(ov1[j].1) {
            Some(gs) => {
                let g2 = repointed(gs, ix);
                (ov1.update(j, (ov1[j].0, list_replaced(ov1[j].1, g2))), count_empty(g2))
            },
            None => (ov1, 0),
        },
        None => (ov1, 0),
    }
}

pub(crate) fn str_is(a: &str, b: &str) -> (r: bool)
    ensures
        r == (a@ == b@),
{
    let r = bytes_same(a.as_bytes(), b.as_bytes());
    proof {
        if r {
            vstd::utf8::encode_utf8_decode_utf8(a@);
            vstd::utf8::encode_utf8_decode_utf8(b@);
        }
    }
    r
}

fn without_name_keys(f: &Vec<(Value, Value)>) -> (r: Vec<(Value, Value)>)
    ensures
        model_pairs(r@) == model_pairs(f@).filter(not_name_key()),
{
    let ghost m = model_pairs(f@);
    proof {
        lemma_model_pairs(f@);
        crate::container::lemma_filter_empty(m.take(0), not_name_key());
    }
    let mut r: Vec<(Value, Value)> = Vec::new();
    assert(model_pairs(r@) =~= Seq::<(ValueView, ValueView)>::empty());
    let mut i: usize = 0;
    while i < f.len()
        invariant
            i <= f.len(),
            m == model_pairs(f@),
            m.len() == f@.len(),
            forall|j: int| 0 <= j < f@.len() ==> #[trigger] m[j] == (model(f@[j].0), model(f@[j].1)),
            model_pairs(r@) == m.take(i as int).filter(not_name_key()),
        decreases f.len() - i,
    {
        proof {
            crate::container::lemma_filter_step(m, i as int, not_name_key());
        }
        if !is_name_key_exec(&f[i].0) {
            let e = (crate::reshare::clone_value(&f[i].0), crate::reshare::clone_value(&f[i].1));
            proof {
                lemma_model_pairs_push(r@, e);
            }
            r.push(e);
        }
        i = i + 1;
    }
    assert(m.take(m.len() as int) =~= m);
    r
}

fn field_step_exec(f: Vec<(Value, Value)>, k: &Node, val: &Node) -> (r: Vec<(Value, Value)>)
    ensures
        model_pairs(r@) == field_step(model_pairs(f@), k@, val@),
{
    match (as_str(k), as_str(val)) {
        (Some(key), Some(text)) => {
            if str_is(key, "name") {
                let mut g = without_name_keys(&f);
                let e = (Value::Str(String::from_str("name")), Value::StrUcs2(String::from_str(text)));
                proof {
                    lemma_model_pairs_push(g@, e);
                }
                g.push(e);
                g
            } else if str_is(key, "bracket") || str_is(key, "overview") {
                let mut g = without_bytes_key(&f, key.as_bytes());
                let e = (Value::Bytes(slice_to_vec(key.as_bytes())), Value::Bytes(slice_to_vec(text.as_bytes())));
                proof {
                    lemma_model_pairs_push(g@, e);
                }
                g.push(e);
                g
            } else {
                f
            }
        },
        _ => f,
    }
}

/// The tab a pack tab body makes, as [`pack_tab`] states it.
fn pack_tab_exec(template: &Option<Value>, body: &Node) -> (r: Option<Value>)
    ensures
        match r {
            Some(t) => pack_tab(crate::batch::opt_view(*template), body@) == Some(t@),
            None => pack_tab(crate::batch::opt_view(*template), body@) is None,
        },
{
    let mut tab = match template {
        Some(t) => crate::reshare::clone_value(t),
        None => fallback_tab_exec(),
    };
    let ghost t0 = tab@;
    let mut f: Vec<(Value, Value)> = Vec::new();
    assert(model_pairs(f@) =~= Seq::<(ValueView, ValueView)>::empty());
    if !crate::container::swap_dict_inner(&mut tab, &mut f) {
        return None;
    }
    let f1 = without_bytes_key(&f, "tabColumns".as_bytes());
    let mut g = without_bytes_key(&f1, "tabColumnOrder".as_bytes());
    let ps = pairs(body);
    let ghost pv = pairs_of(body@);
    let ghost g0 = model_pairs(g@);
    let mut i: usize = 0;
    assert(pv.take(0) =~= Seq::<(NodeView, NodeView)>::empty());
    while i < ps.len()
        invariant
            i <= ps@.len(),
            pv == pairs_of(body@),
            ps@.len() == pv.len(),
            forall|j: int| 0 <= j < ps@.len() ==> ((#[trigger] ps@[j]).0@, ps@[j].1@) == pv[j],
            model_pairs(g@) == fields_from(g0, pv.take(i as int)),
        decreases ps@.len() - i,
    {
        assert(pv.take(i + 1).drop_last() =~= pv.take(i as int));
        assert(pv.take(i + 1).last() == pv[i as int]);
        g = field_step_exec(g, ps[i].0, ps[i].1);
        i = i + 1;
    }
    assert(pv.take(pv.len() as int) =~= pv);
    proof {
        lemma_dict_replaced(t0, Seq::empty(), model_pairs(g@));
    }
    crate::container::swap_dict_inner(&mut tab, &mut g);
    Some(tab)
}

fn lowest_tab_exec(t: &Vec<(Value, Value)>) -> (r: Option<Value>)
    ensures
        crate::batch::opt_view(r) == template_of(model_pairs(t@)),
{
    let ghost m = model_pairs(t@);
    proof {
        lemma_model_pairs(t@);
    }
    let mut best: Option<(i64, usize)> = None;
    let mut i: usize = 0;
    while i < t.len()
        invariant
            i <= t.len(),
            m == model_pairs(t@),
            m.len() == t@.len(),
            forall|j: int| 0 <= j < t@.len() ==> #[trigger] m[j] == (model(t@[j].0), model(t@[j].1)),
            match best {
                Some(b) => b.1 < i && lowest_upto(m, i as int) == Some((b.0, m[b.1 as int].1)),
                None => lowest_upto(m, i as int) is None,
            },
        decreases t.len() - i,
    {
        if let Value::Int(idx) = &t[i].0 {
            let better = match best {
                Some(b) => *idx < b.0,
                None => true,
            };
            if better {
                best = Some((*idx, i));
            }
        }
        i = i + 1;
    }
    match best {
        Some(b) => Some(crate::reshare::clone_value(&t[b.1].1)),
        None => None,
    }
}

fn fresh_tabs_exec(template: &Option<Value>, node: &Node) -> (r: (Vec<(Value, Value)>, Vec<i64>))
    ensures
        model_pairs(r.0@) == fresh_tabs(crate::batch::opt_view(*template), pairs_of(node@)).0,
        r.1@ == fresh_tabs(crate::batch::opt_view(*template), pairs_of(node@)).1,
{
    let ghost tv = crate::batch::opt_view(*template);
    let ps = pairs(node);
    let ghost pv = pairs_of(node@);
    let mut t: Vec<(Value, Value)> = Vec::new();
    let mut ix: Vec<i64> = Vec::new();
    let mut i: usize = 0;
    assert(pv.take(0) =~= Seq::<(NodeView, NodeView)>::empty());
    assert(model_pairs(t@) =~= Seq::<(ValueView, ValueView)>::empty());
    while i < ps.len()
        invariant
            i <= ps@.len(),
            pv == pairs_of(node@),
            tv == crate::batch::opt_view(*template),
            ps@.len() == pv.len(),
            forall|j: int| 0 <= j < ps@.len() ==> ((#[trigger] ps@[j]).0@, ps@[j].1@) == pv[j],
            model_pairs(t@) == fresh_tabs(tv, pv.take(i as int)).0,
            ix@ == fresh_tabs(tv, pv.take(i as int)).1,
        decreases ps@.len() - i,
    {
        assert(pv.take(i + 1).drop_last() =~= pv.take(i as int));
        assert(pv.take(i + 1).last() == pv[i as int]);
        if let Node::Int(idx) = ps[i].0 {
            match pack_tab_exec(template, ps[i].1) {
                Some(tab) => {
                    let e = (Value::Int(*idx), tab);
                    proof {
                        lemma_model_pairs_push(t@, e);
                    }
                    t.push(e);
                    ix.push(*idx);
                },
                None => {},
            }
        }
        i = i + 1;
    }
    assert(pv.take(pv.len() as int) =~= pv);
    (t, ix)
}

fn contains_i64(s: &Vec<i64>, x: i64) -> (r: bool)
    ensures
        r == s@.contains(x),
{
    let mut i: usize = 0;
    while i < s.len()
        invariant
            i <= s.len(),
            forall|j: int| 0 <= j < i ==> s@[j] != x,
        decreases s.len() - i,
    {
        if s[i] == x {
            assert(s@[i as int] == x);
            return true;
        }
        i = i + 1;
    }
    false
}

fn keep_indices(l: &Vec<Value>, ix: &Vec<i64>) -> (r: Vec<Value>)
    ensures
        model_seq(r@) == model_seq(l@).filter(keep_in(ix@)),
{
    let ghost m = model_seq(l@);
    proof {
        lemma_model_seq(l@);
        crate::container::lemma_filter_empty(m.take(0), keep_in(ix@));
    }
    let mut r: Vec<Value> = Vec::new();
    assert(model_seq(r@) =~= Seq::<ValueView>::empty());
    let mut i: usize = 0;
    while i < l.len()
        invariant
            i <= l.len(),
            m == model_seq(l@),
            m.len() == l@.len(),
            forall|j: int| 0 <= j < l@.len() ==> #[trigger] m[j] == model(l@[j]),
            model_seq(r@) == m.take(i as int).filter(keep_in(ix@)),
        decreases l.len() - i,
    {
        proof {
            crate::container::lemma_filter_step(m, i as int, keep_in(ix@));
        }
        let keep = match &l[i] {
            Value::Int(k) => contains_i64(ix, *k),
            _ => false,
        };
        if keep {
            let x = crate::reshare::clone_value(&l[i]);
            proof {
                lemma_model_seq_push(r@, x);
            }
            r.push(x);
        }
        i = i + 1;
    }
    assert(m.take(m.len() as int) =~= m);
    r
}

fn int_items_exec(l: &Vec<Value>) -> (r: Vec<i64>)
    ensures
        r@ == int_items(model_seq(l@)),
{
    let ghost m = model_seq(l@);
    proof {
        lemma_model_seq(l@);
    }
    let mut r: Vec<i64> = Vec::new();
    let mut i: usize = 0;
    assert(m.take(0) =~= Seq::<ValueView>::empty());
    while i < l.len()
        invariant
            i <= l.len(),
            m == model_seq(l@),
            m.len() == l@.len(),
            forall|j: int| 0 <= j < l@.len() ==> #[trigger] m[j] == model(l@[j]),
            r@ == int_items(m.take(i as int)),
        decreases l.len() - i,
    {
        assert(m.take(i + 1).drop_last() =~= m.take(i as int));
        assert(m.take(i + 1).last() == m[i as int]);
        if let Value::Int(k) = &l[i] {
            r.push(*k);
        }
        i = i + 1;
    }
    assert(m.take(m.len() as int) =~= m);
    r
}

fn not_claimed(ix: &Vec<i64>, claimed: &Vec<i64>) -> (r: Vec<i64>)
    ensures
        r@ == ix@.filter(not_in(claimed@)),
{
    proof {
        crate::container::lemma_filter_empty(ix@.take(0), not_in(claimed@));
    }
    let mut r: Vec<i64> = Vec::new();
    let mut i: usize = 0;
    while i < ix.len()
        invariant
            i <= ix.len(),
            r@ == ix@.take(i as int).filter(not_in(claimed@)),
        decreases ix.len() - i,
    {
        proof {
            crate::container::lemma_filter_step(ix@, i as int, not_in(claimed@));
        }
        if !contains_i64(claimed, ix[i]) {
            r.push(ix[i]);
        }
        i = i + 1;
    }
    assert(ix@.take(ix@.len() as int) =~= ix@);
    r
}

proof fn lemma_count_empty_bound(gs: Seq<ValueView>)
    ensures
        count_empty(gs) <= gs.len(),
    decreases gs.len(),
{
    if gs.len() > 0 {
        lemma_count_empty_bound(gs.drop_last());
    }
}

fn count_empty_exec(gs: &Vec<Value>) -> (n: usize)
    ensures
        n == count_empty(model_seq(gs@)),
{
    let ghost m = model_seq(gs@);
    proof {
        lemma_model_seq(gs@);
    }
    let mut n: usize = 0;
    let mut i: usize = 0;
    assert(m.take(0) =~= Seq::<ValueView>::empty());
    while i < gs.len()
        invariant
            i <= gs.len(),
            m == model_seq(gs@),
            m.len() == gs@.len(),
            forall|j: int| 0 <= j < gs@.len() ==> #[trigger] m[j] == model(gs@[j]),
            n == count_empty(m.take(i as int)),
        decreases gs.len() - i,
    {
        assert(m.take(i + 1).drop_last() =~= m.take(i as int));
        assert(m.take(i + 1).last() == m[i as int]);
        proof {
            lemma_count_empty_bound(m.take(i as int));
        }
        match list_inner_exec(&gs[i]) {
            Some(l) => {
                if l.len() == 0 {
                    proof {
                        lemma_model_seq(l@);
                    }
                    n = n + 1;
                } else {
                    proof {
                        lemma_model_seq(l@);
                    }
                }
            },
            None => {},
        }
        i = i + 1;
    }
    assert(m.take(m.len() as int) =~= m);
    n
}

pub(crate) proof fn lemma_claim_upto(gs: Seq<ValueView>, ix: Seq<i64>, n: int)
    requires
        1 <= n <= gs.len(),
    ensures
        claim_upto(gs, ix, n).0.len() == gs.len(),
        forall|k: int| (k == 0 || n <= k < gs.len()) ==> #[trigger] claim_upto(gs, ix, n).0[k] == gs[k],
    decreases n,
{
    if n > 1 {
        lemma_claim_upto(gs, ix, n - 1);
    }
}

/// Keep in windows 1 and up of the mapping only the indices the pack
/// defines, as [`claim_upto`] states it; returns the indices they kept.
fn claim_windows(gs: &mut Vec<Value>, ix: &Vec<i64>) -> (claimed: Vec<i64>)
    requires
        old(gs)@.len() >= 1,
    ensures
        final(gs)@.len() == old(gs)@.len(),
        model_seq(final(gs)@) == claim_upto(model_seq(old(gs)@), ix@, old(gs)@.len() as int).0,
        claimed@ == claim_upto(model_seq(old(gs)@), ix@, old(gs)@.len() as int).1,
{
    let ghost g0 = model_seq(gs@);
    proof {
        lemma_model_seq(gs@);
        lemma_claim_upto(g0, ix@, 1);
    }
    let mut claimed: Vec<i64> = Vec::new();
    let mut w: usize = 1;
    while w < gs.len()
        invariant
            1 <= w <= gs@.len(),
            g0.len() == gs@.len(),
            model_seq(gs@) == claim_upto(g0, ix@, w as int).0,
            claimed@ == claim_upto(g0, ix@, w as int).1,
        decreases gs@.len() - w,
    {
        proof {
            lemma_claim_upto(g0, ix@, w as int);
            lemma_model_seq(gs@);
        }
        let ghost gw = model_seq(gs@);
        assert(gw[w as int] == g0[w as int]);
        let mut inner: Vec<Value> = Vec::new();
        assert(model_seq(inner@) =~= Seq::<ValueView>::empty());
        if swap_item_list(gs, w, &mut inner) {
            let kept = keep_indices(&inner, ix);
            let mut ks = int_items_exec(&kept);
            claimed.append(&mut ks);
            proof {
                lemma_list_replaced(g0[w as int], Seq::empty(), model_seq(kept@));
                lemma_model_seq(gs@);
            }
            set_item_list(gs, w, kept);
            proof {
                assert(model_seq(gs@) =~= gw.update(w as int, list_replaced(g0[w as int], model_seq(kept@))));
            }
        }
        w = w + 1;
    }
    claimed
}

/// Replace the tab dict from a pack's `tabSetup` and re-point the window
/// mapping, as [`tabs_applied`] states it; returns how many windows end up
/// with no tab.
fn apply_tabs(ov: &mut Vec<(Value, Value)>, node: &Node) -> (emptied: usize)
    requires
        tabs_ok(model_pairs(old(ov)@)),
    ensures
        model_pairs(final(ov)@) == tabs_applied(model_pairs(old(ov)@), node@).0,
        emptied == tabs_applied(model_pairs(old(ov)@), node@).1,
{
    let ghost m0 = model_pairs(ov@);
    let j = prepare_tabs(ov);
    let ghost m1 = model_pairs(ov@);
    let ghost c = m1[j as int].1;
    proof {
        lemma_model_pairs(ov@);
        let cr = tabs_created(m0);
        assert(m1 == cr.update(j as int, (cr[j as int].0, rewrapped(cr[j as int].1))));
        lemma_rewrapped(cr[j as int].1);
    }
    let tabs = take_entry_dict(ov, j);
    let template = lowest_tab_exec(&tabs);
    let (fresh, ix) = fresh_tabs_exec(&template, node);
    put_entry_dict(ov, j, fresh, Ghost(c));
    let ghost m2 = model_pairs(ov@);
    assert(m2 == with_tabs(m0, fresh_tabs(template_of(tabs_of(m0)), pairs_of(node@)).0));
    proof {
        lemma_model_pairs(ov@);
    }
    let gj = match find_key_exec(ov, "tabsByWindowInstanceID".as_bytes()) {
        Some(gj) => gj,
        None => return 0,
    };
    proof {
        lemma_find_key_from(m2, kb("tabsByWindowInstanceID"@), 0);
    }
    match list_inner_exec(&ov[gj].1) {
        Some(_) => {},
        None => return 0,
    }
    let ghost gc = m2[gj as int].1;
    let mut gs = take_entry_list(ov, gj);
    let ghost g0 = model_seq(gs@);
    proof {
        lemma_model_seq(gs@);
    }
    let claimed = if gs.len() > 0 {
        claim_windows(&mut gs, &ix)
    } else {
        Vec::new()
    };
    let ghost g1 = model_seq(gs@);
    let ghost cl = claim_upto(g0, ix@, g0.len() as int);
    assert(g1 == cl.0 && claimed@ == cl.1);
    proof {
        lemma_model_seq(gs@);
        if g0.len() > 0 {
            lemma_claim_upto(g0, ix@, g0.len() as int);
        }
    }
    if gs.len() > 0 {
        let mut first: Vec<Value> = Vec::new();
        assert(model_seq(first@) =~= Seq::<ValueView>::empty());
        if swap_item_list(&mut gs, 0, &mut first) {
            let rest = not_claimed(&ix, &claimed);
            let vals = int_values_exec(rest.as_slice());
            proof {
                lemma_list_replaced(g1[0], Seq::empty(), model_seq(vals@));
            }
            set_item_list(&mut gs, 0, vals);
            proof {
                lemma_model_seq(gs@);
                assert(model_seq(gs@) =~= g1.update(0, list_replaced(g1[0], int_values(ix@.filter(not_in(claimed@))))));
            }
        }
    }
    let ghost g2 = model_seq(gs@);
    assert(g2 == (if g0.len() > 0 && list_inner(g1[0]) is Some {
        g1.update(0, list_replaced(g1[0], int_values(ix@.filter(not_in(cl.1)))))
    } else {
        g1
    }));
    let emptied = count_empty_exec(&gs);
    put_entry_list(ov, gj, gs, Ghost(gc));
    proof {
        lemma_model_pairs(ov@);
        assert(model_pairs(ov@) =~= m2.update(gj as int, (m2[gj as int].0, list_replaced(m2[gj as int].1, g2))));
    }
    emptied
}

// ---------------------------------------------------------------------------
// The presets and the whole import.
// ---------------------------------------------------------------------------

fn preset_fields_exec(body: &Node) -> (r: Vec<(Value, Value)>)
    ensures
        model_pairs(r@) == preset_fields(pairs_of(body@)),
{
    let ps = pairs(body);
    let ghost pv = pairs_of(body@);
    let mut e: Vec<(Value, Value)> = Vec::new();
    let mut i: usize = 0;
    assert(pv.take(0) =~= Seq::<(NodeView, NodeView)>::empty());
    assert(model_pairs(e@) =~= Seq::<(ValueView, ValueView)>::empty());
    while i < ps.len()
        invariant
            i <= ps@.len(),
            pv == pairs_of(body@),
            ps@.len() == pv.len(),
            forall|j: int| 0 <= j < ps@.len() ==> ((#[trigger] ps@[j]).0@, ps@[j].1@) == pv[j],
            model_pairs(e@) == preset_fields(pv.take(i as int)),
        decreases ps@.len() - i,
    {
        assert(pv.take(i + 1).drop_last() =~= pv.take(i as int));
        assert(pv.take(i + 1).last() == pv[i as int]);
        let (k, val) = ps[i];
        match as_str(k) {
            Some(key) => {
                let ids = ints(val);
                let item = (Value::Bytes(slice_to_vec(key.as_bytes())), Value::List(int_values_exec(ids.as_slice())));
                proof {
                    lemma_model_pairs_push(e@, item);
                }
                e.push(item);
            },
            None => {},
        }
        i = i + 1;
    }
    assert(pv.take(pv.len() as int) =~= pv);
    e
}

fn preset_entries_exec(node: &Node) -> (r: Vec<(Value, Value)>)
    ensures
        model_pairs(r@) == preset_entries(pairs_of(node@)),
{
    let ps = pairs(node);
    let ghost pv = pairs_of(node@);
    let mut e: Vec<(Value, Value)> = Vec::new();
    let mut i: usize = 0;
    assert(pv.take(0) =~= Seq::<(NodeView, NodeView)>::empty());
    assert(model_pairs(e@) =~= Seq::<(ValueView, ValueView)>::empty());
    while i < ps.len()
        invariant
            i <= ps@.len(),
            pv == pairs_of(node@),
            ps@.len() == pv.len(),
            forall|j: int| 0 <= j < ps@.len() ==> ((#[trigger] ps@[j]).0@, ps@[j].1@) == pv[j],
            model_pairs(e@) == preset_entries(pv.take(i as int)),
        decreases ps@.len() - i,
    {
        assert(pv.take(i + 1).drop_last() =~= pv.take(i as int));
        assert(pv.take(i + 1).last() == pv[i as int]);
        let (k, val) = ps[i];
        match as_str(k) {
            Some(name) => {
                let item = (Value::Bytes(slice_to_vec(name.as_bytes())), Value::Dict(preset_fields_exec(val)));
                proof {
                    lemma_model_pairs_push(e@, item);
                }
                e.push(item);
            },
            None => {},
        }
        i = i + 1;
    }
    assert(pv.take(pv.len() as int) =~= pv);
    e
}

fn is_empty_section_exec(n: &Node) -> (r: bool)
    ensures
        r == is_empty_section(n@),
{
    match n {
        Node::List(items) => {
            proof {
                lemma_node_seq(items@);
            }
            items.len() == 0
        },
        _ => false,
    }
}

/// Set each write's payload in order, as [`writes_applied`] states it.
fn apply_writes(ov: &mut Vec<(Value, Value)>, writes: Vec<(Vec<u8>, Value)>)
    ensures
        model_pairs(final(ov)@) == writes_applied(
            model_pairs(old(ov)@),
            writes@.map_values(|e: (Vec<u8>, Value)| (e.0@, e.1@)),
        ),
{
    let ghost ov0 = model_pairs(ov@);
    let ghost ws = writes@.map_values(|e: (Vec<u8>, Value)| (e.0@, e.1@));
    let mut writes = writes;
    let mut i: usize = 0;
    assert(ws.take(0) =~= Seq::<(Seq<u8>, ValueView)>::empty());
    while i < writes.len()
        invariant
            i <= writes@.len(),
            ws == writes@.map_values(|e: (Vec<u8>, Value)| (e.0@, e.1@)),
            model_pairs(ov@) == writes_applied(ov0, ws.take(i as int)),
        decreases writes@.len() - i,
    {
        assert(ws.take(i + 1).drop_last() =~= ws.take(i as int));
        assert(ws.take(i + 1).last() == ws[i as int]);
        let x = crate::reshare::clone_value(&writes[i].1);
        put_payload(ov, writes[i].0.as_slice(), x, &Slot::NotStamp, true);
        i = i + 1;
    }
    assert(ws.take(ws.len() as int) =~= ws);
}

/// Apply an overview pack to a user file. Every value is built before the
/// first change, so a pack whose `shipLabelOrder` is not a sequence fails
/// with the file untouched; sections the pack omits are left as they were.
/// List sections, colours, blinks, ship labels and known settings are
/// written under their container keys (keeping the file's timestamp
/// wrappers); presets replace the account's presets; `tabSetup` replaces the
/// tabs and re-points the window mapping, never minting one. The report
/// names each section written and every warning, as [`spec_apply_pack`]
/// states it.
pub fn apply_pack(v: &mut Value, pack: &Pack) -> (r: Result<PackReport, PackError>)
    requires
        pack_build(pack@) is Ok ==> spec_inline(old(v)@) is Some,
        pack_build(pack@) is Ok ==> (overview_of(spec_inline(old(v)@)->Some_0) matches Some(ov) ==> pack_ready(
            pack@,
            ov,
        )),
    ensures
        (final(v)@, outcome_of(r)) == spec_apply_pack(old(v)@, pack@),
{
    let (writes, mut applied, mut warnings) = match build(pack) {
        Ok(b) => b,
        Err(e) => return Err(e),
    };
    let ghost b = build_view(writes@, applied@, warnings@);
    let ghost (a0, n0) = (applied@, warnings@);
    let presets = match pack.get("presets") {
        Some(node) => {
            if is_empty_section_exec(node) {
                warnings.push(String::from_str("ignored empty 'presets' section (would have left the account with no presets)"));
                None
            } else {
                Some(preset_entries_exec(node))
            }
        },
        None => None,
    };
    let tabs = match pack.get("tabSetup") {
        Some(node) => {
            if is_empty_section_exec(node) {
                warnings.push(String::from_str("ignored empty 'tabSetup' section (would have left the account with no tabs)"));
                None
            } else {
                Some(node)
            }
        },
        None => None,
    };
    proof {
        reveal_strlit("ignored empty 'presets' section (would have left the account with no presets)");
        assert(warnings@.map_values(|s: String| s@) =~= b.warnings + empty_warnings(pack@));
    }
    let w = crate::reshare::inline(v);
    *v = w;
    let ghost w0 = v@;
    let mut ov = match take_overview(v) {
        None => return Err(PackError::NoOverview),
        Some(ov) => ov,
    };
    let ghost ovm = model_pairs(ov@);
    apply_writes(&mut ov, writes);
    match presets {
        Some(x) => {
            put_payload(&mut ov, "overviewProfilePresets".as_bytes(), Value::Dict(x), &Slot::NotStamp, true);
            ov = without_bytes_key(&ov, "overviewProfilePresets_notSaved".as_bytes());
            applied.push(String::from_str("presets"));
        },
        None => {},
    }
    let ghost a1 = applied@;
    proof {
        assert(model_pairs(ov@) == staged(pack@, b, ovm));
        assert(applied@.map_values(|s: String| s@) =~= b.applied + if live_section(pack@, "presets"@) is Some {
            seq!["presets"@]
        } else {
            Seq::empty()
        });
    }
    let ghost n1 = warnings@;
    match tabs {
        Some(node) => {
            let n = apply_tabs(&mut ov, node);
            applied.push(String::from_str("tabSetup"));
            proof {
                assert(applied@.map_values(|s: String| s@) =~= a1.map_values(|s: String| s@).push("tabSetup"@));
            }
            if n > 0 {
                let mut t = decimal(n as i128);
                t.append(" overview window(s) ended up with no tabs (the pack has fewer tabs than the account's window layout expects)");
                warnings.push(t);
                proof {
                    assert(warnings@.map_values(|s: String| s@) =~= n1.map_values(|s: String| s@).push(emptied_warning(n as nat)));
                }
            }
        },
        None => {},
    }
    put_overview_entries(v, ov, Ghost(w0));
    Ok(PackReport { applied, warnings })
}

/// Whether [`apply_pack`] can take this document and pack: exactly its
/// `requires` (references resolve, and a pack that builds finds, after its
/// list and preset writes, a tab dict to re-point). A caller that is not
/// verified tests this before the call.
pub fn pack_applicable(v: &Value, pack: &Pack) -> (b: bool)
    ensures
        b == ((pack_build(pack@) is Ok ==> spec_inline(v@) is Some) && (pack_build(pack@) is Ok ==> (overview_of(
            spec_inline(v@)->Some_0,
        ) matches Some(ov) ==> pack_ready(pack@, ov)))),
{
    let (writes, _applied, _warnings) = match build(pack) {
        Ok(b) => b,
        Err(_) => return true,
    };
    let ghost b = build_view(writes@, _applied@, _warnings@);
    let mut w = match crate::reshare::try_inline(v) {
        Some(w) => w,
        None => return false,
    };
    let mut ov = match take_overview(&mut w) {
        None => return true,
        Some(ov) => ov,
    };
    let ghost ovm = model_pairs(ov@);
    apply_writes(&mut ov, writes);
    match pack.get("presets") {
        Some(node) => {
            if !is_empty_section_exec(node) {
                let x = preset_entries_exec(node);
                put_payload(&mut ov, "overviewProfilePresets".as_bytes(), Value::Dict(x), &Slot::NotStamp, true);
                ov = without_bytes_key(&ov, "overviewProfilePresets_notSaved".as_bytes());
            }
        },
        None => {},
    }
    assert(model_pairs(ov@) == staged(pack@, b, ovm));
    let live_tabs = match pack.get("tabSetup") {
        Some(node) => !is_empty_section_exec(node),
        None => false,
    };
    if !live_tabs {
        return true;
    }
    let ghost m = model_pairs(ov@);
    let j = prepare_tabs(&mut ov);
    proof {
        lemma_model_pairs(ov@);
        let x = tabs_created(m)[j as int].1;
        assert(model_pairs(ov@)[j as int].1 == rewrapped(x));
        if x is Dict {
            assert(dict_inner(rewrapped(x)) is Some) by {
                reveal_with_fuel(crate::batch::first_dict_from, 2);
            }
        } else if x is List {
            assert(dict_inner(rewrapped(x)) is None) by {
                reveal_with_fuel(crate::batch::first_dict_from, 3);
            }
        }
    }
    crate::batch::dict_inner_exec(&ov[j].1).is_some()
}

} // verus!
