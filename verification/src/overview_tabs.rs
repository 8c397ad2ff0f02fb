//! Structural authoring for overview tabs: edits of the user file's
//! `overview` container, `tabsettings_new` (the index-keyed tab dict) and
//! `tabsByWindowInstanceID` (window to tab indices). Every entry point
//! inlines the whole tree first and edits plain values.

use vstd::prelude::*;
use vstd::slice::slice_to_vec;
use vstd::string::StringExecFns;
use vstd::utf8::*;

use crate::batch::{
    dict_inner, find_key, find_key_exec, find_key_from, is_bytes, lemma_find_key_from, spec_is_bytes,
};
use crate::container::{
    dict_replaced, int_of, lemma_dict_replaced, lemma_list_replaced, lemma_model_pairs_push,
    lemma_model_seq_push, list_inner, list_replaced, stamped, stamped_exec, swap_dict_inner, swap_entry_dict,
    swap_item_list, Pairs, list_inner_exec, take_entry_dict, put_entry_dict, take_entry_list, put_entry_list,
    set_item_list, without_int_key, without_int, without_bytes_key, not_int_key, not_int, not_bytes_key,
    sort_ints, int_le,
};
use crate::batch::dict_inner_exec;
use crate::parse::{decimal, decimal_text};
use crate::path::{lemma_model_pairs_update, lemma_model_seq_update};
use crate::reshare::spec_inline;
use crate::value::{lemma_model_pairs, lemma_model_seq, model, model_pairs, model_seq, Value, ValueView};

verus! {

/// Why an overview tab or window edit was refused.
#[derive(Debug, Clone, PartialEq, Eq)]
pub enum OverviewTabError {
    /// No `overview` container in the file.
    NoOverview,
    /// No tab with this index in `tabsettings_new`.
    UnknownTab { index: i64 },
    /// No overview window at this position in `tabsByWindowInstanceID`.
    UnknownWindow { index: usize },
    /// Refused: would delete the last remaining tab.
    LastTab,
    /// Refused: would remove the last overview window.
    LastWindow,
    /// Refused: this account has no tab-to-window mapping. Not damage: the
    /// client's own overview importer deletes `tabsByWindowInstanceID` and
    /// then distributes tabs across its windows by default.
    NoWindowMapping,
    /// Refused: this account already maps tabs to windows.
    WindowMappingExists,
    /// Refused: there are no tabs to map, and a mapping whose window lists no
    /// tabs hides the entire overview.
    NoTabsToMap,
    /// Refused: only the last overview window can be removed for now.
    NotLastWindow { index: usize },
    /// No preset with this name in `overviewProfilePresets`.
    UnknownPreset { name: String },
    /// A preset with the target name already exists.
    PresetExists { name: String },
    /// Refused: would delete the last remaining preset.
    LastPreset,
    /// Key is not in the boolean-settings allow-list.
    UnknownSetting { key: String },
}

/// The sentence the user is shown for an error.
pub open spec fn tab_error_text(e: OverviewTabError) -> Seq<char> {
    match e {
        OverviewTabError::NoOverview => "This file has no overview settings."@,
        OverviewTabError::UnknownTab { index } => "Tab "@ + decimal_text(index as int) + " does not exist."@,
        OverviewTabError::UnknownWindow { index } => "Overview window "@ + decimal_text(index as int)
            + " does not exist."@,
        OverviewTabError::LastTab => "An overview must keep at least one tab."@,
        OverviewTabError::LastWindow => "There must be at least one overview window."@,
        OverviewTabError::NoWindowMapping => "This account does not use per-window tabs, so there are no windows to change. EVE removes the tab-to-window mapping whenever an overview pack is imported through the client, and the overview works normally without it."@,
        OverviewTabError::WindowMappingExists => "This account already uses per-window tabs."@,
        OverviewTabError::NoTabsToMap => "There are no overview tabs to map to a window."@,
        OverviewTabError::NotLastWindow { index } => "Only the last overview window can be removed (tried "@
            + decimal_text(index as int) + ")."@,
        OverviewTabError::UnknownPreset { name } => "Preset \""@ + name@ + "\" does not exist."@,
        OverviewTabError::PresetExists { name } => "A preset named \""@ + name@ + "\" already exists."@,
        OverviewTabError::LastPreset => "An overview must keep at least one preset."@,
        OverviewTabError::UnknownSetting { key } => "Setting \""@ + key@ + "\" is not recognised."@,
    }
}

/// `a` followed by `b`.
fn joined(a: &str, b: &str) -> (r: String)
    ensures
        r@ == a@ + b@,
{
    let mut s = String::from_str(a);
    s.append(b);
    s
}

impl OverviewTabError {
    /// The sentence the user is shown for this error. Each describes a
    /// configuration or a refusal, never damage to the file.
    pub fn message(&self) -> (r: String)
        ensures
            r@ == tab_error_text(*self),
    {
        match self {
            OverviewTabError::NoOverview => String::from_str("This file has no overview settings."),
            OverviewTabError::UnknownTab { index } => {
                let mut s = joined("Tab ", decimal(*index as i128).as_str());
                s.append(" does not exist.");
                s
            },
            OverviewTabError::UnknownWindow { index } => {
                let mut s = joined("Overview window ", decimal(*index as i128).as_str());
                s.append(" does not exist.");
                s
            },
            OverviewTabError::LastTab => String::from_str("An overview must keep at least one tab."),
            OverviewTabError::LastWindow => String::from_str("There must be at least one overview window."),
            OverviewTabError::NoWindowMapping => String::from_str(
                "This account does not use per-window tabs, so there are no windows to change. EVE removes the tab-to-window mapping whenever an overview pack is imported through the client, and the overview works normally without it.",
            ),
            OverviewTabError::WindowMappingExists => String::from_str("This account already uses per-window tabs."),
            OverviewTabError::NoTabsToMap => String::from_str("There are no overview tabs to map to a window."),
            OverviewTabError::NotLastWindow { index } => {
                let mut s = joined("Only the last overview window can be removed (tried ", decimal(*index as i128).as_str());
                s.append(").");
                s
            },
            OverviewTabError::UnknownPreset { name } => {
                let mut s = joined("Preset \"", name.as_str());
                s.append("\" does not exist.");
                s
            },
            OverviewTabError::PresetExists { name } => {
                let mut s = joined("A preset named \"", name.as_str());
                s.append("\" already exists.");
                s
            },
            OverviewTabError::LastPreset => String::from_str("An overview must keep at least one preset."),
            OverviewTabError::UnknownSetting { key } => {
                let mut s = joined("Setting \"", key.as_str());
                s.append("\" is not recognised.");
                s
            },
        }
    }
}

// ---------------------------------------------------------------------------
// Keys and the `overview` container.
// ---------------------------------------------------------------------------

/// A key name as the file stores it: its UTF-8 bytes.
pub open spec fn kb(name: Seq<char>) -> Seq<u8> {
    encode_utf8(name)
}

/// Searching a dict only looks at its keys.
pub proof fn lemma_find_key_same_keys(a: Pairs, b: Pairs, key: Seq<u8>, i: int)
    requires
        a.len() == b.len(),
        forall|k: int| 0 <= k < a.len() ==> #[trigger] a[k].0 == b[k].0,
    ensures
        find_key_from(a, key, i) == find_key_from(b, key, i),
    decreases a.len() - i,
{
    if 0 <= i < a.len() {
        assert(a[i].0 == b[i].0);
        lemma_find_key_same_keys(a, b, key, i + 1);
    }
}

/// Appending an entry keyed `key` to a dict without one makes it the match.
pub proof fn lemma_find_key_push(e: Pairs, key: Seq<u8>, x: (ValueView, ValueView), i: int)
    requires
        0 <= i <= e.len(),
        find_key_from(e, key, i) is None,
        spec_is_bytes(x.0, key),
    ensures
        find_key_from(e.push(x), key, i) == Some(e.len() as int),
    decreases e.len() - i,
{
    if i < e.len() {
        assert(e.push(x)[i] == e[i]);
        lemma_find_key_push(e, key, x, i + 1);
    }
}

/// Replacing one entry's value leaves every search where it was.
pub proof fn lemma_find_key_update_value(e: Pairs, j: int, x: ValueView, key: Seq<u8>)
    requires
        0 <= j < e.len(),
    ensures
        find_key(e.update(j, (e[j].0, x)), key) == find_key(e, key),
{
    lemma_find_key_same_keys(e, e.update(j, (e[j].0, x)), key, 0);
}

/// The entries of the document's `overview` container.
pub open spec fn overview_of(root: ValueView) -> Option<Pairs> {
    match root {
        ValueView::Dict(r) => match find_key(r, kb("overview"@)) {
            Some(j) => dict_inner(r[j].1),
            None => None,
        },
        _ => None,
    }
}

/// The document with its `overview` container's entries replaced by `ov`.
pub open spec fn with_overview(root: ValueView, ov: Pairs) -> ValueView {
    match root {
        ValueView::Dict(r) => match find_key(r, kb("overview"@)) {
            Some(j) => ValueView::Dict(r.update(j, (r[j].0, dict_replaced(r[j].1, ov)))),
            None => root,
        },
        _ => root,
    }
}

proof fn lemma_with_overview(root: ValueView, a: Pairs, b: Pairs)
    requires
        overview_of(root) is Some,
    ensures
        overview_of(with_overview(root, a)) == Some(a),
        with_overview(with_overview(root, a), b) == with_overview(root, b),
        with_overview(root, overview_of(root)->Some_0) == root,
{
    if let ValueView::Dict(r) = root {
        let j = find_key(r, kb("overview"@))->Some_0;
        lemma_find_key_from(r, kb("overview"@), 0);
        lemma_dict_replaced(r[j].1, a, b);
        let ra = r.update(j, (r[j].0, dict_replaced(r[j].1, a)));
        lemma_find_key_update_value(r, j, dict_replaced(r[j].1, a), kb("overview"@));
        assert(ra.update(j, (ra[j].0, dict_replaced(ra[j].1, b))) =~= r.update(j, (r[j].0, dict_replaced(r[j].1, b))));
        assert(r.update(j, (r[j].0, dict_replaced(r[j].1, overview_of(root)->Some_0))) =~= r);
    }
}

/// Take the `overview` container's entries out of the document, leaving an
/// empty dict in their place.
pub(crate) fn take_overview(v: &mut Value) -> (r: Option<Vec<(Value, Value)>>)
    ensures
        r is Some ==> overview_of(old(v)@) == Some(model_pairs(r->Some_0@)),
        r is Some ==> final(v)@ == with_overview(old(v)@, Seq::empty()),
        r is None ==> overview_of(old(v)@) is None && final(v)@ == old(v)@,
{
    let mut whole = Value::Nil;
    std::mem::swap(v, &mut whole);
    match whole {
        Value::Dict(mut root) => {
            proof {
                lemma_model_pairs(root@);
            }
            match find_key_exec(&root, "overview".as_bytes()) {
                Some(j) => {
                    let ghost before = root@;
                    let mut ov: Vec<(Value, Value)> = Vec::new();
                    assert(model_pairs(ov@) =~= Seq::<(ValueView, ValueView)>::empty());
                    let ghost oldc = before[j as int].1;
                    let found = swap_dict_inner(&mut root[j].1, &mut ov);
                    proof {
                        lemma_model_pairs_update(before, j as int, root@[j as int]);
                        assert(before.update(j as int, root@[j as int]) =~= root@);
                        let mb = model_pairs(before);
                        assert(mb[j as int] == (model(before[j as int].0), model(oldc)));
                        assert(find_key(mb, kb("overview"@)) == Some(j as int));
                        assert(overview_of(ValueView::Dict(mb)) == dict_inner(model(oldc)));
                        if found {
                            assert(overview_of(ValueView::Dict(mb)) == Some(model_pairs(ov@)));
                            assert(model_pairs(root@) == mb.update(j as int, (mb[j as int].0, dict_replaced(model(oldc), Seq::empty()))));
                            assert(with_overview(ValueView::Dict(mb), Seq::empty()) == ValueView::Dict(model_pairs(root@)));
                        } else {
                            assert(mb.update(j as int, mb[j as int]) =~= mb);
                        }
                    }
                    *v = Value::Dict(root);
                    if found {
                        Some(ov)
                    } else {
                        None
                    }
                },
                None => {
                    *v = Value::Dict(root);
                    None
                },
            }
        },
        other => {
            *v = other;
            None
        },
    }
}

/// Put entries back as the `overview` container's.
fn put_overview(v: &mut Value, ov: Vec<(Value, Value)>)
    requires
        overview_of(old(v)@) is Some,
    ensures
        final(v)@ == with_overview(old(v)@, model_pairs(ov@)),
{
    let mut ov = ov;
    let mut whole = Value::Nil;
    std::mem::swap(v, &mut whole);
    match whole {
        Value::Dict(mut root) => {
            proof {
                lemma_model_pairs(root@);
            }
            match find_key_exec(&root, "overview".as_bytes()) {
                Some(j) => {
                    let ghost before = root@;
                    swap_dict_inner(&mut root[j].1, &mut ov);
                    proof {
                        lemma_model_pairs_update(before, j as int, root@[j as int]);
                        assert(before.update(j as int, root@[j as int]) =~= root@);
                    }
                    *v = Value::Dict(root);
                },
                None => {
                    *v = Value::Dict(root);
                },
            }
        },
        other => {
            *v = other;
        },
    }
}

// ---------------------------------------------------------------------------
// The tab dict and the window mapping.
// ---------------------------------------------------------------------------

/// `ov` with a legacy `tabsettings` key renamed, when there is no
/// `tabsettings_new` (the two are structurally identical).
pub open spec fn tabs_migrated(ov: Pairs) -> Pairs {
    if find_key(ov, kb("tabsettings_new"@)) is None {
        match find_key(ov, kb("tabsettings"@)) {
            Some(j) => ov.update(j, (ValueView::Bytes(kb("tabsettings_new"@)), ov[j].1)),
            None => ov,
        }
    } else {
        ov
    }
}

/// ... with an empty, wrapped tab dict minted when there is still none.
pub open spec fn tabs_created(ov: Pairs) -> Pairs {
    let m = tabs_migrated(ov);
    if find_key(m, kb("tabsettings_new"@)) is None {
        m.push((ValueView::Bytes(kb("tabsettings_new"@)), stamped(ValueView::Dict(Seq::empty()))))
    } else {
        m
    }
}

/// A bare dict or list given back its `(timestamp, payload)` wrapper.
pub open spec fn rewrapped(v: ValueView) -> ValueView {
    if v is Dict || v is List {
        stamped(v)
    } else {
        v
    }
}

/// Where the tab dict sits.
pub open spec fn tabs_at(ov: Pairs) -> int {
    find_key(tabs_created(ov), kb("tabsettings_new"@))->Some_0
}

/// `ov` with its tab dict found or minted, and wrapped.
pub open spec fn tabs_ready(ov: Pairs) -> Pairs {
    let c = tabs_created(ov);
    c.update(tabs_at(ov), (c[tabs_at(ov)].0, rewrapped(c[tabs_at(ov)].1)))
}

/// The tab entry holds a dict (bare or wrapped); otherwise reaching the tab
/// dict fails.
pub open spec fn tabs_ok(ov: Pairs) -> bool {
    dict_inner(tabs_created(ov)[tabs_at(ov)].1) is Some
}

/// The tab dict's entries.
pub open spec fn tabs_of(ov: Pairs) -> Pairs {
    dict_inner(tabs_ready(ov)[tabs_at(ov)].1)->Some_0
}

/// `ov` with the tab dict's entries replaced by `t`.
pub open spec fn with_tabs(ov: Pairs, t: Pairs) -> Pairs {
    let c = tabs_ready(ov);
    c.update(tabs_at(ov), (c[tabs_at(ov)].0, dict_replaced(c[tabs_at(ov)].1, t)))
}

/// `ov` with an empty, wrapped window mapping minted when there is none.
pub open spec fn groups_created(ov: Pairs) -> Pairs {
    if find_key(ov, kb("tabsByWindowInstanceID"@)) is None {
        ov.push((ValueView::Bytes(kb("tabsByWindowInstanceID"@)), stamped(ValueView::List(Seq::empty()))))
    } else {
        ov
    }
}

/// Where the window mapping sits.
pub open spec fn groups_at(ov: Pairs) -> int {
    find_key(groups_created(ov), kb("tabsByWindowInstanceID"@))->Some_0
}

/// `ov` with its window mapping found or minted, and wrapped.
pub open spec fn groups_ready(ov: Pairs) -> Pairs {
    let c = groups_created(ov);
    c.update(groups_at(ov), (c[groups_at(ov)].0, rewrapped(c[groups_at(ov)].1)))
}

/// The mapping entry holds a list (bare or wrapped).
pub open spec fn groups_ok(ov: Pairs) -> bool {
    list_inner(groups_created(ov)[groups_at(ov)].1) is Some
}

/// The window mapping: one list of tab indices per window.
pub open spec fn groups_of(ov: Pairs) -> Seq<ValueView> {
    list_inner(groups_ready(ov)[groups_at(ov)].1)->Some_0
}

/// `ov` with the window mapping replaced by `g`.
pub open spec fn with_groups(ov: Pairs, g: Seq<ValueView>) -> Pairs {
    let c = groups_ready(ov);
    c.update(groups_at(ov), (c[groups_at(ov)].0, list_replaced(c[groups_at(ov)].1, g)))
}

/// How many windows the mapping has; 0 when there is no mapping. Reading
/// never mints one.
pub open spec fn window_count(ov: Pairs) -> nat {
    match find_key(ov, kb("tabsByWindowInstanceID"@)) {
        Some(j) => match list_inner(ov[j].1) {
            Some(l) => l.len(),
            None => 0,
        },
        None => 0,
    }
}

pub proof fn lemma_rewrapped(v: ValueView)
    ensures
        dict_inner(rewrapped(v)) == dict_inner(v),
        list_inner(rewrapped(v)) == list_inner(v),
{
    if v is Dict || v is List {
        let items = seq![crate::container::zero_stamp(), v];
        assert(rewrapped(v) == ValueView::Tuple(items));
        assert(!(items[0] is Dict) && !(items[0] is List));
        assert(crate::batch::first_dict_from(items, 2) is None);
        assert(crate::container::first_list_from(items, 2) is None);
        if v is Dict {
            assert(crate::batch::first_dict_from(items, 1) == Some(1int));
            assert(crate::batch::first_dict_from(items, 0) == Some(1int));
            assert(crate::container::first_list_from(items, 1) is None);
            assert(crate::container::first_list_from(items, 0) is None);
        } else {
            assert(crate::container::first_list_from(items, 1) == Some(1int));
            assert(crate::container::first_list_from(items, 0) == Some(1int));
            assert(crate::batch::first_dict_from(items, 1) is None);
            assert(crate::batch::first_dict_from(items, 0) is None);
        }
    }
}

/// Give a bare dict or list back its wrapper.
fn rewrap(slot: &mut Value)
    ensures
        final(slot)@ == rewrapped(old(slot)@),
{
    let bare = match slot {
        Value::Dict(_) => true,
        Value::List(_) => true,
        _ => false,
    };
    if bare {
        let mut inner = Value::Nil;
        std::mem::swap(slot, &mut inner);
        *slot = stamped_exec(inner);
    }
}

/// Find or mint the tab dict and wrap it; returns where it sits.
pub(crate) fn prepare_tabs(ov: &mut Vec<(Value, Value)>) -> (j: usize)
    ensures
        model_pairs(final(ov)@) == tabs_ready(model_pairs(old(ov)@)),
        j == tabs_at(model_pairs(old(ov)@)),
        j < final(ov)@.len(),
        j < tabs_created(model_pairs(old(ov)@)).len(),
{
    let ghost m0 = model_pairs(ov@);
    proof {
        lemma_model_pairs(ov@);
    }
    let tsn = "tabsettings_new".as_bytes();
    if find_key_exec(ov, tsn).is_none() {
        match find_key_exec(ov, "tabsettings".as_bytes()) {
            Some(j) => {
                let ghost before = ov@;
                let mut k = Value::Bytes(slice_to_vec(tsn));
                std::mem::swap(&mut ov[j].0, &mut k);
                proof {
                    lemma_model_pairs_update(before, j as int, ov@[j as int]);
                    assert(before.update(j as int, ov@[j as int]) =~= ov@);
                }
            },
            None => {},
        }
    }
    let ghost m1 = model_pairs(ov@);
    assert(m1 == tabs_migrated(m0));
    proof {
        lemma_model_pairs(ov@);
    }
    if find_key_exec(ov, tsn).is_none() {
        let ghost before = ov@;
        let empty: Vec<(Value, Value)> = Vec::new();
        assert(model_pairs(empty@) =~= Seq::<(ValueView, ValueView)>::empty());
        let d = stamped_exec(Value::Dict(empty));
        ov.push((Value::Bytes(slice_to_vec(tsn)), d));
        proof {
            assert(ov@.subrange(0, before.len() as int) =~= before);
            lemma_model_pairs(ov@);
            lemma_find_key_push(m1, kb("tabsettings_new"@), model_pairs(ov@).last(), 0);
        }
    }
    let ghost m2 = model_pairs(ov@);
    assert(m2 == tabs_created(m0));
    proof {
        lemma_model_pairs(ov@);
        lemma_find_key_from(m2, kb("tabsettings_new"@), 0);
    }
    match find_key_exec(ov, tsn) {
        Some(j) => {
            let ghost before = ov@;
            rewrap(&mut ov[j].1);
            proof {
                lemma_model_pairs_update(before, j as int, ov@[j as int]);
                assert(before.update(j as int, ov@[j as int]) =~= ov@);
            }
            j
        },
        None => {
            assert(false);
            0
        },
    }
}

/// Find or mint the window mapping and wrap it; returns where it sits.
fn prepare_groups(ov: &mut Vec<(Value, Value)>) -> (j: usize)
    ensures
        model_pairs(final(ov)@) == groups_ready(model_pairs(old(ov)@)),
        j == groups_at(model_pairs(old(ov)@)),
        j < final(ov)@.len(),
        j < groups_created(model_pairs(old(ov)@)).len(),
{
    let ghost m0 = model_pairs(ov@);
    proof {
        lemma_model_pairs(ov@);
    }
    let key = "tabsByWindowInstanceID".as_bytes();
    if find_key_exec(ov, key).is_none() {
        let ghost before = ov@;
        let empty: Vec<Value> = Vec::new();
        assert(model_seq(empty@) =~= Seq::<ValueView>::empty());
        let l = stamped_exec(Value::List(empty));
        ov.push((Value::Bytes(slice_to_vec(key)), l));
        proof {
            assert(ov@.subrange(0, before.len() as int) =~= before);
            lemma_model_pairs(ov@);
            lemma_find_key_push(m0, kb("tabsByWindowInstanceID"@), model_pairs(ov@).last(), 0);
        }
    }
    let ghost m2 = model_pairs(ov@);
    assert(m2 == groups_created(m0));
    proof {
        lemma_model_pairs(ov@);
        lemma_find_key_from(m2, kb("tabsByWindowInstanceID"@), 0);
    }
    match find_key_exec(ov, key) {
        Some(j) => {
            let ghost before = ov@;
            rewrap(&mut ov[j].1);
            proof {
                lemma_model_pairs_update(before, j as int, ov@[j as int]);
                assert(before.update(j as int, ov@[j as int]) =~= ov@);
            }
            j
        },
        None => {
            assert(false);
            0
        },
    }
}

// ---------------------------------------------------------------------------
// Tabs by index, and tab names.
// ---------------------------------------------------------------------------

/// The first entry at or after `i` keyed by the integer `idx`.
pub open spec fn find_int_from(t: Pairs, idx: i64, i: int) -> Option<int>
    decreases t.len() - i,
{
    if i < 0 || i >= t.len() {
        None
    } else if int_of(t[i].0) == Some(idx) {
        Some(i)
    } else {
        find_int_from(t, idx, i + 1)
    }
}

/// The first entry keyed by the integer `idx`.
pub open spec fn find_int(t: Pairs, idx: i64) -> Option<int> {
    find_int_from(t, idx, 0)
}

pub proof fn lemma_find_int_from(t: Pairs, idx: i64, i: int)
    requires
        0 <= i,
    ensures
        find_int_from(t, idx, i) matches Some(j) ==> i <= j < t.len() && int_of(t[j].0) == Some(idx),
        find_int_from(t, idx, i) is None ==> forall|k: int| i <= k < t.len() ==> int_of(#[trigger] t[k].0) != Some(idx),
    decreases t.len() - i,
{
    if i < t.len() {
        lemma_find_int_from(t, idx, i + 1);
    }
}

pub(crate) fn find_int_exec(t: &Vec<(Value, Value)>, idx: i64) -> (r: Option<usize>)
    ensures
        match r {
            Some(j) => find_int(model_pairs(t@), idx) == Some(j as int) && j < t@.len(),
            None => find_int(model_pairs(t@), idx) is None,
        },
{
    let ghost m = model_pairs(t@);
    proof {
        lemma_model_pairs(t@);
    }
    let mut i: usize = 0;
    while i < t.len()
        invariant
            i <= t.len(),
            m == model_pairs(t@),
            m.len() == t@.len(),
            forall|j: int| 0 <= j < t@.len() ==> #[trigger] m[j] == (model(t@[j].0), model(t@[j].1)),
            find_int(m, idx) == find_int_from(m, idx, i as int),
        decreases t.len() - i,
    {
        if let Value::Int(k) = &t[i].0 {
            if *k == idx {
                return Some(i);
            }
        }
        i = i + 1;
    }
    None
}

/// The tab-name key: `name` as text or as bytes, or the string-table token
/// real files store it as.
pub open spec fn is_name_key(k: ValueView) -> bool {
    k == ValueView::Str("name"@) || k == ValueView::Bytes(kb("name"@)) || k == ValueView::StrTable(52)
}

/// The first entry at or after `i` keyed by the tab-name key.
pub open spec fn find_name_from(f: Pairs, i: int) -> Option<int>
    decreases f.len() - i,
{
    if i < 0 || i >= f.len() {
        None
    } else if is_name_key(f[i].0) {
        Some(i)
    } else {
        find_name_from(f, i + 1)
    }
}

pub proof fn lemma_find_name_from(f: Pairs, i: int)
    requires
        0 <= i,
    ensures
        find_name_from(f, i) matches Some(j) ==> i <= j < f.len() && is_name_key(f[j].0),
    decreases f.len() - i,
{
    if i < f.len() && !is_name_key(f[i].0) {
        lemma_find_name_from(f, i + 1);
    }
}

/// Whether two byte strings are equal.
pub fn bytes_same(a: &[u8], b: &[u8]) -> (r: bool)
    ensures
        r == (a@ == b@),
{
    if a.len() != b.len() {
        return false;
    }
    let mut i: usize = 0;
    while i < a.len()
        invariant
            i <= a.len(),
            a.len() == b.len(),
            forall|j: int| 0 <= j < i ==> a@[j] == b@[j],
        decreases a.len() - i,
    {
        if a[i] != b[i] {
            return false;
        }
        i = i + 1;
    }
    assert(a@ =~= b@);
    true
}

/// Whether a string is the given text.
pub fn text_is(s: &String, t: &str) -> (r: bool)
    ensures
        r == (s@ == t@),
{
    let r = bytes_same(s.as_str().as_bytes(), t.as_bytes());
    proof {
        if r {
            encode_utf8_decode_utf8(s@);
            encode_utf8_decode_utf8(t@);
        }
    }
    r
}

pub(crate) fn is_name_key_exec(k: &Value) -> (r: bool)
    ensures
        r == is_name_key(k@),
{
    match k {
        Value::Str(s) => text_is(s, "name"),
        Value::Bytes(_) => is_bytes(k, "name".as_bytes()),
        Value::StrTable(t) => *t == 52,
        _ => false,
    }
}

fn find_name_exec(f: &Vec<(Value, Value)>) -> (r: Option<usize>)
    ensures
        match r {
            Some(j) => find_name_from(model_pairs(f@), 0) == Some(j as int) && j < f@.len(),
            None => find_name_from(model_pairs(f@), 0) is None,
        },
{
    let ghost m = model_pairs(f@);
    proof {
        lemma_model_pairs(f@);
    }
    let mut i: usize = 0;
    while i < f.len()
        invariant
            i <= f.len(),
            m == model_pairs(f@),
            m.len() == f@.len(),
            forall|j: int| 0 <= j < f@.len() ==> #[trigger] m[j] == (model(f@[j].0), model(f@[j].1)),
            find_name_from(m, 0) == find_name_from(m, i as int),
        decreases f.len() - i,
    {
        if is_name_key_exec(&f[i].0) {
            return Some(i);
        }
        i = i + 1;
    }
    None
}

/// A name value of the same kind as `v`: bytes stay bytes, text stays text,
/// anything else becomes UCS-2 text.
pub open spec fn renamed(v: ValueView, name: Seq<char>) -> ValueView {
    match v {
        ValueView::Bytes(_) => ValueView::Bytes(kb(name)),
        ValueView::Str(_) => ValueView::Str(name),
        _ => ValueView::StrUcs2(name),
    }
}

/// A tab's fields with its name set: the existing name entry keeps its
/// value's kind; a tab without one gets a plain `name` key with a UCS-2 name.
pub open spec fn spec_set_name(f: Pairs, name: Seq<char>) -> Pairs {
    match find_name_from(f, 0) {
        Some(i) => f.update(i, (f[i].0, renamed(f[i].1, name))),
        None => f.push((ValueView::Str("name"@), ValueView::StrUcs2(name))),
    }
}

fn set_name(fields: &mut Vec<(Value, Value)>, name: &str)
    ensures
        model_pairs(final(fields)@) == spec_set_name(model_pairs(old(fields)@), name@),
{
    proof {
        lemma_model_pairs(fields@);
    }
    let ghost before = fields@;
    match find_name_exec(fields) {
        Some(i) => {
            proof {
                lemma_find_name_from(model_pairs(before), 0);
            }
            let mut nv = match &fields[i].1 {
                Value::Bytes(_) => Value::Bytes(slice_to_vec(name.as_bytes())),
                Value::Str(_) => Value::Str(String::from_str(name)),
                _ => Value::StrUcs2(String::from_str(name)),
            };
            std::mem::swap(&mut fields[i].1, &mut nv);
            proof {
                lemma_model_pairs_update(before, i as int, fields@[i as int]);
                assert(before.update(i as int, fields@[i as int]) =~= fields@);
            }
        },
        None => {
            let k = Value::Str(String::from_str("name"));
            let nv = Value::StrUcs2(String::from_str(name));
            fields.push((k, nv));
            proof {
                lemma_model_pairs_push(before, (k, nv));
            }
        },
    }
}

// ---------------------------------------------------------------------------
// Renaming a tab and pointing it at a preset.
// ---------------------------------------------------------------------------

/// The tab dict reached and its tab `idx`'s fields replaced by `f(fields)`;
/// `UnknownTab` when there is no such tab or it holds no dict.
pub open spec fn edit_tab_fields(ov: Pairs, idx: i64, nf: spec_fn(Pairs) -> Pairs) -> (Pairs, Result<(), OverviewTabError>) {
    let t = tabs_of(ov);
    match find_int(t, idx) {
        Some(i) => match dict_inner(t[i].1) {
            Some(f) => (with_tabs(ov, t.update(i, (t[i].0, dict_replaced(t[i].1, nf(f))))), Ok(())),
            None => (tabs_ready(ov), Err(OverviewTabError::UnknownTab { index: idx })),
        },
        None => (tabs_ready(ov), Err(OverviewTabError::UnknownTab { index: idx })),
    }
}

/// Renaming tab `idx`.
pub open spec fn spec_rename_tab(ov: Pairs, idx: i64, name: Seq<char>) -> (Pairs, Result<(), OverviewTabError>) {
    edit_tab_fields(ov, idx, |f: Pairs| spec_set_name(f, name))
}

/// A tab's fields pointed at preset `preset` (stored as bytes, as real files
/// do), adding the `overview` key when the tab lacks it.
pub open spec fn spec_point_at(f: Pairs, preset: Seq<char>) -> Pairs {
    match find_key(f, kb("overview"@)) {
        Some(i) => f.update(i, (f[i].0, ValueView::Bytes(kb(preset)))),
        None => f.push((ValueView::Bytes(kb("overview"@)), ValueView::Bytes(kb(preset)))),
    }
}

/// Pointing tab `idx` at a preset.
pub open spec fn spec_set_tab_preset(ov: Pairs, idx: i64, preset: Seq<char>) -> (Pairs, Result<(), OverviewTabError>) {
    edit_tab_fields(ov, idx, |f: Pairs| spec_point_at(f, preset))
}

fn point_at(fields: &mut Vec<(Value, Value)>, preset: &str)
    ensures
        model_pairs(final(fields)@) == spec_point_at(model_pairs(old(fields)@), preset@),
{
    proof {
        lemma_model_pairs(fields@);
    }
    let ghost before = fields@;
    match find_key_exec(fields, "overview".as_bytes()) {
        Some(i) => {
            let mut nv = Value::Bytes(slice_to_vec(preset.as_bytes()));
            std::mem::swap(&mut fields[i].1, &mut nv);
            proof {
                lemma_model_pairs_update(before, i as int, fields@[i as int]);
                assert(before.update(i as int, fields@[i as int]) =~= fields@);
            }
        },
        None => {
            let k = Value::Bytes(slice_to_vec("overview".as_bytes()));
            let nv = Value::Bytes(slice_to_vec(preset.as_bytes()));
            fields.push((k, nv));
            proof {
                lemma_model_pairs_push(before, (k, nv));
            }
        },
    }
}

/// Which edit to make to a tab's fields.
pub(crate) enum FieldEdit<'a> {
    Name(&'a str),
    Preset(&'a str),
}

pub(crate) open spec fn field_edit(e: FieldEdit) -> spec_fn(Pairs) -> Pairs {
    match e {
        FieldEdit::Name(n) => |f: Pairs| spec_set_name(f, n@),
        FieldEdit::Preset(p) => |f: Pairs| spec_point_at(f, p@),
    }
}

/// Take the tab dict out of `ov` (already prepared at `j`), leaving an
/// empty dict in its place.
fn take_tabs(ov: &mut Vec<(Value, Value)>, j: usize) -> (t: Vec<(Value, Value)>)
    requires
        j < old(ov)@.len(),
        dict_inner(model_pairs(old(ov)@)[j as int].1) is Some,
    ensures
        final(ov)@.len() == old(ov)@.len(),
        model_pairs(t@) == dict_inner(model_pairs(old(ov)@)[j as int].1)->Some_0,
        model_pairs(final(ov)@) == model_pairs(old(ov)@).update(
            j as int,
            (model_pairs(old(ov)@)[j as int].0, dict_replaced(model_pairs(old(ov)@)[j as int].1, Seq::empty())),
        ),
{
    let mut t: Vec<(Value, Value)> = Vec::new();
    assert(model_pairs(t@) =~= Seq::<(ValueView, ValueView)>::empty());
    swap_entry_dict(ov, j, &mut t);
    t
}

/// Put a tab dict back at `j`, where `take_tabs` took one.
fn put_tabs(ov: &mut Vec<(Value, Value)>, j: usize, t: Vec<(Value, Value)>, Ghost(c): Ghost<ValueView>)
    requires
        j < old(ov)@.len(),
        dict_inner(c) is Some,
        model_pairs(old(ov)@)[j as int].1 == dict_replaced(c, Seq::empty()),
    ensures
        model_pairs(final(ov)@) == model_pairs(old(ov)@).update(
            j as int,
            (model_pairs(old(ov)@)[j as int].0, dict_replaced(c, model_pairs(t@))),
        ),
{
    let mut t = t;
    proof {
        lemma_dict_replaced(c, Seq::empty(), model_pairs(t@));
    }
    swap_entry_dict(ov, j, &mut t);
}

/// Edit tab `idx`'s fields, as [`edit_tab_fields`] states it.
pub(crate) fn edit_fields_in(ov: &mut Vec<(Value, Value)>, idx: i64, e: FieldEdit) -> (r: Result<(), OverviewTabError>)
    requires
        tabs_ok(model_pairs(old(ov)@)),
    ensures
        model_pairs(final(ov)@) == edit_tab_fields(model_pairs(old(ov)@), idx, field_edit(e)).0,
        r == edit_tab_fields(model_pairs(old(ov)@), idx, field_edit(e)).1,
{
    let ghost m0 = model_pairs(ov@);
    let j = prepare_tabs(ov);
    let ghost m1 = model_pairs(ov@);
    let ghost c = m1[j as int].1;
    proof {
        lemma_model_pairs(ov@);
        let cr = tabs_created(m0);
        assert(m1 == cr.update(j as int, (cr[j as int].0, rewrapped(cr[j as int].1))));
        assert(j < cr.len());
        lemma_rewrapped(cr[j as int].1);
        assert(c == rewrapped(cr[j as int].1));
    }
    let mut tabs = take_tabs(ov, j);
    let ghost t0 = model_pairs(tabs@);
    let r = match find_int_exec(&tabs, idx) {
        Some(i) => {
            proof {
                lemma_find_int_from(t0, idx, 0);
                lemma_model_pairs(tabs@);
            }
            let mut f: Vec<(Value, Value)> = Vec::new();
            assert(model_pairs(f@) =~= Seq::<(ValueView, ValueView)>::empty());
            let ghost ti = t0[i as int].1;
            if swap_entry_dict(&mut tabs, i, &mut f) {
                let ghost mid = model_pairs(tabs@);
                assert(mid == t0.update(i as int, (t0[i as int].0, dict_replaced(ti, Seq::empty()))));
                match e {
                    FieldEdit::Name(n) => set_name(&mut f, n),
                    FieldEdit::Preset(p) => point_at(&mut f, p),
                }
                proof {
                    lemma_dict_replaced(ti, Seq::empty(), model_pairs(f@));
                }
                let ghost fv = model_pairs(f@);
                assert(mid[i as int].1 == dict_replaced(ti, Seq::empty()));
                assert(dict_inner(mid[i as int].1) is Some);
                let found2 = swap_entry_dict(&mut tabs, i, &mut f);
                assert(found2);
                proof {
                    assert(model_pairs(tabs@) == mid.update(i as int, (mid[i as int].0, dict_replaced(mid[i as int].1, fv))));
                    assert(model_pairs(tabs@) =~= t0.update(i as int, (t0[i as int].0, dict_replaced(ti, fv))));
                }
                Ok(())
            } else {
                Err(OverviewTabError::UnknownTab { index: idx })
            }
        },
        None => Err(OverviewTabError::UnknownTab { index: idx }),
    };
    put_tabs(ov, j, tabs, Ghost(c));
    proof {
        if r is Err {
            lemma_dict_replaced(c, Seq::empty(), t0);
            assert(m1.update(j as int, (m1[j as int].0, c)) =~= m1);
        }
    }
    r
}

/// The document after an edit of its `overview` container: `NoOverview`,
/// with the document only inlined, when there is none.
pub open spec fn overview_edited<T>(w: ValueView, edit: spec_fn(Pairs) -> (Pairs, Result<T, OverviewTabError>)) -> (ValueView, Result<T, OverviewTabError>) {
    match overview_of(w) {
        Some(ov) => (with_overview(w, edit(ov).0), edit(ov).1),
        None => (w, Err(OverviewTabError::NoOverview)),
    }
}

/// Rename tab `tab_idx`. The existing name entry keeps its value's kind
/// (real files store names as bytes, UTF-8 or UCS-2 text); a tab without
/// one gets a plain `name` key.
pub fn rename_tab(v: &mut Value, tab_idx: i64, name: &str) -> (r: Result<(), OverviewTabError>)
    requires
        spec_inline(old(v)@) is Some,
        overview_of(spec_inline(old(v)@)->Some_0) matches Some(ov) ==> tabs_ok(ov),
    ensures
        (final(v)@, r) == overview_edited(
            spec_inline(old(v)@)->Some_0,
            |ov: Pairs| spec_rename_tab(ov, tab_idx, name@),
        ),
{
    let w = crate::reshare::inline(v);
    *v = w;
    let ghost w0 = v@;
    match take_overview(v) {
        None => Err(OverviewTabError::NoOverview),
        Some(mut ov) => {
            let r = edit_fields_in(&mut ov, tab_idx, FieldEdit::Name(name));
            proof {
                lemma_with_overview(w0, Seq::empty(), model_pairs(ov@));
            }
            put_overview(v, ov);
            r
        },
    }
}

/// Point tab `tab_idx` at a filter preset by name (its `overview` field),
/// stored as bytes as real files do; the key is added when the tab lacks it.
pub fn set_tab_preset(v: &mut Value, tab_idx: i64, preset: &str) -> (r: Result<(), OverviewTabError>)
    requires
        spec_inline(old(v)@) is Some,
        overview_of(spec_inline(old(v)@)->Some_0) matches Some(ov) ==> tabs_ok(ov),
    ensures
        (final(v)@, r) == overview_edited(
            spec_inline(old(v)@)->Some_0,
            |ov: Pairs| spec_set_tab_preset(ov, tab_idx, preset@),
        ),
{
    let w = crate::reshare::inline(v);
    *v = w;
    let ghost w0 = v@;
    match take_overview(v) {
        None => Err(OverviewTabError::NoOverview),
        Some(mut ov) => {
            let r = edit_fields_in(&mut ov, tab_idx, FieldEdit::Preset(preset));
            proof {
                lemma_with_overview(w0, Seq::empty(), model_pairs(ov@));
            }
            put_overview(v, ov);
            r
        },
    }
}

// ---------------------------------------------------------------------------
// Deleting a tab, reordering and removing windows.
// ---------------------------------------------------------------------------

/// A window's tab list with `idx` dropped; a window holding no list is left
/// alone.
pub open spec fn window_without(g: ValueView, idx: i64) -> ValueView {
    match list_inner(g) {
        Some(l) => list_replaced(g, l.filter(not_int(idx))),
        None => g,
    }
}

/// `ov` with `idx` purged from every window, when a mapping exists; an
/// absent mapping is never minted.
pub open spec fn purged(ov: Pairs, idx: i64) -> Pairs {
    match find_key(ov, kb("tabsByWindowInstanceID"@)) {
        Some(j) => match list_inner(ov[j].1) {
            Some(gs) => ov.update(
                j,
                (ov[j].0, list_replaced(ov[j].1, gs.map_values(|g: ValueView| window_without(g, idx)))),
            ),
            None => ov,
        },
        None => ov,
    }
}

/// Deleting tab `idx`: refused for an unknown tab or the last one.
pub open spec fn spec_delete_tab(ov: Pairs, idx: i64) -> (Pairs, Result<(), OverviewTabError>) {
    let t = tabs_of(ov);
    if find_int(t, idx) is None {
        (tabs_ready(ov), Err(OverviewTabError::UnknownTab { index: idx }))
    } else if t.len() <= 1 {
        (tabs_ready(ov), Err(OverviewTabError::LastTab))
    } else {
        (purged(with_tabs(ov, t.filter(not_int_key(idx))), idx), Ok(()))
    }
}

fn purge_windows(ov: &mut Vec<(Value, Value)>, idx: i64)
    ensures
        model_pairs(final(ov)@) == purged(model_pairs(old(ov)@), idx),
{
    let ghost m0 = model_pairs(ov@);
    proof {
        lemma_model_pairs(ov@);
    }
    match find_key_exec(ov, "tabsByWindowInstanceID".as_bytes()) {
        Some(j) => {
            proof {
                lemma_find_key_from(m0, kb("tabsByWindowInstanceID"@), 0);
            }
            match list_inner_exec(&ov[j].1) {
                Some(_) => {
                    let ghost c = m0[j as int].1;
                    let mut gs = take_entry_list(ov, j);
                    let ghost g0 = model_seq(gs@);
                    let mut w: usize = 0;
                    proof {
                        lemma_model_seq(gs@);
                    }
                    while w < gs.len()
                        invariant
                            w <= gs@.len(),
                            gs@.len() == g0.len(),
                            model_seq(gs@).len() == g0.len(),
                            forall|k: int| 0 <= k < w ==> #[trigger] model_seq(gs@)[k] == window_without(g0[k], idx),
                            forall|k: int| w <= k < g0.len() ==> #[trigger] model_seq(gs@)[k] == g0[k],
                        decreases gs@.len() - w,
                    {
                        let ghost before = model_seq(gs@);
                        let mut inner: Vec<Value> = Vec::new();
                        assert(model_seq(inner@) =~= Seq::<ValueView>::empty());
                        if swap_item_list(&mut gs, w, &mut inner) {
                            let kept = without_int(&inner, idx);
                            proof {
                                lemma_list_replaced(g0[w as int], Seq::empty(), model_seq(kept@));
                            }
                            set_item_list(&mut gs, w, kept);
                        }
                        proof {
                            lemma_model_seq(gs@);
                        }
                        w = w + 1;
                    }
                    proof {
                        assert(model_seq(gs@) =~= g0.map_values(|g: ValueView| window_without(g, idx)));
                    }
                    put_entry_list(ov, j, gs, Ghost(c));
                },
                None => {},
            }
        },
        None => {},
    }
}

fn delete_in(ov: &mut Vec<(Value, Value)>, idx: i64) -> (r: Result<(), OverviewTabError>)
    requires
        tabs_ok(model_pairs(old(ov)@)),
    ensures
        model_pairs(final(ov)@) == spec_delete_tab(model_pairs(old(ov)@), idx).0,
        r == spec_delete_tab(model_pairs(old(ov)@), idx).1,
{
    let ghost m0 = model_pairs(ov@);
    let j = prepare_tabs(ov);
    let ghost m1 = model_pairs(ov@);
    let ghost c = m1[j as int].1;
    proof {
        lemma_model_pairs(ov@);
        let cr = tabs_created(m0);
        assert(m1 == cr.update(j as int, (cr[j as int].0, rewrapped(cr[j as int].1))));
        lemma_rewrapped(cr[j as int].1);
    }
    let tabs = take_entry_dict(ov, j);
    let ghost t0 = model_pairs(tabs@);
    proof {
        lemma_model_pairs(tabs@);
    }
    if find_int_exec(&tabs, idx).is_none() || tabs.len() <= 1 {
        let r = if find_int_exec(&tabs, idx).is_none() {
            Err(OverviewTabError::UnknownTab { index: idx })
        } else {
            Err(OverviewTabError::LastTab)
        };
        put_entry_dict(ov, j, tabs, Ghost(c));
        proof {
            lemma_dict_replaced(c, Seq::empty(), t0);
            assert(m1.update(j as int, (m1[j as int].0, c)) =~= m1);
        }
        return r;
    }
    let kept = without_int_key(&tabs, idx);
    put_entry_dict(ov, j, kept, Ghost(c));
    assert(t0 == tabs_of(m0));
    assert(model_pairs(ov@) == with_tabs(m0, t0.filter(not_int_key(idx))));
    purge_windows(ov, idx);
    Ok(())
}

/// The window-mapping entry, and the windows it lists, when there is one.
pub proof fn lemma_mapped(ov: Pairs)
    requires
        window_count(ov) > 0,
    ensures
        groups_created(ov) == ov,
        groups_at(ov) == find_key(ov, kb("tabsByWindowInstanceID"@))->Some_0,
        0 <= groups_at(ov) < ov.len(),
        groups_ok(ov),
        groups_of(ov) == list_inner(ov[groups_at(ov)].1)->Some_0,
        groups_ready(ov)[groups_at(ov)].1 == rewrapped(ov[groups_at(ov)].1),
{
    lemma_find_key_from(ov, kb("tabsByWindowInstanceID"@), 0);
    lemma_rewrapped(ov[groups_at(ov)].1);
}

fn window_count_exec(ov: &Vec<(Value, Value)>) -> (n: usize)
    ensures
        n == window_count(model_pairs(ov@)),
{
    proof {
        lemma_model_pairs(ov@);
    }
    match find_key_exec(ov, "tabsByWindowInstanceID".as_bytes()) {
        Some(j) => match list_inner_exec(&ov[j].1) {
            Some(l) => {
                proof {
                    lemma_model_seq(l@);
                }
                l.len()
            },
            None => 0,
        },
        None => 0,
    }
}

/// The integers as values.
pub open spec fn int_values(s: Seq<i64>) -> Seq<ValueView> {
    s.map_values(|i: i64| ValueView::Int(i))
}

pub(crate) fn int_values_exec(s: &[i64]) -> (r: Vec<Value>)
    ensures
        model_seq(r@) == int_values(s@),
{
    let mut r: Vec<Value> = Vec::new();
    let mut i: usize = 0;
    proof {
        lemma_model_seq(r@);
    }
    while i < s.len()
        invariant
            i <= s.len(),
            r@.len() == i,
            forall|k: int| 0 <= k < i ==> #[trigger] r@[k] == Value::Int(s@[k]),
        decreases s.len() - i,
    {
        r.push(Value::Int(s[i]));
        i = i + 1;
    }
    proof {
        lemma_model_seq(r@);
        assert(model_seq(r@) =~= int_values(s@));
    }
    r
}

/// Replacing window `w`'s tab list with `order`: refused when the account
/// has no mapping, or has no such window.
pub open spec fn spec_reorder_tabs(ov: Pairs, w: usize, order: Seq<i64>) -> (Pairs, Result<(), OverviewTabError>) {
    if window_count(ov) == 0 {
        (ov, Err(OverviewTabError::NoWindowMapping))
    } else {
        let g = groups_of(ov);
        if w < g.len() && list_inner(g[w as int]) is Some {
            (with_groups(ov, g.update(w as int, list_replaced(g[w as int], int_values(order)))), Ok(()))
        } else {
            (groups_ready(ov), Err(OverviewTabError::UnknownWindow { index: w }))
        }
    }
}

fn reorder_in(ov: &mut Vec<(Value, Value)>, w: usize, order: &[i64]) -> (r: Result<(), OverviewTabError>)
    ensures
        model_pairs(final(ov)@) == spec_reorder_tabs(model_pairs(old(ov)@), w, order@).0,
        r == spec_reorder_tabs(model_pairs(old(ov)@), w, order@).1,
{
    let ghost m0 = model_pairs(ov@);
    if window_count_exec(ov) == 0 {
        return Err(OverviewTabError::NoWindowMapping);
    }
    proof {
        lemma_mapped(m0);
    }
    let j = prepare_groups(ov);
    let ghost m1 = model_pairs(ov@);
    let ghost c = m1[j as int].1;
    proof {
        lemma_model_pairs(ov@);
        lemma_rewrapped(m0[j as int].1);
    }
    let mut gs = take_entry_list(ov, j);
    let ghost g0 = model_seq(gs@);
    proof {
        lemma_model_seq(gs@);
    }
    let r = if w < gs.len() && set_item_list(&mut gs, w, int_values_exec(order)) {
        Ok(())
    } else {
        Err(OverviewTabError::UnknownWindow { index: w })
    };
    put_entry_list(ov, j, gs, Ghost(c));
    proof {
        if r is Err {
            lemma_list_replaced(c, Seq::empty(), g0);
            assert(m1.update(j as int, (m1[j as int].0, c)) =~= m1);
        }
    }
    r
}

/// Removing window `w`: only the last window can go, and never the only
/// one; its tabs move onto window 0, so no tab is lost.
pub open spec fn spec_remove_window(ov: Pairs, w: usize) -> (Pairs, Result<(), OverviewTabError>) {
    match find_key(ov, kb("tabsByWindowInstanceID"@)) {
        Some(j) => match list_inner(ov[j].1) {
            Some(gs) => if gs.len() <= 1 {
                (ov, Err(OverviewTabError::LastWindow))
            } else if w >= gs.len() {
                (ov, Err(OverviewTabError::UnknownWindow { index: w }))
            } else if w != gs.len() - 1 {
                (ov, Err(OverviewTabError::NotLastWindow { index: w }))
            } else {
                let removed = match list_inner(gs[w as int]) {
                    Some(l) => l,
                    None => Seq::empty(),
                };
                let gs1 = match list_inner(gs[0]) {
                    Some(l0) => gs.update(0, list_replaced(gs[0], l0 + removed)),
                    None => gs,
                };
                (ov.update(j, (ov[j].0, list_replaced(ov[j].1, gs1.remove(w as int)))), Ok(()))
            },
            None => (ov, Err(OverviewTabError::LastWindow)),
        },
        None => (ov, Err(OverviewTabError::LastWindow)),
    }
}

/// Copies of the items of `l`.
fn clone_items_of(l: &Vec<Value>) -> (r: Vec<Value>)
    ensures
        model_seq(r@) == model_seq(l@),
{
    let mut r: Vec<Value> = Vec::new();
    let mut i: usize = 0;
    proof {
        lemma_model_seq(l@);
    }
    while i < l.len()
        invariant
            i <= l.len(),
            r@.len() == i,
            forall|k: int| 0 <= k < i ==> (#[trigger] r@[k])@ == l@[k]@,
        decreases l.len() - i,
    {
        r.push(crate::reshare::clone_value(&l[i]));
        i = i + 1;
    }
    proof {
        lemma_model_seq(r@);
        lemma_model_seq(l@);
        assert(model_seq(r@) =~= model_seq(l@));
    }
    r
}

fn remove_window_in(ov: &mut Vec<(Value, Value)>, w: usize) -> (r: Result<(), OverviewTabError>)
    ensures
        model_pairs(final(ov)@) == spec_remove_window(model_pairs(old(ov)@), w).0,
        r == spec_remove_window(model_pairs(old(ov)@), w).1,
{
    let ghost m0 = model_pairs(ov@);
    proof {
        lemma_model_pairs(ov@);
    }
    let j = match find_key_exec(ov, "tabsByWindowInstanceID".as_bytes()) {
        Some(j) => j,
        None => return Err(OverviewTabError::LastWindow),
    };
    proof {
        lemma_find_key_from(m0, kb("tabsByWindowInstanceID"@), 0);
    }
    let count = match list_inner_exec(&ov[j].1) {
        Some(l) => {
            proof {
                lemma_model_seq(l@);
            }
            l.len()
        },
        None => return Err(OverviewTabError::LastWindow),
    };
    if count <= 1 {
        return Err(OverviewTabError::LastWindow);
    }
    if w >= count {
        return Err(OverviewTabError::UnknownWindow { index: w });
    }
    if w != count - 1 {
        return Err(OverviewTabError::NotLastWindow { index: w });
    }
    let ghost c = m0[j as int].1;
    let mut gs = take_entry_list(ov, j);
    let ghost g0 = model_seq(gs@);
    proof {
        lemma_model_seq(gs@);
    }
    let removed = match list_inner_exec(&gs[w]) {
        Some(l) => clone_items_of(l),
        None => Vec::new(),
    };
    let ghost rm = model_seq(removed@);
    assert(rm == match list_inner(g0[w as int]) {
        Some(l) => l,
        None => Seq::<ValueView>::empty(),
    }) by {
        if list_inner(g0[w as int]) is None {
            assert(model_seq(removed@) =~= Seq::<ValueView>::empty());
        }
    }
    let mut first: Vec<Value> = Vec::new();
    assert(model_seq(first@) =~= Seq::<ValueView>::empty());
    if swap_item_list(&mut gs, 0, &mut first) {
        let ghost f0 = model_seq(first@);
        let ghost fv = first@;
        let mut extra = removed;
        let ghost ev = extra@;
        first.append(&mut extra);
        proof {
            lemma_model_seq(first@);
            lemma_model_seq(fv);
            lemma_model_seq(ev);
            assert(first@ =~= fv + ev);
            assert(model_seq(first@) =~= f0 + rm);
        }
        proof {
            lemma_list_replaced(g0[0], Seq::empty(), model_seq(first@));
        }
        let ghost mid = model_seq(gs@);
        let ghost fl = model_seq(first@);
        set_item_list(&mut gs, 0, first);
        proof {
            assert(model_seq(gs@) == mid.update(0, list_replaced(mid[0], fl)));
            assert(model_seq(gs@) =~= g0.update(0, list_replaced(g0[0], f0 + rm)));
        }
    }
    let ghost g1 = model_seq(gs@);
    proof {
        lemma_model_seq(gs@);
    }
    gs.remove(w);
    proof {
        lemma_model_seq(gs@);
        assert(model_seq(gs@) =~= g1.remove(w as int));
    }
    put_entry_list(ov, j, gs, Ghost(c));
    Ok(())
}

/// Delete tab `tab_idx` and purge it from every window of the mapping (a
/// missing mapping is never minted). Refused for an unknown tab, or for the
/// account's last tab.
pub fn delete_tab(v: &mut Value, tab_idx: i64) -> (r: Result<(), OverviewTabError>)
    requires
        spec_inline(old(v)@) is Some,
        overview_of(spec_inline(old(v)@)->Some_0) matches Some(ov) ==> tabs_ok(ov),
    ensures
        (final(v)@, r) == overview_edited(spec_inline(old(v)@)->Some_0, |ov: Pairs| spec_delete_tab(ov, tab_idx)),
{
    let w = crate::reshare::inline(v);
    *v = w;
    let ghost w0 = v@;
    match take_overview(v) {
        None => Err(OverviewTabError::NoOverview),
        Some(mut ov) => {
            let r = delete_in(&mut ov, tab_idx);
            proof {
                lemma_with_overview(w0, Seq::empty(), model_pairs(ov@));
            }
            put_overview(v, ov);
            r
        },
    }
}

/// Replace window `window_idx`'s tab strip with `order`. Refused on an
/// account with no mapping, before anything could mint one.
pub fn reorder_tabs_in_window(v: &mut Value, window_idx: usize, order: &[i64]) -> (r: Result<(), OverviewTabError>)
    requires
        spec_inline(old(v)@) is Some,
    ensures
        (final(v)@, r) == overview_edited(
            spec_inline(old(v)@)->Some_0,
            |ov: Pairs| spec_reorder_tabs(ov, window_idx, order@),
        ),
{
    let w = crate::reshare::inline(v);
    *v = w;
    let ghost w0 = v@;
    match take_overview(v) {
        None => Err(OverviewTabError::NoOverview),
        Some(mut ov) => {
            let r = reorder_in(&mut ov, window_idx, order);
            proof {
                lemma_with_overview(w0, Seq::empty(), model_pairs(ov@));
            }
            put_overview(v, ov);
            r
        },
    }
}

/// Remove overview window `window_idx` from the mapping, moving its tabs
/// onto window 0. Only the last window can be removed, and never the only
/// one.
pub fn remove_overview_window(v: &mut Value, window_idx: usize) -> (r: Result<(), OverviewTabError>)
    requires
        spec_inline(old(v)@) is Some,
    ensures
        (final(v)@, r) == overview_edited(
            spec_inline(old(v)@)->Some_0,
            |ov: Pairs| spec_remove_window(ov, window_idx),
        ),
{
    let w = crate::reshare::inline(v);
    *v = w;
    let ghost w0 = v@;
    match take_overview(v) {
        None => Err(OverviewTabError::NoOverview),
        Some(mut ov) => {
            let r = remove_window_in(&mut ov, window_idx);
            proof {
                lemma_with_overview(w0, Seq::empty(), model_pairs(ov@));
            }
            put_overview(v, ov);
            r
        },
    }
}

// ---------------------------------------------------------------------------
// Creating a tab.
// ---------------------------------------------------------------------------

/// The largest integer key among the first `n` entries.
pub open spec fn max_int_key(t: Pairs, n: int) -> Option<i64>
    decreases n,
{
    if n <= 0 {
        None
    } else {
        let m = max_int_key(t, n - 1);
        match int_of(t[n - 1].0) {
            Some(b) => match m {
                Some(a) => Some(if b > a { b } else { a }),
                None => Some(b),
            },
            None => m,
        }
    }
}

/// The index a new tab gets: one past the largest, or 0 for the first.
pub open spec fn next_tab_index(t: Pairs) -> i64 {
    match max_int_key(t, t.len() as int) {
        Some(m) => (m + 1) as i64,
        None => 0,
    }
}

proof fn lemma_max_int_key(t: Pairs, n: int)
    requires
        0 <= n <= t.len(),
    ensures
        forall|m: int| 0 <= m < n && #[trigger] int_of(t[m].0) is Some ==> (max_int_key(t, n) matches Some(x)
            && int_of(t[m].0)->Some_0 <= x),
    decreases n,
{
    if n > 0 {
        lemma_max_int_key(t, n - 1);
    }
}

/// A new tab's index is unused: it is greater than every index the tab dict
/// already has.
pub proof fn lemma_next_index_is_fresh(t: Pairs)
    requires
        next_index_fits(t),
    ensures
        forall|m: int| 0 <= m < t.len() && #[trigger] int_of(t[m].0) is Some ==> int_of(t[m].0)->Some_0 < next_tab_index(t),
{
    lemma_max_int_key(t, t.len() as int);
}

/// The index can be computed without overflow.
pub open spec fn next_index_fits(t: Pairs) -> bool {
    max_int_key(t, t.len() as int) matches Some(m) ==> m < i64::MAX
}

fn next_index_exec(t: &Vec<(Value, Value)>) -> (n: i64)
    requires
        next_index_fits(model_pairs(t@)),
    ensures
        n == next_tab_index(model_pairs(t@)),
{
    let ghost m = model_pairs(t@);
    proof {
        lemma_model_pairs(t@);
    }
    let mut best: Option<i64> = None;
    let mut i: usize = 0;
    while i < t.len()
        invariant
            i <= t.len(),
            m == model_pairs(t@),
            m.len() == t@.len(),
            forall|j: int| 0 <= j < t@.len() ==> #[trigger] m[j] == (model(t@[j].0), model(t@[j].1)),
            best == max_int_key(m, i as int),
        decreases t.len() - i,
    {
        if let Value::Int(b) = &t[i].0 {
            best = match best {
                Some(a) => Some(if *b > a { *b } else { a }),
                None => Some(*b),
            };
        }
        i = i + 1;
    }
    match best {
        Some(a) => a + 1,
        None => 0,
    }
}

/// The tab EVE gets when there is no sibling to clone: it still carries the
/// `bracket` and `color` keys every real tab has.
pub open spec fn fallback_tab() -> ValueView {
    ValueView::Dict(
        seq![
            (ValueView::Bytes(kb("bracket"@)), ValueView::Bytes(kb("_BracketFilterShowAll"@))),
            (ValueView::Bytes(kb("color"@)), ValueView::Nil),
            (ValueView::Bytes(kb("overview"@)), ValueView::Bytes(Seq::empty())),
        ],
    )
}

pub fn fallback_tab_exec() -> (r: Value)
    ensures
        r@ == fallback_tab(),
{
    let e: Vec<(Value, Value)> = vec![
        (Value::Bytes(slice_to_vec("bracket".as_bytes())), Value::Bytes(slice_to_vec("_BracketFilterShowAll".as_bytes()))),
        (Value::Bytes(slice_to_vec("color".as_bytes())), Value::Nil),
        (Value::Bytes(slice_to_vec("overview".as_bytes())), Value::Bytes(Vec::new())),
    ];
    proof {
        lemma_model_pairs(e@);
        assert(model_pairs(e@) =~= fallback_tab()->Dict_0);
    }
    Value::Dict(e)
}

/// The tab a new one is cloned from: `from` when it exists, else the first
/// tab; none when there are no tabs.
pub open spec fn template_at(t: Pairs, from: Option<i64>) -> Option<int> {
    match from {
        Some(f) => match find_int(t, f) {
            Some(i) => Some(i),
            None => if t.len() == 0 { None } else { Some(0) },
        },
        None => if t.len() == 0 { None } else { Some(0) },
    }
}

/// A tab's fields without its own column lists, so that it inherits columns.
pub open spec fn without_columns(f: Pairs) -> Pairs {
    f.filter(not_bytes_key(kb("tabColumnOrder"@))).filter(not_bytes_key(kb("tabColumns"@)))
}

/// The new tab: a clone of the template (or the fallback tab) with its
/// column lists dropped and its name set.
pub open spec fn new_tab(t: Pairs, from: Option<i64>, name: Seq<char>) -> ValueView {
    let tab = match template_at(t, from) {
        Some(i) => t[i].1,
        None => fallback_tab(),
    };
    match dict_inner(tab) {
        Some(f) => dict_replaced(tab, spec_set_name(without_columns(f), name)),
        None => tab,
    }
}

fn new_tab_exec(t: &Vec<(Value, Value)>, from: Option<i64>, name: &str) -> (r: Value)
    ensures
        r@ == new_tab(model_pairs(t@), from, name@),
{
    let ghost m = model_pairs(t@);
    proof {
        lemma_model_pairs(t@);
    }
    let found = match from {
        Some(f) => find_int_exec(t, f),
        None => None,
    };
    proof {
        if let Some(f) = from {
            lemma_find_int_from(m, f, 0);
        }
    }
    let at = match found {
        Some(i) => Some(i),
        None => if t.len() == 0 { None } else { Some(0) },
    };
    assert(at matches Some(i) ==> template_at(m, from) == Some(i as int));
    assert(at is None ==> template_at(m, from) is None);
    let mut tab = match at {
        Some(i) => crate::reshare::clone_value(&t[i].1),
        None => fallback_tab_exec(),
    };
    let ghost tab0 = tab@;
    let mut f: Vec<(Value, Value)> = Vec::new();
    assert(model_pairs(f@) =~= Seq::<(ValueView, ValueView)>::empty());
    if swap_dict_inner(&mut tab, &mut f) {
        let f1 = without_bytes_key(&f, "tabColumnOrder".as_bytes());
        let mut f2 = without_bytes_key(&f1, "tabColumns".as_bytes());
        set_name(&mut f2, name);
        proof {
            lemma_dict_replaced(tab0, Seq::empty(), model_pairs(f2@));
        }
        swap_dict_inner(&mut tab, &mut f2);
    }
    tab
}

/// `ov` with `x` appended to window `w`'s tab list, when the mapping has
/// such a window holding a list.
pub open spec fn window_pushed(ov: Pairs, w: usize, x: ValueView) -> Pairs {
    match find_key(ov, kb("tabsByWindowInstanceID"@)) {
        Some(j) => match list_inner(ov[j].1) {
            Some(gs) => if w < gs.len() {
                match list_inner(gs[w as int]) {
                    Some(l) => ov.update(
                        j,
                        (ov[j].0, list_replaced(ov[j].1, gs.update(w as int, list_replaced(gs[w as int], l.push(x))))),
                    ),
                    None => ov,
                }
            } else {
                ov
            },
            None => ov,
        },
        None => ov,
    }
}

fn push_to_window(ov: &mut Vec<(Value, Value)>, w: usize, x: Value)
    ensures
        model_pairs(final(ov)@) == window_pushed(model_pairs(old(ov)@), w, x@),
{
    let ghost m0 = model_pairs(ov@);
    proof {
        lemma_model_pairs(ov@);
    }
    match find_key_exec(ov, "tabsByWindowInstanceID".as_bytes()) {
        Some(j) => {
            proof {
                lemma_find_key_from(m0, kb("tabsByWindowInstanceID"@), 0);
            }
            match list_inner_exec(&ov[j].1) {
                Some(_) => {
                    let ghost c = m0[j as int].1;
                    let mut gs = take_entry_list(ov, j);
                    let ghost g0 = model_seq(gs@);
                    proof {
                        lemma_model_seq(gs@);
                    }
                    if w < gs.len() {
                        let mut inner: Vec<Value> = Vec::new();
                        assert(model_seq(inner@) =~= Seq::<ValueView>::empty());
                        if swap_item_list(&mut gs, w, &mut inner) {
                            let ghost l0 = model_seq(inner@);
                            let ghost iv = inner@;
                            inner.push(x);
                            proof {
                                lemma_model_seq_push(iv, x);
                                lemma_list_replaced(g0[w as int], Seq::empty(), model_seq(inner@));
                            }
                            let ghost mid = model_seq(gs@);
                            set_item_list(&mut gs, w, inner);
                            proof {
                                assert(model_seq(gs@) =~= g0.update(w as int, list_replaced(g0[w as int], l0.push(x@))));
                            }
                        }
                    }
                    put_entry_list(ov, j, gs, Ghost(c));
                    proof {
                        lemma_list_replaced(c, Seq::empty(), g0);
                        if !(w < g0.len() && list_inner(g0[w as int]) is Some) {
                            assert(m0.update(j as int, (m0[j as int].0, c)) =~= m0);
                        }
                    }
                },
                None => {},
            }
        },
        None => {},
    }
}

/// Creating a tab in window `w`: refused for a window the mapping does not
/// have; the tab is added to that window only when the account has a mapping.
pub open spec fn spec_create_tab(ov: Pairs, w: usize, name: Seq<char>, from: Option<i64>) -> (Pairs, Result<i64, OverviewTabError>) {
    let wc = window_count(ov);
    if wc > 0 && w >= wc {
        (ov, Err(OverviewTabError::UnknownWindow { index: w }))
    } else {
        let t = tabs_of(ov);
        let n = next_tab_index(t);
        let ov2 = with_tabs(ov, t.push((ValueView::Int(n), new_tab(t, from, name))));
        (if wc > 0 { window_pushed(ov2, w, ValueView::Int(n)) } else { ov2 }, Ok(n))
    }
}

/// Creating a tab in window `w` reaches the tab dict only when it holds a
/// dict and the new index fits.
pub open spec fn create_tab_ok(ov: Pairs, w: usize) -> bool {
    let wc = window_count(ov);
    !(wc > 0 && w >= wc) ==> tabs_ok(ov) && next_index_fits(tabs_of(ov))
}

fn create_in(ov: &mut Vec<(Value, Value)>, w: usize, name: &str, from: Option<i64>) -> (r: Result<i64, OverviewTabError>)
    requires
        create_tab_ok(model_pairs(old(ov)@), w),
    ensures
        model_pairs(final(ov)@) == spec_create_tab(model_pairs(old(ov)@), w, name@, from).0,
        r == spec_create_tab(model_pairs(old(ov)@), w, name@, from).1,
{
    let ghost m0 = model_pairs(ov@);
    let wc = window_count_exec(ov);
    if wc > 0 && w >= wc {
        return Err(OverviewTabError::UnknownWindow { index: w });
    }
    let j = prepare_tabs(ov);
    let ghost m1 = model_pairs(ov@);
    let ghost c = m1[j as int].1;
    proof {
        lemma_model_pairs(ov@);
        let cr = tabs_created(m0);
        assert(m1 == cr.update(j as int, (cr[j as int].0, rewrapped(cr[j as int].1))));
        lemma_rewrapped(cr[j as int].1);
    }
    let mut tabs = take_entry_dict(ov, j);
    let ghost t0 = model_pairs(tabs@);
    assert(t0 == tabs_of(m0));
    let n = next_index_exec(&tabs);
    let tab = new_tab_exec(&tabs, from, name);
    let ghost tv = tabs@;
    let e = (Value::Int(n), tab);
    proof {
        lemma_model_pairs_push(tv, e);
    }
    tabs.push(e);
    assert(model_pairs(tabs@) == t0.push((ValueView::Int(n), new_tab(t0, from, name@))));
    put_entry_dict(ov, j, tabs, Ghost(c));
    assert(model_pairs(ov@) == with_tabs(m0, t0.push((ValueView::Int(n), new_tab(t0, from, name@)))));
    if wc > 0 {
        push_to_window(ov, w, Value::Int(n));
    }
    Ok(n)
}

/// Create a tab by cloning a sibling (`from_tab`, else the first tab) and
/// naming it; the clone drops its own column lists so it inherits columns.
/// On an account with a tab-to-window mapping the tab is added to window
/// `window_idx`; without one it lives in the tab dict alone and nothing
/// mints a mapping. Returns the new tab's index.
pub fn create_tab(v: &mut Value, window_idx: usize, name: &str, from_tab: Option<i64>) -> (r: Result<i64, OverviewTabError>)
    requires
        spec_inline(old(v)@) is Some,
        overview_of(spec_inline(old(v)@)->Some_0) matches Some(ov) ==> create_tab_ok(ov, window_idx),
    ensures
        (final(v)@, r) == overview_edited(
            spec_inline(old(v)@)->Some_0,
            |ov: Pairs| spec_create_tab(ov, window_idx, name@, from_tab),
        ),
{
    let w = crate::reshare::inline(v);
    *v = w;
    let ghost w0 = v@;
    match take_overview(v) {
        None => Err(OverviewTabError::NoOverview),
        Some(mut ov) => {
            let r = create_in(&mut ov, window_idx, name, from_tab);
            proof {
                lemma_with_overview(w0, Seq::empty(), model_pairs(ov@));
            }
            put_overview(v, ov);
            r
        },
    }
}

/// Adding a window: an empty window is appended to the mapping and seeded
/// with one new tab. Refused on an account with no mapping, where adding a
/// window would mint a partial mapping that hides every other tab.
pub open spec fn spec_add_window(ov: Pairs, name: Seq<char>, from: Option<i64>) -> (Pairs, Result<usize, OverviewTabError>) {
    if window_count(ov) == 0 {
        (ov, Err(OverviewTabError::NoWindowMapping))
    } else {
        let g = groups_of(ov);
        let o1 = with_groups(ov, g.push(ValueView::List(Seq::empty())));
        let (o2, r) = spec_create_tab(o1, g.len() as usize, name, from);
        (o2, match r {
            Ok(_) => Ok(g.len() as usize),
            Err(e) => Err(e),
        })
    }
}

/// Adding a window reaches the tab dict only when creating its tab can.
pub open spec fn add_window_ok(ov: Pairs) -> bool {
    window_count(ov) > 0 ==> create_tab_ok(
        with_groups(ov, groups_of(ov).push(ValueView::List(Seq::empty()))),
        groups_of(ov).len() as usize,
    )
}

fn add_window_in(ov: &mut Vec<(Value, Value)>, name: &str, from: Option<i64>) -> (r: Result<usize, OverviewTabError>)
    requires
        add_window_ok(model_pairs(old(ov)@)),
    ensures
        model_pairs(final(ov)@) == spec_add_window(model_pairs(old(ov)@), name@, from).0,
        r == spec_add_window(model_pairs(old(ov)@), name@, from).1,
{
    let ghost m0 = model_pairs(ov@);
    if window_count_exec(ov) == 0 {
        return Err(OverviewTabError::NoWindowMapping);
    }
    proof {
        lemma_mapped(m0);
    }
    let j = prepare_groups(ov);
    let ghost m1 = model_pairs(ov@);
    let ghost c = m1[j as int].1;
    proof {
        lemma_model_pairs(ov@);
        lemma_rewrapped(m0[j as int].1);
    }
    let mut gs = take_entry_list(ov, j);
    let ghost gv = gs@;
    let empty: Vec<Value> = Vec::new();
    let item = Value::List(empty);
    assert(item@ == ValueView::List(Seq::empty())) by {
        assert(model_seq(empty@) =~= Seq::<ValueView>::empty());
    }
    gs.push(item);
    proof {
        lemma_model_seq_push(gv, item);
        lemma_model_seq(gs@);
    }
    let n = gs.len() - 1;
    let ghost g0 = groups_of(m0);
    assert(model_seq(gs@) == g0.push(ValueView::List(Seq::empty())));
    put_entry_list(ov, j, gs, Ghost(c));
    assert(model_pairs(ov@) == with_groups(m0, g0.push(ValueView::List(Seq::empty()))));
    assert(n == g0.len());
    match create_in(ov, n, name, from) {
        Ok(_) => Ok(n),
        Err(e) => Err(e),
    }
}

/// Add an overview window to the tab-to-window mapping, seeded with one
/// cloned tab (a window must have a tab). Returns the new window's index.
pub fn add_overview_window(v: &mut Value, name: &str, from_tab: Option<i64>) -> (r: Result<usize, OverviewTabError>)
    requires
        spec_inline(old(v)@) is Some,
        overview_of(spec_inline(old(v)@)->Some_0) matches Some(ov) ==> add_window_ok(ov),
    ensures
        (final(v)@, r) == overview_edited(
            spec_inline(old(v)@)->Some_0,
            |ov: Pairs| spec_add_window(ov, name@, from_tab),
        ),
{
    let w = crate::reshare::inline(v);
    *v = w;
    let ghost w0 = v@;
    match take_overview(v) {
        None => Err(OverviewTabError::NoOverview),
        Some(mut ov) => {
            let r = add_window_in(&mut ov, name, from_tab);
            proof {
                lemma_with_overview(w0, Seq::empty(), model_pairs(ov@));
            }
            put_overview(v, ov);
            r
        },
    }
}

// ---------------------------------------------------------------------------
// Moving a tab between windows.
// ---------------------------------------------------------------------------

pub(crate) proof fn lemma_names_differ()
    ensures
        kb("tabsettings"@) != kb("tabsByWindowInstanceID"@),
        kb("tabsettings_new"@) != kb("tabsByWindowInstanceID"@),
{
    reveal_strlit("tabsettings");
    reveal_strlit("tabsettings_new");
    reveal_strlit("tabsByWindowInstanceID");
    encode_utf8_decode_utf8("tabsettings"@);
    encode_utf8_decode_utf8("tabsettings_new"@);
    encode_utf8_decode_utf8("tabsByWindowInstanceID"@);
}

/// Searches agree on two dicts whose keys match `key` at the same places,
/// the longer one's extra entries not matching.
pub(crate) proof fn lemma_find_key_same_matches(a: Pairs, b: Pairs, key: Seq<u8>, i: int)
    requires
        0 <= i,
        a.len() <= b.len(),
        forall|k: int| 0 <= k < a.len() ==> spec_is_bytes(#[trigger] a[k].0, key) == spec_is_bytes(b[k].0, key),
        forall|k: int| a.len() <= k < b.len() ==> !spec_is_bytes(#[trigger] b[k].0, key),
    ensures
        find_key_from(a, key, i) == find_key_from(b, key, i),
    decreases b.len() - i,
{
    if i < b.len() {
        if i < a.len() {
            assert(spec_is_bytes(a[i].0, key) == spec_is_bytes(b[i].0, key));
        } else {
            assert(!spec_is_bytes(b[i].0, key));
        }
        lemma_find_key_same_matches(a, b, key, i + 1);
    }
}

/// Reaching the tab dict leaves the window mapping where and as it was.
proof fn lemma_tabs_ready_keeps_groups(ov: Pairs)
    ensures
        find_key(tabs_ready(ov), kb("tabsByWindowInstanceID"@)) == find_key(ov, kb("tabsByWindowInstanceID"@)),
        find_key(ov, kb("tabsByWindowInstanceID"@)) matches Some(j) ==> tabs_ready(ov)[j] == ov[j],
        window_count(tabs_ready(ov)) == window_count(ov),
{
    let tbw = kb("tabsByWindowInstanceID"@);
    let tsn = kb("tabsettings_new"@);
    let ts = kb("tabsettings"@);
    lemma_names_differ();
    let m = tabs_migrated(ov);
    let c = tabs_created(ov);
    lemma_find_key_from(ov, tsn, 0);
    lemma_find_key_from(ov, ts, 0);
    lemma_find_key_from(m, tsn, 0);
    if find_key(m, tsn) is None {
        lemma_find_key_push(m, tsn, (ValueView::Bytes(tsn), stamped(ValueView::Dict(Seq::empty()))), 0);
    }
    lemma_find_key_from(c, tsn, 0);
    let ta = tabs_at(ov);
    let r = tabs_ready(ov);
    assert(0 <= ta < c.len());
    assert forall|k: int| 0 <= k < ov.len() implies spec_is_bytes(#[trigger] ov[k].0, tbw) == spec_is_bytes(r[k].0, tbw) by {
        assert(r[k].0 == c[k].0);
        if m[k].0 != ov[k].0 {
            assert(spec_is_bytes(ov[k].0, ts));
            assert(m[k].0 == ValueView::Bytes(tsn));
        }
        assert(c[k] == m[k]);
    }
    assert forall|k: int| ov.len() <= k < r.len() implies !spec_is_bytes(#[trigger] r[k].0, tbw) by {
        assert(r[k].0 == c[k].0);
        assert(c[k].0 == ValueView::Bytes(tsn));
    }
    lemma_find_key_same_matches(ov, r, tbw, 0);
    lemma_find_key_from(ov, tbw, 0);
    if let Some(j) = find_key(ov, tbw) {
        assert(spec_is_bytes(ov[j].0, tbw));
        assert(m[j] == ov[j]) by {
            if m[j] != ov[j] {
                assert(spec_is_bytes(ov[j].0, ts));
            }
        }
        assert(j != ta) by {
            assert(spec_is_bytes(c[ta].0, tsn));
        }
        assert(r[j] == ov[j]);
    }
}

/// Moving tab `tab` from window `from` to position `pos` of window `to`
/// (clamped to the strip's length). Refused on an account with no mapping,
/// for an unknown tab, and, before anything changes, for a destination or
/// source window the mapping does not have.
pub open spec fn spec_move_tab(ov: Pairs, tab: i64, from: usize, to: usize, pos: usize) -> (Pairs, Result<(), OverviewTabError>) {
    if window_count(ov) == 0 {
        (ov, Err(OverviewTabError::NoWindowMapping))
    } else {
        let o1 = tabs_ready(ov);
        if find_int(tabs_of(ov), tab) is None {
            (o1, Err(OverviewTabError::UnknownTab { index: tab }))
        } else {
            let g = groups_of(o1);
            if !(to < g.len() && list_inner(g[to as int]) is Some) {
                (groups_ready(o1), Err(OverviewTabError::UnknownWindow { index: to }))
            } else if !(from < g.len() && list_inner(g[from as int]) is Some) {
                (groups_ready(o1), Err(OverviewTabError::UnknownWindow { index: from }))
            } else {
                let g1 = g.update(from as int, window_without(g[from as int], tab));
                let dst = list_inner(g1[to as int])->Some_0;
                let at = if pos < dst.len() { pos as int } else { dst.len() as int };
                let g2 = g1.update(to as int, list_replaced(g1[to as int], dst.insert(at, ValueView::Int(tab))));
                (with_groups(o1, g2), Ok(()))
            }
        }
    }
}

/// The window strips of an overview: the tab lists of its window mapping,
/// when it has one.
pub open spec fn windows_of(ov: Pairs) -> Option<Seq<ValueView>> {
    match find_key(ov, kb("tabsByWindowInstanceID"@)) {
        Some(j) => list_inner(ov[j].1),
        None => None,
    }
}

/// Where a moved tab lands: after a successful move, the destination strip
/// is the strip as it stood once the tab left its source window, with the
/// tab inserted at `pos`, or appended when `pos` is at or past its end; the
/// source window (when another) keeps every other entry in order, and no
/// other window changes.
pub proof fn lemma_move_tab_lands(ov: Pairs, tab: i64, from: usize, to: usize, pos: usize)
    requires
        spec_move_tab(ov, tab, from, to, pos).1 is Ok,
    ensures
        ({
            let w = windows_of(ov)->Some_0;
            let r = windows_of(spec_move_tab(ov, tab, from, to, pos).0);
            let src = list_inner(w[from as int])->Some_0;
            let before = if from == to {
                src.filter(not_int(tab))
            } else {
                list_inner(w[to as int])->Some_0
            };
            let at: int = if (pos as int) < before.len() { pos as int } else { before.len() as int };
            &&& windows_of(ov) is Some
            &&& r is Some
            &&& r->Some_0.len() == w.len()
            &&& forall|k: int| 0 <= k < w.len() && k != from && k != to ==> #[trigger] r->Some_0[k] == w[k]
            &&& list_inner(r->Some_0[to as int]) is Some
            &&& list_inner(r->Some_0[to as int])->Some_0.len() == before.len() + 1
            &&& list_inner(r->Some_0[to as int])->Some_0[at] == ValueView::Int(tab)
            &&& list_inner(r->Some_0[to as int])->Some_0.remove(at) == before
            &&& from != to ==> list_inner(r->Some_0[from as int]) == Some(src.filter(not_int(tab)))
        }),
{
    let key = kb("tabsByWindowInstanceID"@);
    let o1 = tabs_ready(ov);
    lemma_tabs_ready_keeps_groups(ov);
    lemma_find_key_from(ov, key, 0);
    lemma_mapped(o1);
    let j = groups_at(o1);
    let w = groups_of(o1);
    assert(windows_of(ov) == Some(w));
    let c = groups_ready(o1);
    lemma_find_key_update_value(o1, j, rewrapped(o1[j].1), key);
    assert(c == o1.update(j, (o1[j].0, rewrapped(o1[j].1))));
    lemma_rewrapped(o1[j].1);
    let src = list_inner(w[from as int])->Some_0;
    let kept = src.filter(not_int(tab));
    lemma_list_replaced(w[from as int], kept, kept);
    let g1 = w.update(from as int, window_without(w[from as int], tab));
    let dst = list_inner(g1[to as int])->Some_0;
    let at: int = if (pos as int) < dst.len() { pos as int } else { dst.len() as int };
    let out = dst.insert(at, ValueView::Int(tab));
    lemma_list_replaced(g1[to as int], out, out);
    let g2 = g1.update(to as int, list_replaced(g1[to as int], out));
    lemma_list_replaced(c[j].1, g2, g2);
    let res = c.update(j, (c[j].0, list_replaced(c[j].1, g2)));
    assert(spec_move_tab(ov, tab, from, to, pos).0 == res);
    lemma_find_key_update_value(c, j, list_replaced(c[j].1, g2), key);
    assert(windows_of(res) == Some(g2));
    assert(out.remove(at) =~= dst);
}

fn move_in(ov: &mut Vec<(Value, Value)>, tab: i64, from: usize, to: usize, pos: usize) -> (r: Result<(), OverviewTabError>)
    requires
        window_count(model_pairs(old(ov)@)) > 0 ==> tabs_ok(model_pairs(old(ov)@)),
    ensures
        model_pairs(final(ov)@) == spec_move_tab(model_pairs(old(ov)@), tab, from, to, pos).0,
        r == spec_move_tab(model_pairs(old(ov)@), tab, from, to, pos).1,
{
    let ghost m0 = model_pairs(ov@);
    if window_count_exec(ov) == 0 {
        return Err(OverviewTabError::NoWindowMapping);
    }
    let j = prepare_tabs(ov);
    let ghost m1 = model_pairs(ov@);
    let ghost c = m1[j as int].1;
    proof {
        lemma_model_pairs(ov@);
        let cr = tabs_created(m0);
        assert(m1 == cr.update(j as int, (cr[j as int].0, rewrapped(cr[j as int].1))));
        lemma_rewrapped(cr[j as int].1);
    }
    let tabs = take_entry_dict(ov, j);
    let ghost t0 = model_pairs(tabs@);
    let known = find_int_exec(&tabs, tab).is_some();
    put_entry_dict(ov, j, tabs, Ghost(c));
    proof {
        lemma_dict_replaced(c, Seq::empty(), t0);
        assert(m1.update(j as int, (m1[j as int].0, c)) =~= m1);
    }
    assert(model_pairs(ov@) == m1);
    if !known {
        return Err(OverviewTabError::UnknownTab { index: tab });
    }
    proof {
        lemma_tabs_ready_keeps_groups(m0);
        assert(window_count(m1) > 0);
        lemma_mapped(m1);
    }
    let gj = prepare_groups(ov);
    let ghost m2 = model_pairs(ov@);
    let ghost gc = m2[gj as int].1;
    proof {
        lemma_model_pairs(ov@);
        lemma_rewrapped(m1[gj as int].1);
        assert(gc == rewrapped(m1[gj as int].1));
        assert(list_inner(gc) is Some);
    }
    let mut gs = take_entry_list(ov, gj);
    let ghost g0 = model_seq(gs@);
    proof {
        lemma_model_seq(gs@);
    }
    let to_ok = to < gs.len() && list_inner_exec(&gs[to]).is_some();
    let from_ok = from < gs.len() && list_inner_exec(&gs[from]).is_some();
    if !to_ok || !from_ok {
        put_entry_list(ov, gj, gs, Ghost(gc));
        proof {
            lemma_list_replaced(gc, Seq::empty(), g0);
            assert(m2.update(gj as int, (m2[gj as int].0, gc)) =~= m2);
        }
        return if !to_ok {
            Err(OverviewTabError::UnknownWindow { index: to })
        } else {
            Err(OverviewTabError::UnknownWindow { index: from })
        };
    }
    let mut src: Vec<Value> = Vec::new();
    assert(model_seq(src@) =~= Seq::<ValueView>::empty());
    swap_item_list(&mut gs, from, &mut src);
    let kept = without_int(&src, tab);
    proof {
        lemma_list_replaced(g0[from as int], Seq::empty(), model_seq(kept@));
    }
    set_item_list(&mut gs, from, kept);
    let ghost g1 = model_seq(gs@);
    proof {
        lemma_model_seq(gs@);
        assert(g1 =~= g0.update(from as int, window_without(g0[from as int], tab)));
        lemma_list_replaced(g0[from as int], model_seq(kept@), Seq::empty());
        assert(list_inner(g1[to as int]) is Some);
    }
    let mut dst: Vec<Value> = Vec::new();
    assert(model_seq(dst@) =~= Seq::<ValueView>::empty());
    swap_item_list(&mut gs, to, &mut dst);
    let ghost d0 = model_seq(dst@);
    let ghost dv = dst@;
    proof {
        lemma_model_seq(dst@);
    }
    let at = if pos < dst.len() { pos } else { dst.len() };
    dst.insert(at, Value::Int(tab));
    proof {
        lemma_model_seq(dst@);
        lemma_model_seq(dv);
        assert(model_seq(dst@) =~= d0.insert(at as int, ValueView::Int(tab)));
        lemma_list_replaced(g1[to as int], Seq::empty(), model_seq(dst@));
    }
    let ghost dl = model_seq(dst@);
    let ghost mid = model_seq(gs@);
    set_item_list(&mut gs, to, dst);
    proof {
        lemma_model_seq(gs@);
        let at2 = if pos < d0.len() { pos as int } else { d0.len() as int };
        assert(at2 == at as int);
        assert(model_seq(gs@) =~= g1.update(to as int, list_replaced(g1[to as int], d0.insert(at2, ValueView::Int(tab)))));
    }
    put_entry_list(ov, gj, gs, Ghost(gc));
    Ok(())
}

/// Move tab `tab_idx` from window `from_window` to position `pos` of window
/// `to_window` (clamped to the strip's length). Refused on an account with
/// no mapping, for a tab that does not exist, and for a window the mapping
/// does not have, checked before either strip changes.
pub fn move_tab(v: &mut Value, tab_idx: i64, from_window: usize, to_window: usize, pos: usize) -> (r: Result<(), OverviewTabError>)
    requires
        spec_inline(old(v)@) is Some,
        overview_of(spec_inline(old(v)@)->Some_0) matches Some(ov) ==> (window_count(ov) > 0 ==> tabs_ok(ov)),
    ensures
        (final(v)@, r) == overview_edited(
            spec_inline(old(v)@)->Some_0,
            |ov: Pairs| spec_move_tab(ov, tab_idx, from_window, to_window, pos),
        ),
{
    let w = crate::reshare::inline(v);
    *v = w;
    let ghost w0 = v@;
    match take_overview(v) {
        None => Err(OverviewTabError::NoOverview),
        Some(mut ov) => {
            let r = move_in(&mut ov, tab_idx, from_window, to_window, pos);
            proof {
                lemma_with_overview(w0, Seq::empty(), model_pairs(ov@));
            }
            put_overview(v, ov);
            r
        },
    }
}

// ---------------------------------------------------------------------------
// Creating the tab-to-window mapping.
// ---------------------------------------------------------------------------

/// The first entry at or after `i` keyed `tabsettings_new` or `tabsettings`.
pub open spec fn find_any_tabs_from(ov: Pairs, i: int) -> Option<int>
    decreases ov.len() - i,
{
    if i < 0 || i >= ov.len() {
        None
    } else if spec_is_bytes(ov[i].0, kb("tabsettings_new"@)) || spec_is_bytes(ov[i].0, kb("tabsettings"@)) {
        Some(i)
    } else {
        find_any_tabs_from(ov, i + 1)
    }
}

proof fn lemma_find_any_tabs_from(ov: Pairs, i: int)
    requires
        0 <= i,
    ensures
        find_any_tabs_from(ov, i) matches Some(j) ==> i <= j < ov.len(),
    decreases ov.len() - i,
{
    if i < ov.len() {
        lemma_find_any_tabs_from(ov, i + 1);
    }
}

fn find_any_tabs_exec(ov: &Vec<(Value, Value)>) -> (r: Option<usize>)
    ensures
        match r {
            Some(j) => find_any_tabs_from(model_pairs(ov@), 0) == Some(j as int) && j < ov@.len(),
            None => find_any_tabs_from(model_pairs(ov@), 0) is None,
        },
{
    let ghost m = model_pairs(ov@);
    proof {
        lemma_model_pairs(ov@);
    }
    let mut i: usize = 0;
    while i < ov.len()
        invariant
            i <= ov.len(),
            m == model_pairs(ov@),
            m.len() == ov@.len(),
            forall|j: int| 0 <= j < ov@.len() ==> #[trigger] m[j] == (model(ov@[j].0), model(ov@[j].1)),
            find_any_tabs_from(m, 0) == find_any_tabs_from(m, i as int),
        decreases ov.len() - i,
    {
        if is_bytes(&ov[i].0, "tabsettings_new".as_bytes()) || is_bytes(&ov[i].0, "tabsettings".as_bytes()) {
            return Some(i);
        }
        i = i + 1;
    }
    None
}

/// The integer keys of a dict, in order.
pub open spec fn int_keys(t: Pairs) -> Seq<i64>
    decreases t.len(),
{
    if t.len() == 0 {
        Seq::empty()
    } else {
        let rest = int_keys(t.drop_last());
        match int_of(t.last().0) {
            Some(k) => rest.push(k),
            None => rest,
        }
    }
}

fn int_keys_exec(t: &Vec<(Value, Value)>) -> (r: Vec<i64>)
    ensures
        r@ == int_keys(model_pairs(t@)),
{
    let ghost m = model_pairs(t@);
    proof {
        lemma_model_pairs(t@);
    }
    let mut r: Vec<i64> = Vec::new();
    let mut i: usize = 0;
    assert(m.take(0) =~= Seq::<(ValueView, ValueView)>::empty());
    while i < t.len()
        invariant
            i <= t.len(),
            m == model_pairs(t@),
            m.len() == t@.len(),
            forall|j: int| 0 <= j < t@.len() ==> #[trigger] m[j] == (model(t@[j].0), model(t@[j].1)),
            r@ == int_keys(m.take(i as int)),
        decreases t.len() - i,
    {
        assert(m.take(i + 1).drop_last() =~= m.take(i as int));
        if let Value::Int(k) = &t[i].0 {
            r.push(*k);
        }
        i = i + 1;
    }
    assert(m.take(m.len() as int) =~= m);
    r
}

/// Giving an account an explicit tab-to-window mapping: one window listing
/// every tab, in ascending index. Refused when a mapping exists, and when
/// there are no tabs or a tab cannot be named by an integer index: a mapping
/// that leaves a tab out hides it.
pub open spec fn spec_create_mapping(ov: Pairs) -> (Pairs, Result<usize, OverviewTabError>) {
    if window_count(ov) > 0 {
        (ov, Err(OverviewTabError::WindowMappingExists))
    } else {
        match find_any_tabs_from(ov, 0) {
            None => (ov, Err(OverviewTabError::NoTabsToMap)),
            Some(j) => match dict_inner(ov[j].1) {
                None => (ov, Err(OverviewTabError::NoTabsToMap)),
                Some(t) => {
                    let ids = int_keys(t);
                    if ids.len() == 0 || ids.len() != t.len() {
                        (ov, Err(OverviewTabError::NoTabsToMap))
                    } else {
                        (
                            with_groups(ov, groups_of(ov).push(ValueView::List(int_values(ids.sort_by(int_le()))))),
                            Ok(ids.len() as usize),
                        )
                    }
                },
            },
        }
    }
}

/// Writing the mapping reaches a list: a mapping entry that is present but
/// holds no list cannot be written to.
pub open spec fn create_mapping_ok(ov: Pairs) -> bool {
    spec_create_mapping(ov).1 is Ok ==> groups_ok(ov)
}

fn mapping_in(ov: &mut Vec<(Value, Value)>) -> (r: Result<usize, OverviewTabError>)
    requires
        create_mapping_ok(model_pairs(old(ov)@)),
    ensures
        model_pairs(final(ov)@) == spec_create_mapping(model_pairs(old(ov)@)).0,
        r == spec_create_mapping(model_pairs(old(ov)@)).1,
{
    let ghost m0 = model_pairs(ov@);
    proof {
        lemma_model_pairs(ov@);
    }
    if window_count_exec(ov) > 0 {
        return Err(OverviewTabError::WindowMappingExists);
    }
    let j = match find_any_tabs_exec(ov) {
        Some(j) => j,
        None => return Err(OverviewTabError::NoTabsToMap),
    };
    let ids = match dict_inner_exec(&ov[j].1) {
        Some(t) => {
            let ids = int_keys_exec(t);
            proof {
                lemma_model_pairs(t@);
            }
            if ids.len() == 0 || ids.len() != t.len() {
                return Err(OverviewTabError::NoTabsToMap);
            }
            ids
        },
        None => return Err(OverviewTabError::NoTabsToMap),
    };
    let sorted = sort_ints(&ids);
    let n = ids.len();
    let gj = prepare_groups(ov);
    let ghost m1 = model_pairs(ov@);
    let ghost gc = m1[gj as int].1;
    proof {
        lemma_model_pairs(ov@);
        lemma_find_key_from(groups_created(m0), kb("tabsByWindowInstanceID"@), 0);
        lemma_rewrapped(groups_created(m0)[gj as int].1);
        assert(gc == rewrapped(groups_created(m0)[gj as int].1));
    }
    let mut gs = take_entry_list(ov, gj);
    let ghost gv = gs@;
    let item = Value::List(int_values_exec(sorted.as_slice()));
    gs.push(item);
    proof {
        lemma_model_seq_push(gv, item);
    }
    put_entry_list(ov, gj, gs, Ghost(gc));
    Ok(n)
}

proof fn lemma_int_keys_all(t: Pairs)
    requires
        int_keys(t).len() == t.len(),
    ensures
        forall|m: int| 0 <= m < t.len() ==> #[trigger] t[m].0 == ValueView::Int(int_keys(t)[m]),
    decreases t.len(),
{
    if t.len() > 0 {
        let p = t.drop_last();
        assert(int_keys(p).len() <= p.len()) by {
            lemma_int_keys_len(p);
        }
        lemma_int_keys_all(p);
        assert forall|m: int| 0 <= m < t.len() implies #[trigger] t[m].0 == ValueView::Int(int_keys(t)[m]) by {
            if m < p.len() {
                assert(t[m] == p[m]);
            }
        }
    }
}

proof fn lemma_int_keys_len(t: Pairs)
    ensures
        int_keys(t).len() <= t.len(),
    decreases t.len(),
{
    if t.len() > 0 {
        lemma_int_keys_len(t.drop_last());
    }
}

/// A mapping is created complete or not at all: when it is, its one window
/// lists, in ascending order, exactly the tab dict's indices, and every tab
/// of the dict is among them.
pub proof fn lemma_mapping_lists_every_tab(ov: Pairs)
    requires
        spec_create_mapping(ov).1 is Ok,
    ensures
        ({
            let t = dict_inner(ov[find_any_tabs_from(ov, 0)->Some_0].1)->Some_0;
            let s = int_keys(t).sort_by(int_le());
            &&& spec_create_mapping(ov).0 == with_groups(ov, groups_of(ov).push(ValueView::List(int_values(s))))
            &&& spec_create_mapping(ov).1 == Ok::<usize, OverviewTabError>(t.len() as usize)
            &&& forall|m: int| 0 <= m < t.len() ==> (#[trigger] t[m].0 is Int && s.contains(t[m].0->Int_0))
            &&& forall|x: i64| #[trigger] s.contains(x) ==> exists|m: int| 0 <= m < t.len() && t[m].0 == ValueView::Int(x)
            &&& forall|a: int, b: int| 0 <= a < b < s.len() ==> s[a] <= s[b]
        }),
{
    let t = dict_inner(ov[find_any_tabs_from(ov, 0)->Some_0].1)->Some_0;
    let ids = int_keys(t);
    let s = ids.sort_by(int_le());
    lemma_int_keys_all(t);
    crate::container::lemma_int_le_total();
    ids.lemma_sort_by_ensures(int_le());
    assert forall|x: i64| s.contains(x) <==> ids.contains(x) by {
        vstd::seq_lib::to_multiset_contains(s, x);
        vstd::seq_lib::to_multiset_contains(ids, x);
    }
    assert forall|m: int| 0 <= m < t.len() implies (#[trigger] t[m].0 is Int && s.contains(t[m].0->Int_0)) by {
        assert(ids[m] == t[m].0->Int_0);
    }
    assert forall|x: i64| #[trigger] s.contains(x) implies exists|m: int| 0 <= m < t.len() && t[m].0 == ValueView::Int(x) by {
        let m = choose|m: int| 0 <= m < ids.len() && ids[m] == x;
        assert(t[m].0 == ValueView::Int(x));
    }
    assert forall|a: int, b: int| 0 <= a < b < s.len() implies s[a] <= s[b] by {
        assert((int_le())(s[a], s[b]));
    }
}

/// Give an account an explicit tab-to-window mapping: one window listing
/// every tab it has, in ascending index. The only way a mapping is ever
/// created; it replaces the client's own default distribution of tabs, so
/// nothing calls it implicitly. Returns the number of tabs mapped.
pub fn create_window_mapping(v: &mut Value) -> (r: Result<usize, OverviewTabError>)
    requires
        spec_inline(old(v)@) is Some,
        overview_of(spec_inline(old(v)@)->Some_0) matches Some(ov) ==> create_mapping_ok(ov),
    ensures
        (final(v)@, r) == overview_edited(spec_inline(old(v)@)->Some_0, |ov: Pairs| spec_create_mapping(ov)),
{
    let w = crate::reshare::inline(v);
    *v = w;
    let ghost w0 = v@;
    match take_overview(v) {
        None => Err(OverviewTabError::NoOverview),
        Some(mut ov) => {
            let r = mapping_in(&mut ov);
            proof {
                lemma_with_overview(w0, Seq::empty(), model_pairs(ov@));
            }
            put_overview(v, ov);
            r
        },
    }
}

// ---------------------------------------------------------------------------
// Window geometry in the character file.
// ---------------------------------------------------------------------------

/// The character file's key for overview window `w`: `overview_` and its
/// number.
pub open spec fn window_key(w: usize) -> Seq<u8> {
    kb("overview_"@ + decimal_text(w as int))
}

fn window_key_exec(w: usize) -> (k: Vec<u8>)
    ensures
        k@ == window_key(w),
{
    let mut name = String::from_str("overview_");
    let digits = decimal(w as i128);
    name.append(digits.as_str());
    slice_to_vec(name.as_str().as_bytes())
}

/// How far a new window is offset from the primary, so it does not land
/// exactly on top of it.
pub open spec fn window_offset() -> int {
    40
}

/// An integer coordinate moved by the offset; anything else left as is.
pub open spec fn shifted_coord(v: ValueView) -> ValueView {
    match v {
        ValueView::Int(n) => ValueView::Int((n + window_offset()) as i64),
        _ => v,
    }
}

/// A geometry tuple with its first two coordinates (x, y) moved.
pub open spec fn shifted(v: ValueView) -> ValueView {
    match v {
        ValueView::Tuple(items) => ValueView::Tuple(
            if items.len() > 1 {
                items.update(0, shifted_coord(items[0])).update(1, shifted_coord(items[1]))
            } else if items.len() == 1 {
                items.update(0, shifted_coord(items[0]))
            } else {
                items
            },
        ),
        _ => v,
    }
}

/// Moving the coordinate does not overflow.
pub open spec fn coord_fits(v: ValueView) -> bool {
    v matches ValueView::Int(n) ==> n + window_offset() <= i64::MAX
}

pub open spec fn shift_fits(v: ValueView) -> bool {
    v matches ValueView::Tuple(items) ==> (items.len() > 0 ==> coord_fits(items[0])) && (items.len() > 1
        ==> coord_fits(items[1]))
}

/// One `windows` subdict with window `key`'s entry minted from the primary
/// `overview` entry; the geometry subdict's copy is offset. Left alone when
/// it holds no dict, already has the key, or has no primary entry.
pub open spec fn sub_added(sk: ValueView, sv: ValueView, key: Seq<u8>) -> ValueView {
    match dict_inner(sv) {
        None => sv,
        Some(e) => if find_key(e, key) is Some {
            sv
        } else {
            match find_key(e, kb("overview"@)) {
                None => sv,
                Some(p) => {
                    let nv = if spec_is_bytes(sk, kb("windowSizesAndPositions_1"@)) {
                        shifted(e[p].1)
                    } else {
                        e[p].1
                    };
                    dict_replaced(sv, e.push((ValueView::Bytes(key), nv)))
                },
            }
        },
    }
}

/// Minting the entry does not overflow a coordinate.
pub open spec fn sub_fits(sk: ValueView, sv: ValueView, key: Seq<u8>) -> bool {
    match dict_inner(sv) {
        Some(e) => (find_key(e, key) is None && spec_is_bytes(sk, kb("windowSizesAndPositions_1"@))) ==> match find_key(
            e,
            kb("overview"@),
        ) {
            Some(p) => shift_fits(e[p].1),
            None => true,
        },
        None => true,
    }
}

/// One `windows` subdict with window `key`'s entry dropped.
pub open spec fn sub_removed(sv: ValueView, key: Seq<u8>) -> ValueView {
    match dict_inner(sv) {
        Some(e) => dict_replaced(sv, e.filter(not_bytes_key(key))),
        None => sv,
    }
}

/// The document with every subdict of its `windows` dict rewritten by `f`;
/// unchanged when there is no `windows` dict.
pub open spec fn windows_mapped(root: ValueView, f: spec_fn(ValueView, ValueView) -> ValueView) -> ValueView {
    match root {
        ValueView::Dict(r) => match find_key(r, kb("windows"@)) {
            Some(j) => match r[j].1 {
                ValueView::Dict(subs) => ValueView::Dict(
                    r.update(j, (r[j].0, ValueView::Dict(subs.map_values(|e: (ValueView, ValueView)| (e.0, f(e.0, e.1)))))),
                ),
                _ => root,
            },
            None => root,
        },
        _ => root,
    }
}

/// Every subdict of the `windows` dict satisfies `p`.
pub open spec fn windows_all(root: ValueView, p: spec_fn(ValueView, ValueView) -> bool) -> bool {
    match root {
        ValueView::Dict(r) => match find_key(r, kb("windows"@)) {
            Some(j) => match r[j].1 {
                ValueView::Dict(subs) => forall|k: int| 0 <= k < subs.len() ==> p(#[trigger] subs[k].0, subs[k].1),
                _ => true,
            },
            None => true,
        },
        _ => true,
    }
}

fn shift_coord(v: &mut Value)
    requires
        coord_fits(old(v)@),
    ensures
        final(v)@ == shifted_coord(old(v)@),
{
    if let Value::Int(n) = v {
        *n = *n + 40;
    }
}

fn shift(v: &mut Value)
    requires
        shift_fits(old(v)@),
    ensures
        final(v)@ == shifted(old(v)@),
{
    if let Value::Tuple(items) = v {
        proof {
            lemma_model_seq(items@);
        }
        let ghost i0 = items@;
        if items.len() > 0 {
            shift_coord(&mut items[0]);
            proof {
                lemma_model_seq_update(i0, 0, items@[0]);
                assert(i0.update(0, items@[0]) =~= items@);
            }
        }
        let ghost i1 = items@;
        if items.len() > 1 {
            proof {
                lemma_model_seq(items@);
            }
            shift_coord(&mut items[1]);
            proof {
                lemma_model_seq_update(i1, 1, items@[1]);
                assert(i1.update(1, items@[1]) =~= items@);
            }
        }
    }
}

fn add_to_sub(sk: &Value, sv: &mut Value, key: &Vec<u8>)
    requires
        sub_fits(sk@, old(sv)@, key@),
    ensures
        final(sv)@ == sub_added(sk@, old(sv)@, key@),
{
    let ghost c = sv@;
    let mut e: Vec<(Value, Value)> = Vec::new();
    assert(model_pairs(e@) =~= Seq::<(ValueView, ValueView)>::empty());
    if !swap_dict_inner(sv, &mut e) {
        return;
    }
    let ghost e0 = model_pairs(e@);
    proof {
        lemma_model_pairs(e@);
    }
    if find_key_exec(&e, key.as_slice()).is_none() {
        match find_key_exec(&e, "overview".as_bytes()) {
            Some(p) => {
                let mut nv = crate::reshare::clone_value(&e[p].1);
                if is_bytes(sk, "windowSizesAndPositions_1".as_bytes()) {
                    shift(&mut nv);
                }
                let ghost ev = e@;
                let item = (Value::Bytes(slice_to_vec(key.as_slice())), nv);
                proof {
                    lemma_model_pairs_push(ev, item);
                }
                e.push(item);
            },
            None => {},
        }
    }
    proof {
        lemma_dict_replaced(c, Seq::empty(), model_pairs(e@));
    }
    swap_dict_inner(sv, &mut e);
}

fn remove_from_sub(sv: &mut Value, key: &Vec<u8>)
    ensures
        final(sv)@ == sub_removed(old(sv)@, key@),
{
    let ghost c = sv@;
    let mut e: Vec<(Value, Value)> = Vec::new();
    assert(model_pairs(e@) =~= Seq::<(ValueView, ValueView)>::empty());
    if !swap_dict_inner(sv, &mut e) {
        return;
    }
    let mut kept = without_bytes_key(&e, key.as_slice());
    proof {
        lemma_dict_replaced(c, Seq::empty(), model_pairs(kept@));
    }
    swap_dict_inner(sv, &mut kept);
}

/// Rewrite every subdict of the document's `windows` dict, adding window
/// `key` (`add`) or removing it.
fn edit_windows(v: &mut Value, key: &Vec<u8>, add: bool)
    requires
        add ==> windows_all(old(v)@, |sk: ValueView, sv: ValueView| sub_fits(sk, sv, key@)),
    ensures
        final(v)@ == if add {
            windows_mapped(old(v)@, |sk: ValueView, sv: ValueView| sub_added(sk, sv, key@))
        } else {
            windows_mapped(old(v)@, |sk: ValueView, sv: ValueView| sub_removed(sv, key@))
        },
{
    let ghost f = if add {
        |sk: ValueView, sv: ValueView| sub_added(sk, sv, key@)
    } else {
        |sk: ValueView, sv: ValueView| sub_removed(sv, key@)
    };
    let mut whole = Value::Nil;
    std::mem::swap(v, &mut whole);
    match whole {
        Value::Dict(mut root) => {
            proof {
                lemma_model_pairs(root@);
            }
            let ghost r0 = model_pairs(root@);
            match find_key_exec(&root, "windows".as_bytes()) {
                Some(j) => {
                    proof {
                        lemma_find_key_from(r0, kb("windows"@), 0);
                    }
                    let ghost rv0 = root@;
                    let mut wins = Value::Nil;
                    std::mem::swap(&mut root[j].1, &mut wins);
                    let ghost rs = root@;
                    match wins {
                        Value::Dict(mut subs) => {
                            let ghost s0 = model_pairs(subs@);
                            proof {
                                lemma_model_pairs(subs@);
                            }
                            let mut k: usize = 0;
                            while k < subs.len()
                                invariant
                                    k <= subs@.len(),
                                    subs@.len() == s0.len(),
                                    model_pairs(subs@).len() == s0.len(),
                                    add ==> forall|i: int| 0 <= i < s0.len() ==> sub_fits(#[trigger] s0[i].0, s0[i].1, key@),
                                    forall|i: int| 0 <= i < k ==> #[trigger] model_pairs(subs@)[i] == (s0[i].0, f(s0[i].0, s0[i].1)),
                                    forall|i: int| k <= i < s0.len() ==> #[trigger] model_pairs(subs@)[i] == s0[i],
                                    f == (if add {
                                        |sk: ValueView, sv: ValueView| sub_added(sk, sv, key@)
                                    } else {
                                        |sk: ValueView, sv: ValueView| sub_removed(sv, key@)
                                    }),
                                decreases subs@.len() - k,
                            {
                                proof {
                                    lemma_model_pairs(subs@);
                                }
                                let ghost before = subs@;
                                let mut sv = Value::Nil;
                                std::mem::swap(&mut subs[k].1, &mut sv);
                                assert(model_pairs(before)[k as int] == s0[k as int]);
                                assert(sv@ == s0[k as int].1);
                                assert(subs@[k as int].0 == before[k as int].0);
                                assert(subs@[k as int].0@ == s0[k as int].0);
                                if add {
                                    add_to_sub(&subs[k].0, &mut sv, key);
                                } else {
                                    remove_from_sub(&mut sv, key);
                                }
                                std::mem::swap(&mut subs[k].1, &mut sv);
                                assert(subs@[k as int].1@ == f(s0[k as int].0, s0[k as int].1));
                                proof {
                                    lemma_model_pairs_update(before, k as int, subs@[k as int]);
                                    assert(before.update(k as int, subs@[k as int]) =~= subs@);
                                    lemma_model_pairs(subs@);
                                }
                                k = k + 1;
                            }
                            proof {
                                lemma_model_pairs(subs@);
                                assert(model_pairs(subs@) =~= s0.map_values(|e: (ValueView, ValueView)| (e.0, f(e.0, e.1))));
                            }
                            let mut back = Value::Dict(subs);
                            std::mem::swap(&mut root[j].1, &mut back);
                            proof {
                                assert(root@ =~= rv0.update(j as int, root@[j as int]));
                                lemma_model_pairs_update(rv0, j as int, root@[j as int]);
                            }
                        },
                        other => {
                            let mut back = other;
                            std::mem::swap(&mut root[j].1, &mut back);
                            proof {
                                assert(root@ =~= rv0);
                            }
                        },
                    }
                    *v = Value::Dict(root);
                },
                None => {
                    *v = Value::Dict(root);
                },
            }
        },
        other => {
            *v = other;
        },
    }
}

/// Mint overview window `window_idx`'s entry in every subdict of the
/// character file's `windows` dict by cloning the primary `overview` entry
/// (the geometry copy offset so it does not sit on the primary). Window 0 is
/// the primary itself, so nothing changes for it; a subdict that already has
/// the entry is skipped, so the edit is idempotent.
pub fn add_overview_window_geometry(v: &mut Value, window_idx: usize)
    requires
        window_idx != 0 ==> spec_inline(old(v)@) is Some,
        window_idx != 0 ==> windows_all(
            spec_inline(old(v)@)->Some_0,
            |sk: ValueView, sv: ValueView| sub_fits(sk, sv, window_key(window_idx)),
        ),
    ensures
        final(v)@ == if window_idx == 0 {
            old(v)@
        } else {
            windows_mapped(
                spec_inline(old(v)@)->Some_0,
                |sk: ValueView, sv: ValueView| sub_added(sk, sv, window_key(window_idx)),
            )
        },
{
    if window_idx == 0 {
        return;
    }
    let w = crate::reshare::inline(v);
    *v = w;
    let key = window_key_exec(window_idx);
    edit_windows(v, &key, true);
}

/// Drop overview window `window_idx`'s entry from every subdict of the
/// character file's `windows` dict; nothing changes for window 0.
pub fn remove_overview_window_geometry(v: &mut Value, window_idx: usize)
    requires
        window_idx != 0 ==> spec_inline(old(v)@) is Some,
    ensures
        final(v)@ == if window_idx == 0 {
            old(v)@
        } else {
            windows_mapped(
                spec_inline(old(v)@)->Some_0,
                |sk: ValueView, sv: ValueView| sub_removed(sv, window_key(window_idx)),
            )
        },
{
    if window_idx == 0 {
        return;
    }
    let w = crate::reshare::inline(v);
    *v = w;
    let key = window_key_exec(window_idx);
    edit_windows(v, &key, false);
}

/// Put edited entries back as the `overview` container of `w0`, from which
/// [`take_overview`] took them.
pub(crate) fn put_overview_entries(v: &mut Value, ov: Vec<(Value, Value)>, Ghost(w0): Ghost<ValueView>)
    requires
        overview_of(w0) is Some,
        old(v)@ == with_overview(w0, Seq::empty()),
    ensures
        final(v)@ == with_overview(w0, model_pairs(ov@)),
{
    proof {
        lemma_with_overview(w0, Seq::empty(), model_pairs(ov@));
    }
    put_overview(v, ov);
}


// ---------------------------------------------------------------------------
// Refusals.
// ---------------------------------------------------------------------------

/// The tab editors' refusals change nothing: creating a tab in a window the
/// mapping lacks, moving a tab on an account with no mapping, and creating
/// a mapping where one exists each leave the overview as it was.
pub proof fn lemma_tab_edits_refused(ov: Pairs, w: usize, name: Seq<char>, from: Option<i64>, tab: i64, to: usize, pos: usize)
    ensures
        window_count(ov) > 0 && w >= window_count(ov) ==> spec_create_tab(ov, w, name, from) == (
            ov,
            Err::<i64, OverviewTabError>(OverviewTabError::UnknownWindow { index: w }),
        ),
        window_count(ov) == 0 ==> spec_move_tab(ov, tab, w, to, pos) == (
            ov,
            Err::<(), OverviewTabError>(OverviewTabError::NoWindowMapping),
        ),
        window_count(ov) > 0 ==> spec_create_mapping(ov) == (
            ov,
            Err::<usize, OverviewTabError>(OverviewTabError::WindowMappingExists),
        ),
        spec_create_mapping(ov).1 is Err ==> spec_create_mapping(ov).0 == ov,
{
}

} // verus!
