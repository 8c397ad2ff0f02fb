//! Authoring the overview's filter presets: the named filter definitions in
//! the `overview` container under `overviewProfilePresets`, a
//! `(timestamp, dict)` keyed by preset name. A tab points at a preset by name
//! in its `overview` field. Edits work on the inlined document, like the tab
//! edits.
//!
//! `overviewProfilePresets_notSaved` is a parallel, name-keyed buffer holding
//! the client's unsaved working copy of a preset; renames and deletions
//! mirror into it so that no stale entry can bring a preset back.

use vstd::prelude::*;
use vstd::slice::slice_to_vec;
use vstd::string::StringExecFns;

use crate::batch::{dict_inner, dict_inner_exec, find_key, find_key_exec, lemma_find_key_from, spec_is_bytes};
use crate::container::{
    dict_replaced, int_le, lemma_dict_replaced, lemma_model_pairs_push, put_entry_dict, sort_ints, stamped,
    stamped_exec, take_entry_dict, Pairs,
};
use crate::overview_tabs::{
    int_values, int_values_exec, kb, lemma_find_key_update_value, lemma_rewrapped, overview_of, prepare_tabs,
    put_overview_entries, rewrapped, tabs_at, tabs_created, tabs_migrated, take_overview, text_is, with_overview,
    OverviewTabError,
};
use crate::path::lemma_model_pairs_update;
use crate::text::{lossy_text, utf8_lossy};
use crate::reshare::spec_inline;
use crate::value::{lemma_model_pairs, model_pairs, Value, ValueView};

verus! {

broadcast use vstd::std_specs::vec::group_vec_axioms;

// ---------------------------------------------------------------------------
// Text of keys and values.
// ---------------------------------------------------------------------------

/// What `str::to_lowercase` makes of the text `s`.
pub uninterp spec fn lowercase(s: Seq<char>) -> Seq<char>;

/// `str::to_lowercase`: the lowercase form of `s` under Unicode's case
/// mapping. The result depends on the text alone; nothing more is stated.
#[verifier::external_body]
pub(crate) fn lowercase_text(s: &str) -> (r: String)
    ensures
        r@ == lowercase(s@),
{
    s.to_lowercase()
}

/// The text of a preset key or of a tab's `overview` value: bytes (what real
/// files store) read as UTF-8, text as it is.
pub open spec fn text_of(v: ValueView) -> Option<Seq<char>> {
    match v {
        ValueView::Bytes(b) => Some(utf8_lossy(b)),
        ValueView::Str(s) => Some(s),
        ValueView::StrUcs2(s) => Some(s),
        _ => None,
    }
}

pub(crate) fn text_of_exec(v: &Value) -> (r: Option<String>)
    ensures
        match r {
            Some(s) => text_of(v@) == Some(s@),
            None => text_of(v@) is None,
        },
{
    match v {
        Value::Bytes(b) => Some(lossy_text(b.as_slice())),
        Value::Str(s) => Some(s.clone()),
        Value::StrUcs2(s) => Some(s.clone()),
        _ => None,
    }
}

/// Whether `v` reads as the text `name`.
fn is_named(v: &Value, name: &str) -> (r: bool)
    ensures
        r == (text_of(v@) == Some(name@)),
{
    match text_of_exec(v) {
        Some(s) => text_is(&s, name),
        None => false,
    }
}

/// The first entry at or after `i` whose key reads as `name`.
pub open spec fn find_named_from(d: Pairs, name: Seq<char>, i: int) -> Option<int>
    decreases d.len() - i,
{
    if i < 0 || i >= d.len() {
        None
    } else if text_of(d[i].0) == Some(name) {
        Some(i)
    } else {
        find_named_from(d, name, i + 1)
    }
}

pub open spec fn find_named(d: Pairs, name: Seq<char>) -> Option<int> {
    find_named_from(d, name, 0)
}

pub proof fn lemma_find_named_from(d: Pairs, name: Seq<char>, i: int)
    requires
        0 <= i,
    ensures
        find_named_from(d, name, i) matches Some(j) ==> i <= j < d.len() && text_of(d[j].0) == Some(name)
            && forall|k: int| i <= k < j ==> text_of(#[trigger] d[k].0) != Some(name),
        find_named_from(d, name, i) is None ==> forall|k: int| i <= k < d.len() ==> text_of(#[trigger] d[k].0) != Some(name),
    decreases d.len() - i,
{
    if i < d.len() {
        lemma_find_named_from(d, name, i + 1);
    }
}

fn find_named_exec(d: &Vec<(Value, Value)>, name: &str) -> (r: Option<usize>)
    ensures
        match r {
            Some(j) => find_named(model_pairs(d@), name@) == Some(j as int) && j < d@.len(),
            None => find_named(model_pairs(d@), name@) is None,
        },
{
    let ghost m = model_pairs(d@);
    proof {
        lemma_model_pairs(d@);
    }
    let mut i: usize = 0;
    while i < d.len()
        invariant
            i <= d.len(),
            m == model_pairs(d@),
            m.len() == d@.len(),
            forall|j: int| 0 <= j < d@.len() ==> #[trigger] m[j] == (d@[j].0@, d@[j].1@),
            find_named(m, name@) == find_named_from(m, name@, i as int),
        decreases d.len() - i,
    {
        if is_named(&d[i].0, name) {
            return Some(i);
        }
        i = i + 1;
    }
    None
}

/// Entries whose key does not read as `name` (entries keyed otherwise stay).
pub open spec fn not_named(name: Seq<char>) -> spec_fn((ValueView, ValueView)) -> bool {
    |e: (ValueView, ValueView)| text_of(e.0) != Some(name)
}

fn without_named(d: &Vec<(Value, Value)>, name: &str) -> (r: Vec<(Value, Value)>)
    ensures
        model_pairs(r@) == model_pairs(d@).filter(not_named(name@)),
{
    let ghost m = model_pairs(d@);
    proof {
        lemma_model_pairs(d@);
        crate::container::lemma_filter_empty(m.take(0), not_named(name@));
    }
    let mut r: Vec<(Value, Value)> = Vec::new();
    assert(model_pairs(r@) =~= Seq::<(ValueView, ValueView)>::empty());
    let mut i: usize = 0;
    while i < d.len()
        invariant
            i <= d.len(),
            m == model_pairs(d@),
            m.len() == d@.len(),
            forall|j: int| 0 <= j < d@.len() ==> #[trigger] m[j] == (d@[j].0@, d@[j].1@),
            model_pairs(r@) == m.take(i as int).filter(not_named(name@)),
        decreases d.len() - i,
    {
        proof {
            crate::container::lemma_filter_step(m, i as int, not_named(name@));
        }
        if !is_named(&d[i].0, name) {
            let e = (crate::reshare::clone_value(&d[i].0), crate::reshare::clone_value(&d[i].1));
            proof {
                lemma_model_pairs_push(r@, e);
            }
            r.push(e);
        }
        i = i + 1;
    }
    assert(m.take(m.len() as int) =~= m);
    r
}

// ---------------------------------------------------------------------------
// The preset containers.
// ---------------------------------------------------------------------------

pub open spec fn presets_key() -> Seq<u8> {
    kb("overviewProfilePresets"@)
}

pub open spec fn not_saved_key() -> Seq<u8> {
    kb("overviewProfilePresets_notSaved"@)
}

/// The entries of the dict under `key` (bare or wrapped), when there is one.
pub open spec fn dict_at(ov: Pairs, key: Seq<u8>) -> Option<Pairs> {
    match find_key(ov, key) {
        Some(j) => dict_inner(ov[j].1),
        None => None,
    }
}

/// `ov` with the dict under `key` replaced by `d`, its wrapper kept.
pub open spec fn with_dict_at(ov: Pairs, key: Seq<u8>, d: Pairs) -> Pairs {
    let j = find_key(ov, key)->Some_0;
    ov.update(j, (ov[j].0, dict_replaced(ov[j].1, d)))
}

/// `ov` with an empty, wrapped preset dict minted when it has none (a clean
/// account stores no presets at all).
pub open spec fn presets_created(ov: Pairs) -> Pairs {
    if find_key(ov, presets_key()) is None {
        ov.push((ValueView::Bytes(presets_key()), stamped(ValueView::Dict(Seq::empty()))))
    } else {
        ov
    }
}

/// The preset entry, when there is one, holds a dict; otherwise reaching it
/// to add a preset fails.
pub open spec fn presets_ok(ov: Pairs) -> bool {
    find_key(ov, presets_key()) matches Some(j) ==> dict_inner(ov[j].1) is Some
}

/// Take the dict under `key` out of `ov`, leaving an empty one in its
/// place; `None`, changing nothing, when there is none.
fn take_dict_at(ov: &mut Vec<(Value, Value)>, key: &[u8]) -> (r: Option<(usize, Vec<(Value, Value)>)>)
    ensures
        match r {
            Some((j, d)) => find_key(model_pairs(old(ov)@), key@) == Some(j as int) && dict_at(
                model_pairs(old(ov)@),
                key@,
            ) == Some(model_pairs(d@)) && model_pairs(final(ov)@) == with_dict_at(
                model_pairs(old(ov)@),
                key@,
                Seq::empty(),
            ) && j < old(ov)@.len() && final(ov)@.len() == old(ov)@.len(),
            None => dict_at(model_pairs(old(ov)@), key@) is None && final(ov)@ == old(ov)@,
        },
{
    proof {
        lemma_model_pairs(ov@);
    }
    match find_key_exec(ov, key) {
        Some(j) => {
            if dict_inner_exec(&ov[j].1).is_none() {
                return None;
            }
            let d = take_entry_dict(ov, j);
            Some((j, d))
        },
        None => None,
    }
}

/// A preset's blob: its group list sorted ascending, its state lists as
/// given.
pub open spec fn preset_blob(groups: Seq<i64>, filtered: Seq<i64>, shown: Seq<i64>) -> ValueView {
    ValueView::Dict(
        seq![
            (ValueView::Bytes(kb("groups"@)), ValueView::List(int_values(groups.sort_by(int_le())))),
            (ValueView::Bytes(kb("filteredStates"@)), ValueView::List(int_values(filtered))),
            (ValueView::Bytes(kb("alwaysShownStates"@)), ValueView::List(int_values(shown))),
        ],
    )
}

fn preset_blob_exec(groups: &[i64], filtered: &[i64], shown: &[i64]) -> (r: Value)
    ensures
        r@ == preset_blob(groups@, filtered@, shown@),
{
    let g = sort_ints(&slice_to_vec(groups));
    let parts = vec![
        (Value::Bytes(slice_to_vec("groups".as_bytes())), Value::List(int_values_exec(g.as_slice()))),
        (Value::Bytes(slice_to_vec("filteredStates".as_bytes())), Value::List(int_values_exec(filtered))),
        (Value::Bytes(slice_to_vec("alwaysShownStates".as_bytes())), Value::List(int_values_exec(shown))),
    ];
    proof {
        lemma_model_pairs(parts@);
        assert(model_pairs(parts@) =~= preset_blob(groups@, filtered@, shown@)->Dict_0);
    }
    Value::Dict(parts)
}

// ---------------------------------------------------------------------------
// Outcomes.
// ---------------------------------------------------------------------------

/// An overview edit's refusal, by view.
pub enum EditFailure {
    NoOverview,
    UnknownTab(i64),
    UnknownWindow(usize),
    LastTab,
    LastWindow,
    NoWindowMapping,
    WindowMappingExists,
    NoTabsToMap,
    NotLastWindow(usize),
    UnknownPreset(Seq<char>),
    PresetExists(Seq<char>),
    LastPreset,
    UnknownSetting(Seq<char>),
}

pub open spec fn failure_view(e: OverviewTabError) -> EditFailure {
    match e {
        OverviewTabError::NoOverview => EditFailure::NoOverview,
        OverviewTabError::UnknownTab { index } => EditFailure::UnknownTab(index),
        OverviewTabError::UnknownWindow { index } => EditFailure::UnknownWindow(index),
        OverviewTabError::LastTab => EditFailure::LastTab,
        OverviewTabError::LastWindow => EditFailure::LastWindow,
        OverviewTabError::NoWindowMapping => EditFailure::NoWindowMapping,
        OverviewTabError::WindowMappingExists => EditFailure::WindowMappingExists,
        OverviewTabError::NoTabsToMap => EditFailure::NoTabsToMap,
        OverviewTabError::NotLastWindow { index } => EditFailure::NotLastWindow(index),
        OverviewTabError::UnknownPreset { name } => EditFailure::UnknownPreset(name@),
        OverviewTabError::PresetExists { name } => EditFailure::PresetExists(name@),
        OverviewTabError::LastPreset => EditFailure::LastPreset,
        OverviewTabError::UnknownSetting { key } => EditFailure::UnknownSetting(key@),
    }
}

/// An edit's result, by view.
pub open spec fn edit_outcome(r: Result<(), OverviewTabError>) -> Result<(), EditFailure> {
    match r {
        Ok(()) => Ok(()),
        Err(e) => Err(failure_view(e)),
    }
}

/// The document after a preset edit of its `overview` container:
/// `NoOverview`, with the document only inlined, when there is none.
pub open spec fn presets_edited(w: ValueView, edit: spec_fn(Pairs) -> (Pairs, Result<(), EditFailure>)) -> (
    ValueView,
    Result<(), EditFailure>,
) {
    match overview_of(w) {
        Some(ov) => (with_overview(w, edit(ov).0), edit(ov).1),
        None => (w, Err(EditFailure::NoOverview)),
    }
}

// ---------------------------------------------------------------------------
// Creating presets and setting their groups.
// ---------------------------------------------------------------------------

/// Creating preset `name` from explicit lists (to fork a built-in default the
/// file may not store): the preset dict is minted when absent, and a taken
/// name is refused.
pub open spec fn spec_create_from_lists(
    ov: Pairs,
    name: Seq<char>,
    groups: Seq<i64>,
    filtered: Seq<i64>,
    shown: Seq<i64>,
) -> (Pairs, Result<(), EditFailure>) {
    let c = presets_created(ov);
    let d = dict_at(c, presets_key())->Some_0;
    if find_named(d, name) is Some {
        (c, Err(EditFailure::PresetExists(name)))
    } else {
        (
            with_dict_at(c, presets_key(), d.push((ValueView::Bytes(kb(name)), preset_blob(groups, filtered, shown)))),
            Ok(()),
        )
    }
}

/// A minted wrapper holds its dict.
proof fn lemma_stamped_dict(d: Pairs)
    ensures
        dict_inner(stamped(ValueView::Dict(d))) == Some(d),
{
    let items = seq![crate::container::zero_stamp(), ValueView::Dict(d)];
    assert(crate::batch::first_dict_from(items, 2) is None);
    assert(crate::batch::first_dict_from(items, 1) == Some(1int));
    assert(crate::batch::first_dict_from(items, 0) == Some(1int));
}

/// The preset dict, minted when absent, as [`presets_created`] states it.
fn presets_ready(ov: &mut Vec<(Value, Value)>)
    requires
        presets_ok(model_pairs(old(ov)@)),
    ensures
        model_pairs(final(ov)@) == presets_created(model_pairs(old(ov)@)),
        dict_at(model_pairs(final(ov)@), presets_key()) is Some,
{
    proof {
        lemma_model_pairs(ov@);
        lemma_find_key_from(model_pairs(ov@), presets_key(), 0);
    }
    let key = "overviewProfilePresets".as_bytes();
    let found = find_key_exec(ov, key);
    assert(key@ == presets_key());
    if found.is_none() {
        let ghost before = ov@;
        let d0: Vec<(Value, Value)> = Vec::new();
        assert(model_pairs(d0@) =~= Seq::<(ValueView, ValueView)>::empty());
        let e = (Value::Bytes(slice_to_vec(key)), stamped_exec(Value::Dict(d0)));
        proof {
            lemma_model_pairs_push(before, e);
        }
        ov.push(e);
        proof {
            crate::overview_tabs::lemma_find_key_push(model_pairs(before), presets_key(), model_pairs(ov@).last(), 0);
            lemma_stamped_dict(Seq::empty());
        }
    }
}

fn create_from_lists_in(
    ov: &mut Vec<(Value, Value)>,
    name: &str,
    groups: &[i64],
    filtered: &[i64],
    shown: &[i64],
) -> (r: Result<(), OverviewTabError>)
    requires
        presets_ok(model_pairs(old(ov)@)),
    ensures
        (model_pairs(final(ov)@), edit_outcome(r)) == spec_create_from_lists(
            model_pairs(old(ov)@),
            name@,
            groups@,
            filtered@,
            shown@,
        ),
{
    presets_ready(ov);
    let ghost c = model_pairs(ov@);
    let (j, mut d) = match take_dict_at(ov, "overviewProfilePresets".as_bytes()) {
        Some(x) => x,
        None => return Ok(()),
    };
    let ghost cj = c[j as int].1;
    proof {
        lemma_model_pairs(ov@);
        lemma_find_key_from(c, presets_key(), 0);
    }
    if find_named_exec(&d, name).is_some() {
        put_entry_dict(ov, j, d, Ghost(cj));
        proof {
            lemma_dict_replaced(cj, Seq::empty(), dict_inner(cj)->Some_0);
            assert(model_pairs(ov@) =~= c);
        }
        return Err(OverviewTabError::PresetExists { name: String::from_str(name) });
    }
    let e = (Value::Bytes(slice_to_vec(name.as_bytes())), preset_blob_exec(groups, filtered, shown));
    proof {
        lemma_model_pairs_push(d@, e);
    }
    d.push(e);
    put_entry_dict(ov, j, d, Ghost(cj));
    proof {
        lemma_dict_replaced(cj, Seq::empty(), model_pairs(d@));
    }
    Ok(())
}

/// Create a new preset `name` from explicit lists: groups sorted ascending,
/// the state lists stored as given. Used to fork a built-in default the file
/// may not store; the preset dict is minted when the account has none.
pub fn create_preset_from_lists(
    v: &mut Value,
    name: &str,
    groups: &[i64],
    filtered_states: &[i64],
    always_shown_states: &[i64],
) -> (r: Result<(), OverviewTabError>)
    requires
        spec_inline(old(v)@) is Some,
        overview_of(spec_inline(old(v)@)->Some_0) matches Some(ov) ==> presets_ok(ov),
    ensures
        (final(v)@, edit_outcome(r)) == presets_edited(
            spec_inline(old(v)@)->Some_0,
            |ov: Pairs| spec_create_from_lists(ov, name@, groups@, filtered_states@, always_shown_states@),
        ),
{
    let w = crate::reshare::inline(v);
    *v = w;
    let ghost w0 = v@;
    match take_overview(v) {
        None => Err(OverviewTabError::NoOverview),
        Some(mut ov) => {
            let r = create_from_lists_in(&mut ov, name, groups, filtered_states, always_shown_states);
            put_overview_entries(v, ov, Ghost(w0));
            r
        },
    }
}

/// Put back a dict that [`take_dict_at`] took from `o` at `j`.
fn put_dict_at(ov: &mut Vec<(Value, Value)>, j: usize, d: Vec<(Value, Value)>, Ghost(o): Ghost<Pairs>, Ghost(key): Ghost<Seq<u8>>)
    requires
        find_key(o, key) == Some(j as int),
        dict_at(o, key) is Some,
        j < old(ov)@.len(),
        model_pairs(old(ov)@) == with_dict_at(o, key, Seq::empty()),
    ensures
        model_pairs(final(ov)@) == with_dict_at(o, key, model_pairs(d@)),
        model_pairs(d@) == dict_at(o, key)->Some_0 ==> model_pairs(final(ov)@) == o,
{
    let ghost c = o[j as int].1;
    proof {
        lemma_find_key_from(o, key, 0);
        lemma_dict_replaced(c, Seq::empty(), model_pairs(d@));
        lemma_dict_replaced(c, Seq::empty(), dict_inner(c)->Some_0);
    }
    let ghost dv = model_pairs(d@);
    put_entry_dict(ov, j, d, Ghost(c));
    proof {
        assert(model_pairs(ov@) =~= with_dict_at(o, key, dv));
        if dv == dict_at(o, key)->Some_0 {
            assert(with_dict_at(o, key, dv) =~= o);
        }
    }
}

/// Duplicating preset `from` under the new name `new_name`: the whole blob
/// is copied. An unknown source or a taken name is refused.
pub open spec fn spec_create_preset(ov: Pairs, from: Seq<char>, new_name: Seq<char>) -> (Pairs, Result<(), EditFailure>) {
    match dict_at(ov, presets_key()) {
        None => (ov, Err(EditFailure::UnknownPreset(from))),
        Some(d) => if find_named(d, new_name) is Some {
            (ov, Err(EditFailure::PresetExists(new_name)))
        } else {
            match find_named(d, from) {
                None => (ov, Err(EditFailure::UnknownPreset(from))),
                Some(i) => (with_dict_at(ov, presets_key(), d.push((ValueView::Bytes(kb(new_name)), d[i].1))), Ok(())),
            }
        },
    }
}

fn create_in(ov: &mut Vec<(Value, Value)>, from: &str, new_name: &str) -> (r: Result<(), OverviewTabError>)
    ensures
        (model_pairs(final(ov)@), edit_outcome(r)) == spec_create_preset(model_pairs(old(ov)@), from@, new_name@),
{
    let ghost o = model_pairs(ov@);
    let key = "overviewProfilePresets".as_bytes();
    assert(key@ == presets_key());
    let (j, mut d) = match take_dict_at(ov, key) {
        Some(x) => x,
        None => return Err(OverviewTabError::UnknownPreset { name: String::from_str(from) }),
    };
    if find_named_exec(&d, new_name).is_some() {
        put_dict_at(ov, j, d, Ghost(o), Ghost(presets_key()));
        return Err(OverviewTabError::PresetExists { name: String::from_str(new_name) });
    }
    let i = match find_named_exec(&d, from) {
        Some(i) => i,
        None => {
            put_dict_at(ov, j, d, Ghost(o), Ghost(presets_key()));
            return Err(OverviewTabError::UnknownPreset { name: String::from_str(from) });
        },
    };
    proof {
        lemma_model_pairs(d@);
    }
    let e = (Value::Bytes(slice_to_vec(new_name.as_bytes())), crate::reshare::clone_value(&d[i].1));
    proof {
        lemma_model_pairs_push(d@, e);
    }
    d.push(e);
    put_dict_at(ov, j, d, Ghost(o), Ghost(presets_key()));
    Ok(())
}

/// Duplicate preset `from`'s whole blob under the new key `new_name`;
/// copying keeps the blob's shape right by construction.
pub fn create_preset(v: &mut Value, from: &str, new_name: &str) -> (r: Result<(), OverviewTabError>)
    requires
        spec_inline(old(v)@) is Some,
    ensures
        (final(v)@, edit_outcome(r)) == presets_edited(
            spec_inline(old(v)@)->Some_0,
            |ov: Pairs| spec_create_preset(ov, from@, new_name@),
        ),
{
    let w = crate::reshare::inline(v);
    *v = w;
    let ghost w0 = v@;
    match take_overview(v) {
        None => Err(OverviewTabError::NoOverview),
        Some(mut ov) => {
            let r = create_in(&mut ov, from, new_name);
            put_overview_entries(v, ov, Ghost(w0));
            r
        },
    }
}

/// A preset blob's fields with `groups` set to the sorted list, the key
/// added when the blob lacks it.
pub open spec fn groups_set(f: Pairs, groups: Seq<i64>) -> Pairs {
    let l = ValueView::List(int_values(groups.sort_by(int_le())));
    match find_key(f, kb("groups"@)) {
        Some(g) => f.update(g, (f[g].0, l)),
        None => f.push((ValueView::Bytes(kb("groups"@)), l)),
    }
}

/// Replacing preset `name`'s group list; the two state lists are left alone.
/// An unknown preset, or one whose blob is not a dict, is refused.
pub open spec fn spec_set_preset_groups(ov: Pairs, name: Seq<char>, groups: Seq<i64>) -> (Pairs, Result<(), EditFailure>) {
    match dict_at(ov, presets_key()) {
        None => (ov, Err(EditFailure::UnknownPreset(name))),
        Some(d) => match find_named(d, name) {
            None => (ov, Err(EditFailure::UnknownPreset(name))),
            Some(i) => match dict_inner(d[i].1) {
                None => (ov, Err(EditFailure::UnknownPreset(name))),
                Some(f) => (
                    with_dict_at(ov, presets_key(), d.update(i, (d[i].0, dict_replaced(d[i].1, groups_set(f, groups))))),
                    Ok(()),
                ),
            },
        },
    }
}

fn groups_set_exec(f: &mut Vec<(Value, Value)>, groups: &[i64])
    ensures
        model_pairs(final(f)@) == groups_set(model_pairs(old(f)@), groups@),
{
    proof {
        lemma_model_pairs(f@);
    }
    let ghost before = f@;
    let sorted = sort_ints(&slice_to_vec(groups));
    let l = Value::List(int_values_exec(sorted.as_slice()));
    match find_key_exec(f, "groups".as_bytes()) {
        Some(g) => {
            let mut x = l;
            std::mem::swap(&mut f[g].1, &mut x);
            proof {
                lemma_model_pairs_update(before, g as int, f@[g as int]);
                assert(before.update(g as int, f@[g as int]) =~= f@);
            }
        },
        None => {
            let e = (Value::Bytes(slice_to_vec("groups".as_bytes())), l);
            proof {
                lemma_model_pairs_push(before, e);
            }
            f.push(e);
        },
    }
}

fn set_groups_in(ov: &mut Vec<(Value, Value)>, name: &str, groups: &[i64]) -> (r: Result<(), OverviewTabError>)
    ensures
        (model_pairs(final(ov)@), edit_outcome(r)) == spec_set_preset_groups(model_pairs(old(ov)@), name@, groups@),
{
    let ghost o = model_pairs(ov@);
    let key = "overviewProfilePresets".as_bytes();
    assert(key@ == presets_key());
    let (j, mut d) = match take_dict_at(ov, key) {
        Some(x) => x,
        None => return Err(OverviewTabError::UnknownPreset { name: String::from_str(name) }),
    };
    let i = match find_named_exec(&d, name) {
        Some(i) => i,
        None => {
            put_dict_at(ov, j, d, Ghost(o), Ghost(presets_key()));
            return Err(OverviewTabError::UnknownPreset { name: String::from_str(name) });
        },
    };
    proof {
        lemma_model_pairs(d@);
    }
    if dict_inner_exec(&d[i].1).is_none() {
        put_dict_at(ov, j, d, Ghost(o), Ghost(presets_key()));
        return Err(OverviewTabError::UnknownPreset { name: String::from_str(name) });
    }
    let ghost d0 = model_pairs(d@);
    let ghost bi = d0[i as int].1;
    let mut f = take_entry_dict(&mut d, i);
    groups_set_exec(&mut f, groups);
    put_entry_dict(&mut d, i, f, Ghost(bi));
    proof {
        lemma_dict_replaced(bi, Seq::empty(), model_pairs(f@));
        assert(model_pairs(d@) =~= d0.update(i as int, (d0[i as int].0, dict_replaced(bi, model_pairs(f@)))));
    }
    put_dict_at(ov, j, d, Ghost(o), Ghost(presets_key()));
    Ok(())
}

/// Replace preset `name`'s `groups` list with `groups` sorted ascending (the
/// client re-sorts for display), adding the key when the blob lacks it. The
/// state lists are untouched.
pub fn set_preset_groups(v: &mut Value, name: &str, groups: &[i64]) -> (r: Result<(), OverviewTabError>)
    requires
        spec_inline(old(v)@) is Some,
    ensures
        (final(v)@, edit_outcome(r)) == presets_edited(
            spec_inline(old(v)@)->Some_0,
            |ov: Pairs| spec_set_preset_groups(ov, name@, groups@),
        ),
{
    let w = crate::reshare::inline(v);
    *v = w;
    let ghost w0 = v@;
    match take_overview(v) {
        None => Err(OverviewTabError::NoOverview),
        Some(mut ov) => {
            let r = set_groups_in(&mut ov, name, groups);
            put_overview_entries(v, ov, Ghost(w0));
            r
        },
    }
}

// ---------------------------------------------------------------------------
// Pointing tabs at another preset.
// ---------------------------------------------------------------------------

pub open spec fn tabs_new_key() -> Seq<u8> {
    kb("tabsettings_new"@)
}

pub open spec fn tabs_old_key() -> Seq<u8> {
    kb("tabsettings"@)
}

pub(crate) proof fn lemma_keys_differ()
    ensures
        presets_key() != tabs_new_key(),
        presets_key() != tabs_old_key(),
        not_saved_key() != tabs_new_key(),
        not_saved_key() != tabs_old_key(),
        presets_key() != not_saved_key(),
{
    reveal_strlit("overviewProfilePresets");
    reveal_strlit("overviewProfilePresets_notSaved");
    reveal_strlit("tabsettings");
    reveal_strlit("tabsettings_new");
    vstd::utf8::encode_utf8_decode_utf8("overviewProfilePresets"@);
    vstd::utf8::encode_utf8_decode_utf8("overviewProfilePresets_notSaved"@);
    vstd::utf8::encode_utf8_decode_utf8("tabsettings"@);
    vstd::utf8::encode_utf8_decode_utf8("tabsettings_new"@);
}

/// Changing the value of an entry that is not a tab key leaves the tab dict
/// as reachable as it was.
proof fn lemma_tabs_ok_update(m: Pairs, p: int, x: ValueView)
    requires
        0 <= p < m.len(),
        !spec_is_bytes(m[p].0, tabs_new_key()),
        !spec_is_bytes(m[p].0, tabs_old_key()),
    ensures
        crate::overview_tabs::tabs_ok(m.update(p, (m[p].0, x))) == crate::overview_tabs::tabs_ok(m),
{
    let tsn = tabs_new_key();
    let ts = tabs_old_key();
    let m2 = m.update(p, (m[p].0, x));
    lemma_find_key_update_value(m, p, x, tsn);
    lemma_find_key_update_value(m, p, x, ts);
    lemma_find_key_from(m, tsn, 0);
    lemma_find_key_from(m, ts, 0);
    let a = tabs_migrated(m);
    let a2 = tabs_migrated(m2);
    assert(a2 =~= a.update(p, (a[p].0, x)));
    assert(a[p] == m[p]);
    lemma_find_key_update_value(a, p, x, tsn);
    let c = tabs_created(m);
    let c2 = tabs_created(m2);
    assert(c2 =~= c.update(p, (c[p].0, x)));
    assert(c[p] == m[p]);
    lemma_find_key_update_value(c, p, x, tsn);
    lemma_find_key_from(a, tsn, 0);
    if find_key(a, tsn) is None {
        crate::overview_tabs::lemma_find_key_push(
            a,
            tsn,
            (ValueView::Bytes(tsn), stamped(ValueView::Dict(Seq::empty()))),
            0,
        );
    }
    lemma_find_key_from(c, tsn, 0);
    let ta = tabs_at(m);
    assert(tabs_at(m2) == ta);
    assert(ta != p);
    assert(c2[ta] == c[ta]);
}

/// A tab pointed from preset `old_name` to `new_name` (stored as bytes, as real files
/// do); any other tab is left as it is.
pub open spec fn retarget_tab(tab: ValueView, old_name: Seq<char>, new_name: Seq<char>) -> ValueView {
    match dict_inner(tab) {
        Some(f) => match find_key(f, kb("overview"@)) {
            Some(k) => if text_of(f[k].1) == Some(old_name) {
                dict_replaced(tab, f.update(k, (f[k].0, ValueView::Bytes(kb(new_name)))))
            } else {
                tab
            },
            None => tab,
        },
        None => tab,
    }
}

pub open spec fn retarget_all(t: Pairs, old_name: Seq<char>, new_name: Seq<char>) -> Pairs {
    t.map_values(|e: (ValueView, ValueView)| (e.0, retarget_tab(e.1, old_name, new_name)))
}

/// `ov` with every tab that uses preset `old_name` pointed at `new_name`, after the
/// tab dict is reached as every tab edit reaches it.
pub open spec fn retargeted(ov: Pairs, old_name: Seq<char>, new_name: Seq<char>) -> Pairs {
    crate::overview_tabs::with_tabs(ov, retarget_all(crate::overview_tabs::tabs_of(ov), old_name, new_name))
}

fn retarget_tab_exec(tab: &mut Value, old_name: &str, new_name: &str)
    ensures
        final(tab)@ == retarget_tab(old(tab)@, old_name@, new_name@),
{
    let ghost t0 = tab@;
    let mut f: Vec<(Value, Value)> = Vec::new();
    assert(model_pairs(f@) =~= Seq::<(ValueView, ValueView)>::empty());
    if !crate::container::swap_dict_inner(tab, &mut f) {
        return;
    }
    proof {
        lemma_model_pairs(f@);
        lemma_dict_replaced(t0, Seq::empty(), model_pairs(f@));
    }
    let ghost f0 = model_pairs(f@);
    let ghost before = f@;
    match find_key_exec(&f, "overview".as_bytes()) {
        Some(k) => {
            if is_named(&f[k].1, old_name) {
                let mut x = Value::Bytes(slice_to_vec(new_name.as_bytes()));
                std::mem::swap(&mut f[k].1, &mut x);
                proof {
                    lemma_model_pairs_update(before, k as int, f@[k as int]);
                    assert(before.update(k as int, f@[k as int]) =~= f@);
                }
            }
        },
        None => {},
    }
    let ghost f1 = model_pairs(f@);
    crate::container::swap_dict_inner(tab, &mut f);
    proof {
        lemma_dict_replaced(t0, Seq::empty(), f1);
    }
}

fn retarget_in(ov: &mut Vec<(Value, Value)>, old_name: &str, new_name: &str)
    requires
        crate::overview_tabs::tabs_ok(model_pairs(old(ov)@)),
    ensures
        model_pairs(final(ov)@) == retargeted(model_pairs(old(ov)@), old_name@, new_name@),
{
    let ghost m0 = model_pairs(ov@);
    let j = prepare_tabs(ov);
    let ghost m1 = model_pairs(ov@);
    let ghost c = m1[j as int].1;
    proof {
        lemma_model_pairs(ov@);
        let cr = tabs_created(m0);
        assert(m1 == cr.update(j as int, (cr[j as int].0, rewrapped(cr[j as int].1))));
        lemma_rewrapped(cr[j as int].1);
    }
    let mut tabs = take_entry_dict(ov, j);
    let ghost t0 = model_pairs(tabs@);
    proof {
        lemma_model_pairs(tabs@);
    }
    let mut i: usize = 0;
    while i < tabs.len()
        invariant
            i <= tabs@.len(),
            t0.len() == tabs@.len(),
            forall|k: int| 0 <= k < i ==> #[trigger] model_pairs(tabs@)[k] == (t0[k].0, retarget_tab(t0[k].1, old_name@, new_name@)),
            forall|k: int| i <= k < tabs@.len() ==> #[trigger] model_pairs(tabs@)[k] == t0[k],
            model_pairs(tabs@).len() == tabs@.len(),
        decreases tabs@.len() - i,
    {
        let ghost before = tabs@;
        proof {
            lemma_model_pairs(tabs@);
        }
        let mut tab = Value::Nil;
        std::mem::swap(&mut tabs[i].1, &mut tab);
        assert(tab@ == before[i as int].1@);
        retarget_tab_exec(&mut tab, old_name, new_name);
        let ghost after = tab@;
        std::mem::swap(&mut tabs[i].1, &mut tab);
        assert(tabs@[i as int].1@ == after);
        assert(tabs@[i as int].0 == before[i as int].0);
        assert(model_pairs(before)[i as int] == t0[i as int]);
        proof {
            lemma_model_pairs_update(before, i as int, tabs@[i as int]);
            assert(before.update(i as int, tabs@[i as int]) =~= tabs@);
            lemma_model_pairs(tabs@);
        }
        i = i + 1;
    }
    let ghost t1 = model_pairs(tabs@);
    assert(t1 =~= retarget_all(t0, old_name@, new_name@));
    put_entry_dict(ov, j, tabs, Ghost(c));
}

// ---------------------------------------------------------------------------
// Renaming.
// ---------------------------------------------------------------------------

/// `d` with the first entry named `name` keyed by the bytes of `new_name`.
pub open spec fn rekeyed(d: Pairs, name: Seq<char>, new_name: Seq<char>) -> Pairs {
    match find_named(d, name) {
        Some(i) => d.update(i, (ValueView::Bytes(kb(new_name)), d[i].1)),
        None => d,
    }
}

fn rekey(d: &mut Vec<(Value, Value)>, name: &str, new_name: &str)
    ensures
        model_pairs(final(d)@) == rekeyed(model_pairs(old(d)@), name@, new_name@),
{
    proof {
        lemma_model_pairs(d@);
    }
    let ghost before = d@;
    match find_named_exec(d, name) {
        Some(i) => {
            let mut k = Value::Bytes(slice_to_vec(new_name.as_bytes()));
            std::mem::swap(&mut d[i].0, &mut k);
            proof {
                lemma_model_pairs_update(before, i as int, d@[i as int]);
                assert(before.update(i as int, d@[i as int]) =~= d@);
            }
        },
        None => {},
    }
}

/// Renaming preset `old_name` to `new_name`: its key, the matching unsaved working
/// copy, and every tab that uses it. An unknown preset, or a new_name name that
/// another preset has, is refused; renaming to the same name rewrites the
/// key and nothing else.
pub open spec fn spec_rename_preset(ov: Pairs, old_name: Seq<char>, new_name: Seq<char>) -> (Pairs, Result<(), EditFailure>) {
    match dict_at(ov, presets_key()) {
        None => (ov, Err(EditFailure::UnknownPreset(old_name))),
        Some(d) => if old_name != new_name && find_named(d, new_name) is Some {
            (ov, Err(EditFailure::PresetExists(new_name)))
        } else if find_named(d, old_name) is None {
            (ov, Err(EditFailure::UnknownPreset(old_name)))
        } else {
            let ov1 = with_dict_at(ov, presets_key(), rekeyed(d, old_name, new_name));
            if old_name == new_name {
                (ov1, Ok(()))
            } else {
                let ov2 = match dict_at(ov1, not_saved_key()) {
                    Some(ns) => with_dict_at(ov1, not_saved_key(), rekeyed(ns, old_name, new_name)),
                    None => ov1,
                };
                (retargeted(ov2, old_name, new_name), Ok(()))
            }
        },
    }
}

/// The tab dict is reachable whenever a rename gets as far as the tabs.
pub open spec fn rename_ready(ov: Pairs, old_name: Seq<char>, new_name: Seq<char>) -> bool {
    (dict_at(ov, presets_key()) matches Some(d) && find_named(d, old_name) is Some && old_name != new_name && find_named(d, new_name) is None)
        ==> crate::overview_tabs::tabs_ok(ov)
}

fn rename_in(ov: &mut Vec<(Value, Value)>, old_name: &str, new_name: &str) -> (r: Result<(), OverviewTabError>)
    requires
        rename_ready(model_pairs(old(ov)@), old_name@, new_name@),
    ensures
        (model_pairs(final(ov)@), edit_outcome(r)) == spec_rename_preset(model_pairs(old(ov)@), old_name@, new_name@),
{
    let ghost o = model_pairs(ov@);
    let key = "overviewProfilePresets".as_bytes();
    assert(key@ == presets_key());
    let (j, mut d) = match take_dict_at(ov, key) {
        Some(x) => x,
        None => return Err(OverviewTabError::UnknownPreset { name: String::from_str(old_name) }),
    };
    let same = crate::pack_apply::str_is(old_name, new_name);
    if !same && find_named_exec(&d, new_name).is_some() {
        put_dict_at(ov, j, d, Ghost(o), Ghost(presets_key()));
        return Err(OverviewTabError::PresetExists { name: String::from_str(new_name) });
    }
    if find_named_exec(&d, old_name).is_none() {
        put_dict_at(ov, j, d, Ghost(o), Ghost(presets_key()));
        return Err(OverviewTabError::UnknownPreset { name: String::from_str(old_name) });
    }
    rekey(&mut d, old_name, new_name);
    put_dict_at(ov, j, d, Ghost(o), Ghost(presets_key()));
    if same {
        return Ok(());
    }
    let ghost o1 = model_pairs(ov@);
    proof {
        lemma_keys_differ();
        lemma_find_key_from(o, presets_key(), 0);
        lemma_tabs_ok_update(o, j as int, o1[j as int].1);
        assert(o1 =~= o.update(j as int, (o[j as int].0, o1[j as int].1)));
    }
    let nskey = "overviewProfilePresets_notSaved".as_bytes();
    assert(nskey@ == not_saved_key());
    match take_dict_at(ov, nskey) {
        Some((k, mut ns)) => {
            rekey(&mut ns, old_name, new_name);
            put_dict_at(ov, k, ns, Ghost(o1), Ghost(not_saved_key()));
            proof {
                let o2 = model_pairs(ov@);
                lemma_find_key_from(o1, not_saved_key(), 0);
                lemma_tabs_ok_update(o1, k as int, o2[k as int].1);
                assert(o2 =~= o1.update(k as int, (o1[k as int].0, o2[k as int].1)));
            }
        },
        None => {},
    }
    retarget_in(ov, old_name, new_name);
    Ok(())
}

/// Rename a preset: its `overviewProfilePresets` key, every tab that uses
/// it, and any matching `overviewProfilePresets_notSaved` entry.
pub fn rename_preset(v: &mut Value, old_name: &str, new_name: &str) -> (r: Result<(), OverviewTabError>)
    requires
        spec_inline(old(v)@) is Some,
        overview_of(spec_inline(old(v)@)->Some_0) matches Some(ov) ==> rename_ready(ov, old_name@, new_name@),
    ensures
        (final(v)@, edit_outcome(r)) == presets_edited(
            spec_inline(old(v)@)->Some_0,
            |ov: Pairs| spec_rename_preset(ov, old_name@, new_name@),
        ),
{
    let w = crate::reshare::inline(v);
    *v = w;
    let ghost w0 = v@;
    match take_overview(v) {
        None => Err(OverviewTabError::NoOverview),
        Some(mut ov) => {
            let r = rename_in(&mut ov, old_name, new_name);
            put_overview_entries(v, ov, Ghost(w0));
            r
        },
    }
}

// ---------------------------------------------------------------------------
// The order presets are listed in.
// ---------------------------------------------------------------------------

/// The order of text: by character code, a prefix before its extensions.
pub open spec fn text_lt(a: Seq<char>, b: Seq<char>) -> bool
    decreases a.len(),
{
    if b.len() == 0 {
        false
    } else if a.len() == 0 {
        true
    } else if a[0] != b[0] {
        (a[0] as int) < (b[0] as int)
    } else {
        text_lt(a.drop_first(), b.drop_first())
    }
}

pub(crate) proof fn lemma_text_lt_irreflexive(a: Seq<char>)
    ensures
        !text_lt(a, a),
    decreases a.len(),
{
    if a.len() > 0 {
        lemma_text_lt_irreflexive(a.drop_first());
    }
}

pub(crate) proof fn lemma_text_lt_asymmetric(a: Seq<char>, b: Seq<char>)
    ensures
        text_lt(a, b) ==> !text_lt(b, a),
    decreases a.len(),
{
    if a.len() > 0 && b.len() > 0 && a[0] == b[0] {
        lemma_text_lt_asymmetric(a.drop_first(), b.drop_first());
    }
}

pub(crate) proof fn lemma_text_lt_transitive(a: Seq<char>, b: Seq<char>, c: Seq<char>)
    ensures
        text_lt(a, b) && text_lt(b, c) ==> text_lt(a, c),
    decreases a.len(),
{
    if a.len() > 0 && b.len() > 0 && c.len() > 0 {
        lemma_text_lt_transitive(a.drop_first(), b.drop_first(), c.drop_first());
    }
}

pub(crate) proof fn lemma_text_lt_total(a: Seq<char>, b: Seq<char>)
    ensures
        a != b ==> text_lt(a, b) || text_lt(b, a),
    decreases a.len(),
{
    if a.len() > 0 && b.len() > 0 {
        if a[0] == b[0] {
            lemma_text_lt_total(a.drop_first(), b.drop_first());
            if a.drop_first() == b.drop_first() {
                assert(a =~= seq![a[0]] + a.drop_first());
                assert(b =~= seq![b[0]] + b.drop_first());
            }
        } else {
            assert((a[0] as int) != (b[0] as int));
        }
    } else if a.len() == 0 && b.len() == 0 {
        assert(a =~= b);
    }
}

/// Whether `a` comes before `b` in text order.
pub(crate) fn text_lt_exec(a: &Vec<char>, b: &Vec<char>) -> (r: bool)
    ensures
        r == text_lt(a@, b@),
{
    let mut i: usize = 0;
    assert(a@.skip(0) =~= a@);
    assert(b@.skip(0) =~= b@);
    while i < a.len() && i < b.len()
        invariant
            i <= a@.len(),
            i <= b@.len(),
            text_lt(a@, b@) == text_lt(a@.skip(i as int), b@.skip(i as int)),
        decreases a@.len() - i,
    {
        let ghost sa = a@.skip(i as int);
        let ghost sb = b@.skip(i as int);
        assert(sa[0] == a@[i as int]);
        assert(sb[0] == b@[i as int]);
        if a[i] != b[i] {
            return a[i] < b[i];
        }
        assert(sa.drop_first() =~= a@.skip(i + 1));
        assert(sb.drop_first() =~= b@.skip(i + 1));
        i = i + 1;
    }
    assert(i == b@.len() ==> b@.skip(i as int).len() == 0);
    assert(i == a@.len() ==> a@.skip(i as int).len() == 0);
    i < b.len()
}

/// Entry `j` has a text key.
pub open spec fn text_keyed(d: Pairs, j: int) -> bool {
    0 <= j < d.len() && text_of(d[j].0) is Some
}

/// What entries are ordered by: their name, case folded.
pub open spec fn order_key(d: Pairs, j: int) -> Seq<char> {
    lowercase(text_of(d[j].0)->Some_0)
}

/// Entry `j` is listed before entry `k`: by case-folded name, the earlier
/// entry first among equal names (the order a stable sort by the folded
/// name gives).
pub open spec fn precedes(d: Pairs, j: int, k: int) -> bool {
    text_lt(order_key(d, j), order_key(d, k)) || (order_key(d, j) == order_key(d, k) && j < k)
}

proof fn lemma_precedes_order(d: Pairs, a: int, b: int, c: int)
    ensures
        !precedes(d, a, a),
        precedes(d, a, b) ==> !precedes(d, b, a),
        precedes(d, a, b) && precedes(d, b, c) ==> precedes(d, a, c),
        a != b ==> precedes(d, a, b) || precedes(d, b, a),
{
    lemma_text_lt_irreflexive(order_key(d, a));
    lemma_text_lt_asymmetric(order_key(d, a), order_key(d, b));
    lemma_text_lt_transitive(order_key(d, a), order_key(d, b), order_key(d, c));
    lemma_text_lt_total(order_key(d, a), order_key(d, b));
    lemma_text_lt_irreflexive(order_key(d, b));
    if precedes(d, a, b) && precedes(d, b, c) {
        if order_key(d, a) == order_key(d, b) {
            lemma_text_lt_irreflexive(order_key(d, a));
        }
    }
}

/// `j` is the text-keyed entry listed just before entry `i`.
pub open spec fn just_before(d: Pairs, i: int, j: int) -> bool {
    &&& text_keyed(d, j)
    &&& precedes(d, j, i)
    &&& forall|k: int| text_keyed(d, k) && precedes(d, k, i) ==> k == j || precedes(d, k, j)
}

/// `j` is the text-keyed entry listed just after entry `i`.
pub open spec fn just_after(d: Pairs, i: int, j: int) -> bool {
    &&& text_keyed(d, j)
    &&& precedes(d, i, j)
    &&& forall|k: int| text_keyed(d, k) && precedes(d, i, k) ==> k == j || precedes(d, j, k)
}

/// The preset that takes over the tabs of deleted entry `i`: the one listed
/// just before it, or just after it when it is listed first.
pub open spec fn successor_name(d: Pairs, i: int) -> Seq<char> {
    if exists|j: int| just_before(d, i, j) {
        text_of(d[choose|j: int| just_before(d, i, j)].0)->Some_0
    } else {
        text_of(d[choose|j: int| just_after(d, i, j)].0)->Some_0
    }
}

proof fn lemma_just_before_unique(d: Pairs, i: int, j1: int, j2: int)
    requires
        just_before(d, i, j1),
        just_before(d, i, j2),
    ensures
        j1 == j2,
{
    lemma_precedes_order(d, j1, j2, i);
}

proof fn lemma_just_after_unique(d: Pairs, i: int, j1: int, j2: int)
    requires
        just_after(d, i, j1),
        just_after(d, i, j2),
    ensures
        j1 == j2,
{
    lemma_precedes_order(d, j1, j2, i);
}

/// The case-folded name of entry `j`, as characters, with its name.
fn order_key_exec(d: &Vec<(Value, Value)>, j: usize) -> (r: Option<(String, Vec<char>)>)
    requires
        j < d@.len(),
    ensures
        match r {
            Some((t, k)) => text_keyed(model_pairs(d@), j as int) && text_of(model_pairs(d@)[j as int].0) == Some(t@)
                && k@ == order_key(model_pairs(d@), j as int),
            None => !text_keyed(model_pairs(d@), j as int),
        },
{
    proof {
        lemma_model_pairs(d@);
    }
    match text_of_exec(&d[j].0) {
        Some(t) => {
            let low = lowercase_text(t.as_str());
            let k = crate::parse::chars_of(low.as_str());
            Some((t, k))
        },
        None => None,
    }
}

/// Whether entry `a` is listed before entry `b`, given their folded names.
fn precedes_exec(ka: &Vec<char>, a: usize, kb_: &Vec<char>, b: usize) -> (r: bool)
    ensures
        r == (text_lt(ka@, kb_@) || (ka@ == kb_@ && a < b)),
{
    if text_lt_exec(ka, kb_) {
        return true;
    }
    if text_lt_exec(kb_, ka) {
        return false;
    }
    proof {
        lemma_text_lt_total(ka@, kb_@);
    }
    a < b
}

/// The name of the preset that takes over deleted entry `i`'s tabs, as
/// [`successor_name`] states it.
fn successor_exec(d: &Vec<(Value, Value)>, i: usize) -> (r: String)
    requires
        text_keyed(model_pairs(d@), i as int),
        exists|j: int| text_keyed(model_pairs(d@), j) && j != i,
    ensures
        r@ == successor_name(model_pairs(d@), i as int),
{
    let ghost m = model_pairs(d@);
    proof {
        lemma_model_pairs(d@);
    }
    let (_, ki) = match order_key_exec(d, i) {
        Some(x) => x,
        None => return String::new(),
    };
    let mut before: Option<(usize, String, Vec<char>)> = None;
    let mut after: Option<(usize, String, Vec<char>)> = None;
    let mut j: usize = 0;
    while j < d.len()
        invariant
            j <= d@.len(),
            m == model_pairs(d@),
            m.len() == d@.len(),
            text_keyed(m, i as int),
            ki@ == order_key(m, i as int),
            match before {
                Some((b, t, kb_)) => b < j && text_keyed(m, b as int) && precedes(m, b as int, i as int)
                    && text_of(m[b as int].0) == Some(t@) && kb_@ == order_key(m, b as int)
                    && forall|k: int| 0 <= k < j && text_keyed(m, k) && precedes(m, k, i as int) ==> k == b || precedes(m, k, b as int),
                None => forall|k: int| 0 <= k < j && text_keyed(m, k) ==> !precedes(m, k, i as int),
            },
            match after {
                Some((a, t, ka)) => a < j && text_keyed(m, a as int) && precedes(m, i as int, a as int)
                    && text_of(m[a as int].0) == Some(t@) && ka@ == order_key(m, a as int)
                    && forall|k: int| 0 <= k < j && text_keyed(m, k) && precedes(m, i as int, k) ==> k == a || precedes(m, a as int, k),
                None => forall|k: int| 0 <= k < j && text_keyed(m, k) ==> !precedes(m, i as int, k),
            },
        decreases d@.len() - j,
    {
        match order_key_exec(d, j) {
            Some((tj, kj)) => {
                if precedes_exec(&kj, j, &ki, i) {
                    let better = match &before {
                        Some((b, _, kb_)) => precedes_exec(kb_, *b, &kj, j),
                        None => true,
                    };
                    proof {
                        lemma_precedes_order(m, j as int, i as int, j as int);
                        if let Some((b, _, _)) = before {
                            lemma_precedes_order(m, b as int, j as int, i as int);
                            assert forall|k: int| 0 <= k < j + 1 && text_keyed(m, k) && precedes(m, k, i as int) implies (if better {
                                k == j || precedes(m, k, j as int)
                            } else {
                                k == b || precedes(m, k, b as int)
                            }) by {
                                lemma_precedes_order(m, k, b as int, j as int);
                                lemma_precedes_order(m, k, j as int, b as int);
                                lemma_precedes_order(m, j as int, b as int, k);
                            }
                        }
                    }
                    if better {
                        before = Some((j, tj, kj));
                    }
                } else if precedes_exec(&ki, i, &kj, j) {
                    let better = match &after {
                        Some((a, _, ka)) => precedes_exec(&kj, j, ka, *a),
                        None => true,
                    };
                    proof {
                        if let Some((a, _, _)) = after {
                            lemma_precedes_order(m, a as int, j as int, i as int);
                            assert forall|k: int| 0 <= k < j + 1 && text_keyed(m, k) && precedes(m, i as int, k) implies (if better {
                                k == j || precedes(m, j as int, k)
                            } else {
                                k == a || precedes(m, a as int, k)
                            }) by {
                                lemma_precedes_order(m, a as int, k, j as int);
                                lemma_precedes_order(m, j as int, k, a as int);
                                lemma_precedes_order(m, j as int, a as int, k);
                            }
                        }
                    }
                    if better {
                        after = Some((j, tj, kj));
                    }
                } else {
                    proof {
                        lemma_precedes_order(m, i as int, j as int, i as int);
                    }
                }
            },
            None => {},
        }
        j = j + 1;
    }
    match before {
        Some((b, t, _)) => {
            proof {
                assert(just_before(m, i as int, b as int));
                let c = choose|x: int| just_before(m, i as int, x);
                lemma_just_before_unique(m, i as int, b as int, c);
            }
            t
        },
        None => {
            proof {
                assert(!exists|x: int| just_before(m, i as int, x));
                let w = choose|x: int| text_keyed(m, x) && x != i;
                lemma_precedes_order(m, w, i as int, w);
            }
            match after {
                Some((a, t, _)) => {
                    proof {
                        assert(just_after(m, i as int, a as int));
                        let c = choose|x: int| just_after(m, i as int, x);
                        lemma_just_after_unique(m, i as int, a as int, c);
                    }
                    t
                },
                None => String::new(),
            }
        },
    }
}

// ---------------------------------------------------------------------------
// Deleting.
// ---------------------------------------------------------------------------

/// Deleting preset `name`: every tab that uses it moves to the preset listed
/// just before it (just after, when it is listed first), and its entries in
/// the preset dict and the unsaved working copies go. An unknown preset is
/// refused, and so is the last one: a tab must always have a preset.
pub open spec fn spec_delete_preset(ov: Pairs, name: Seq<char>) -> (Pairs, Result<(), EditFailure>) {
    match dict_at(ov, presets_key()) {
        None => (ov, Err(EditFailure::UnknownPreset(name))),
        Some(d) => match find_named(d, name) {
            None => (ov, Err(EditFailure::UnknownPreset(name))),
            Some(i) => if d.len() <= 1 {
                (ov, Err(EditFailure::LastPreset))
            } else {
                let ov1 = retargeted(ov, name, successor_name(d, i));
                let ov2 = match dict_at(ov1, not_saved_key()) {
                    Some(ns) => with_dict_at(ov1, not_saved_key(), ns.filter(not_named(name))),
                    None => ov1,
                };
                let ov3 = match dict_at(ov2, presets_key()) {
                    Some(p) => with_dict_at(ov2, presets_key(), p.filter(not_named(name))),
                    None => ov2,
                };
                (ov3, Ok(()))
            },
        },
    }
}

proof fn lemma_with_dict_at(ov: Pairs, key: Seq<u8>, d: Pairs)
    requires
        dict_at(ov, key) is Some,
    ensures
        dict_at(with_dict_at(ov, key, d), key) == Some(d),
{
    let j = find_key(ov, key)->Some_0;
    lemma_find_key_from(ov, key, 0);
    crate::container::lemma_dict_replaced(ov[j].1, d, d);
    crate::overview_tabs::lemma_find_key_update_value(ov, j, dict_replaced(ov[j].1, d), key);
}

/// A deleted preset is gone: once a deletion succeeds, the preset dict holds
/// no entry of that name.
pub proof fn lemma_deleted_preset_is_gone(ov: Pairs, name: Seq<char>)
    requires
        spec_delete_preset(ov, name).1 is Ok,
    ensures
        dict_at(spec_delete_preset(ov, name).0, presets_key()) matches Some(p) ==> forall|k: int|
            0 <= k < p.len() ==> text_of(#[trigger] p[k].0) != Some(name),
{
    let d = dict_at(ov, presets_key())->Some_0;
    let i = find_named(d, name)->Some_0;
    let ov1 = retargeted(ov, name, successor_name(d, i));
    let ov2 = match dict_at(ov1, not_saved_key()) {
        Some(ns) => with_dict_at(ov1, not_saved_key(), ns.filter(not_named(name))),
        None => ov1,
    };
    if let Some(p) = dict_at(ov2, presets_key()) {
        let kept = p.filter(not_named(name));
        lemma_with_dict_at(ov2, presets_key(), kept);
        assert forall|k: int| 0 <= k < kept.len() implies text_of(#[trigger] kept[k].0) != Some(name) by {
            p.lemma_filter_pred(not_named(name), k);
        }
    }
}

/// Deleting a preset is refused, the overview unchanged, when no preset
/// has that name (`UnknownPreset`) and when it is the only preset
/// (`LastPreset`); a successful deletion also drops the unsaved working copy
/// of that name.
pub proof fn lemma_delete_preset_refusals(ov: Pairs, name: Seq<char>)
    ensures
        (dict_at(ov, presets_key()) matches Some(d) && find_named(d, name) is Some) || spec_delete_preset(ov, name)
            == (ov, Err::<(), EditFailure>(EditFailure::UnknownPreset(name))),
        dict_at(ov, presets_key()) matches Some(d) && find_named(d, name) is Some && d.len() <= 1 ==> spec_delete_preset(
            ov,
            name,
        ) == (ov, Err::<(), EditFailure>(EditFailure::LastPreset)),
        spec_delete_preset(ov, name).1 is Ok ==> (dict_at(spec_delete_preset(ov, name).0, not_saved_key()) matches Some(
            ns,
        ) ==> forall|k: int| 0 <= k < ns.len() ==> text_of(#[trigger] ns[k].0) != Some(name)),
{
    if spec_delete_preset(ov, name).1 is Ok {
        let d = dict_at(ov, presets_key())->Some_0;
        let i = find_named(d, name)->Some_0;
        let ov1 = retargeted(ov, name, successor_name(d, i));
        lemma_keys_differ();
        let ov2 = match dict_at(ov1, not_saved_key()) {
            Some(ns) => {
                let kept = ns.filter(not_named(name));
                lemma_with_dict_at(ov1, not_saved_key(), kept);
                assert forall|k: int| 0 <= k < kept.len() implies text_of(#[trigger] kept[k].0) != Some(name) by {
                    ns.lemma_filter_pred(not_named(name), k);
                }
                with_dict_at(ov1, not_saved_key(), kept)
            },
            None => ov1,
        };
        if let Some(p) = dict_at(ov2, presets_key()) {
            let j = find_key(ov2, presets_key())->Some_0;
            lemma_find_key_from(ov2, presets_key(), 0);
            let x = dict_replaced(ov2[j].1, p.filter(not_named(name)));
            crate::overview_tabs::lemma_find_key_update_value(ov2, j, x, not_saved_key());
            lemma_find_key_from(ov2, not_saved_key(), 0);
            if let Some(q) = find_key(ov2, not_saved_key()) {
                assert(q != j);
            }
        }
    }
}

/// A deletion that gets as far as the tabs finds them reachable and another
/// text-named preset to move them to.
pub open spec fn delete_ready(ov: Pairs, name: Seq<char>) -> bool {
    match dict_at(ov, presets_key()) {
        Some(d) => match find_named(d, name) {
            Some(i) => d.len() > 1 ==> crate::overview_tabs::tabs_ok(ov) && exists|j: int| text_keyed(d, j) && j != i,
            None => true,
        },
        None => true,
    }
}

fn delete_in(ov: &mut Vec<(Value, Value)>, name: &str) -> (r: Result<(), OverviewTabError>)
    requires
        delete_ready(model_pairs(old(ov)@), name@),
    ensures
        (model_pairs(final(ov)@), edit_outcome(r)) == spec_delete_preset(model_pairs(old(ov)@), name@),
{
    let ghost o = model_pairs(ov@);
    let key = "overviewProfilePresets".as_bytes();
    assert(key@ == presets_key());
    let (j, d) = match take_dict_at(ov, key) {
        Some(x) => x,
        None => return Err(OverviewTabError::UnknownPreset { name: String::from_str(name) }),
    };
    let i = match find_named_exec(&d, name) {
        Some(i) => i,
        None => {
            put_dict_at(ov, j, d, Ghost(o), Ghost(presets_key()));
            return Err(OverviewTabError::UnknownPreset { name: String::from_str(name) });
        },
    };
    proof {
        lemma_model_pairs(d@);
        lemma_find_named_from(model_pairs(d@), name@, 0);
    }
    if d.len() <= 1 {
        put_dict_at(ov, j, d, Ghost(o), Ghost(presets_key()));
        return Err(OverviewTabError::LastPreset);
    }
    let target = successor_exec(&d, i);
    put_dict_at(ov, j, d, Ghost(o), Ghost(presets_key()));
    retarget_in(ov, name, target.as_str());
    let ghost o1 = model_pairs(ov@);
    let nskey = "overviewProfilePresets_notSaved".as_bytes();
    assert(nskey@ == not_saved_key());
    match take_dict_at(ov, nskey) {
        Some((k, ns)) => {
            let kept = without_named(&ns, name);
            put_dict_at(ov, k, kept, Ghost(o1), Ghost(not_saved_key()));
        },
        None => {},
    }
    let ghost o2 = model_pairs(ov@);
    match take_dict_at(ov, key) {
        Some((k, p)) => {
            let kept = without_named(&p, name);
            put_dict_at(ov, k, kept, Ghost(o2), Ghost(presets_key()));
        },
        None => {},
    }
    Ok(())
}

/// Delete a preset, moving every tab that used it to the preset listed just
/// before it in case-insensitive order (just after, when it is listed
/// first). The last preset is refused. Any matching unsaved working copy is
/// dropped too.
pub fn delete_preset(v: &mut Value, name: &str) -> (r: Result<(), OverviewTabError>)
    requires
        spec_inline(old(v)@) is Some,
        overview_of(spec_inline(old(v)@)->Some_0) matches Some(ov) ==> delete_ready(ov, name@),
    ensures
        (final(v)@, edit_outcome(r)) == presets_edited(
            spec_inline(old(v)@)->Some_0,
            |ov: Pairs| spec_delete_preset(ov, name@),
        ),
{
    let w = crate::reshare::inline(v);
    *v = w;
    let ghost w0 = v@;
    match take_overview(v) {
        None => Err(OverviewTabError::NoOverview),
        Some(mut ov) => {
            let r = delete_in(&mut ov, name);
            put_overview_entries(v, ov, Ghost(w0));
            r
        },
    }
}

// ---------------------------------------------------------------------------
// Forking a built-in preset for a tab.
// ---------------------------------------------------------------------------

/// Reaching the tab dict leaves it reachable, under `tabsettings_new`.
proof fn lemma_tabs_ok_ready(ov: Pairs)
    requires
        crate::overview_tabs::tabs_ok(ov),
    ensures
        crate::overview_tabs::tabs_ok(crate::overview_tabs::tabs_ready(ov)),
        find_key(crate::overview_tabs::tabs_ready(ov), tabs_new_key()) is Some,
        dict_inner(crate::overview_tabs::tabs_ready(ov)[tabs_at(ov)].1) == Some(crate::overview_tabs::tabs_of(ov)),
{
    let tsn = tabs_new_key();
    let a = tabs_migrated(ov);
    let c = tabs_created(ov);
    lemma_find_key_from(a, tsn, 0);
    if find_key(a, tsn) is None {
        crate::overview_tabs::lemma_find_key_push(a, tsn, (ValueView::Bytes(tsn), stamped(ValueView::Dict(Seq::empty()))), 0);
    }
    lemma_find_key_from(c, tsn, 0);
    let ta = tabs_at(ov);
    let r = crate::overview_tabs::tabs_ready(ov);
    lemma_find_key_update_value(c, ta, rewrapped(c[ta].1), tsn);
    lemma_rewrapped(c[ta].1);
    assert(tabs_migrated(r) == r);
    assert(tabs_created(r) == r);
    assert(tabs_at(r) == ta);
}

/// Reaching the tab dict leaves every entry under any other key where and as
/// it was.
pub(crate) proof fn lemma_tabs_ready_keeps(ov: Pairs, key: Seq<u8>)
    requires
        key != tabs_new_key(),
        key != tabs_old_key(),
    ensures
        find_key(crate::overview_tabs::tabs_ready(ov), key) == find_key(ov, key),
        find_key(ov, key) matches Some(p) ==> crate::overview_tabs::tabs_ready(ov)[p] == ov[p],
        0 <= tabs_at(ov) < crate::overview_tabs::tabs_ready(ov).len(),
        spec_is_bytes(crate::overview_tabs::tabs_ready(ov)[tabs_at(ov)].0, tabs_new_key()),
{
    let tsn = tabs_new_key();
    let ts = tabs_old_key();
    let a = tabs_migrated(ov);
    let c = tabs_created(ov);
    let r = crate::overview_tabs::tabs_ready(ov);
    lemma_find_key_from(ov, tsn, 0);
    lemma_find_key_from(ov, ts, 0);
    lemma_find_key_from(a, tsn, 0);
    if find_key(a, tsn) is None {
        crate::overview_tabs::lemma_find_key_push(a, tsn, (ValueView::Bytes(tsn), stamped(ValueView::Dict(Seq::empty()))), 0);
    }
    lemma_find_key_from(c, tsn, 0);
    let ta = tabs_at(ov);
    assert forall|k: int| 0 <= k < ov.len() implies spec_is_bytes(#[trigger] ov[k].0, key) == spec_is_bytes(r[k].0, key) by {
        assert(r[k].0 == c[k].0);
        assert(c[k] == a[k]);
        if a[k].0 != ov[k].0 {
            assert(a[k].0 == ValueView::Bytes(tsn));
        }
    }
    assert forall|k: int| ov.len() <= k < r.len() implies !spec_is_bytes(#[trigger] r[k].0, key) by {
        assert(r[k].0 == c[k].0);
        assert(c[k].0 == ValueView::Bytes(tsn));
    }
    crate::overview_tabs::lemma_find_key_same_matches(ov, r, key, 0);
    lemma_find_key_from(ov, key, 0);
    if let Some(p) = find_key(ov, key) {
        assert(a[p] == ov[p]) by {
            if a[p] != ov[p] {
                assert(spec_is_bytes(ov[p].0, ts));
            }
        }
        assert(p != ta) by {
            assert(spec_is_bytes(c[ta].0, tsn));
        }
        assert(r[p] == ov[p]);
    }
    assert(r[ta].0 == c[ta].0);
}

/// Reaching the tab dict leaves the preset entry where and as it was.
proof fn lemma_presets_ok_ready(ov: Pairs)
    requires
        presets_ok(ov),
    ensures
        presets_ok(crate::overview_tabs::tabs_ready(ov)),
{
    lemma_keys_differ();
    lemma_tabs_ready_keeps(ov, presets_key());
}

/// Appending an entry that is not a tab key to a dict whose tab dict sits
/// under `tabsettings_new` leaves it as reachable as it was.
proof fn lemma_tabs_ok_push(m: Pairs, e: (ValueView, ValueView))
    requires
        find_key(m, tabs_new_key()) is Some,
        !spec_is_bytes(e.0, tabs_new_key()),
    ensures
        crate::overview_tabs::tabs_ok(m.push(e)) == crate::overview_tabs::tabs_ok(m),
        find_key(m.push(e), tabs_new_key()) == find_key(m, tabs_new_key()),
{
    let tsn = tabs_new_key();
    let m2 = m.push(e);
    assert forall|k: int| 0 <= k < m.len() implies spec_is_bytes(#[trigger] m[k].0, tsn) == spec_is_bytes(m2[k].0, tsn) by {
        assert(m2[k] == m[k]);
    }
    crate::overview_tabs::lemma_find_key_same_matches(m, m2, tsn, 0);
    lemma_find_key_from(m, tsn, 0);
    let ta = tabs_at(m);
    assert(tabs_created(m) == m);
    assert(tabs_created(m2) == m2);
    assert(m2[ta] == m[ta]);
}

/// Creating a preset leaves a ready tab dict reachable.
proof fn lemma_tabs_ok_create(r: Pairs, name: Seq<char>, groups: Seq<i64>, filtered: Seq<i64>, shown: Seq<i64>)
    requires
        crate::overview_tabs::tabs_ok(r),
        find_key(r, tabs_new_key()) is Some,
        presets_ok(r),
    ensures
        crate::overview_tabs::tabs_ok(spec_create_from_lists(r, name, groups, filtered, shown).0),
{
    let pk = presets_key();
    lemma_keys_differ();
    let c = presets_created(r);
    if find_key(r, pk) is None {
        lemma_tabs_ok_push(r, (ValueView::Bytes(pk), stamped(ValueView::Dict(Seq::empty()))));
        crate::overview_tabs::lemma_find_key_push(r, pk, (ValueView::Bytes(pk), stamped(ValueView::Dict(Seq::empty()))), 0);
    }
    lemma_find_key_from(c, pk, 0);
    let p = find_key(c, pk)->Some_0;
    let d = dict_at(c, pk)->Some_0;
    if find_named(d, name) is None {
        let x = dict_replaced(c[p].1, d.push((ValueView::Bytes(kb(name)), preset_blob(groups, filtered, shown))));
        lemma_tabs_ok_update(c, p, x);
    }
}

/// Forking a built-in preset for tab `idx`: the tab dict is reached first,
/// and an unknown tab is refused before anything is created; then the
/// preset is created from the lists and the tab pointed at it.
pub open spec fn spec_fork_preset(
    ov: Pairs,
    idx: i64,
    name: Seq<char>,
    groups: Seq<i64>,
    filtered: Seq<i64>,
    shown: Seq<i64>,
) -> (Pairs, Result<(), EditFailure>) {
    let r = crate::overview_tabs::tabs_ready(ov);
    if crate::overview_tabs::find_int(crate::overview_tabs::tabs_of(ov), idx) is None {
        (r, Err(EditFailure::UnknownTab(idx)))
    } else {
        let c = spec_create_from_lists(r, name, groups, filtered, shown);
        if c.1 is Err {
            c
        } else {
            let t = crate::overview_tabs::spec_set_tab_preset(c.0, idx, name);
            (t.0, edit_outcome(t.1))
        }
    }
}

/// A fork finds the tab dict reachable, and, once the tab is found, the
/// preset entry too.
pub open spec fn fork_ready(ov: Pairs, idx: i64) -> bool {
    &&& crate::overview_tabs::tabs_ok(ov)
    &&& crate::overview_tabs::find_int(crate::overview_tabs::tabs_of(ov), idx) is Some ==> presets_ok(ov)
}

fn fork_in(
    ov: &mut Vec<(Value, Value)>,
    idx: i64,
    name: &str,
    groups: &[i64],
    filtered: &[i64],
    shown: &[i64],
) -> (r: Result<(), OverviewTabError>)
    requires
        fork_ready(model_pairs(old(ov)@), idx),
    ensures
        (model_pairs(final(ov)@), edit_outcome(r)) == spec_fork_preset(
            model_pairs(old(ov)@),
            idx,
            name@,
            groups@,
            filtered@,
            shown@,
        ),
{
    let ghost o = model_pairs(ov@);
    let j = prepare_tabs(ov);
    proof {
        lemma_model_pairs(ov@);
        lemma_tabs_ok_ready(o);
    }
    let found = match dict_inner_exec(&ov[j].1) {
        Some(t) => crate::overview_tabs::find_int_exec(t, idx).is_some(),
        None => false,
    };
    if !found {
        return Err(OverviewTabError::UnknownTab { index: idx });
    }
    proof {
        lemma_presets_ok_ready(o);
    }
    let r1 = create_from_lists_in(ov, name, groups, filtered, shown);
    if r1.is_err() {
        return r1;
    }
    proof {
        lemma_tabs_ok_create(crate::overview_tabs::tabs_ready(o), name@, groups@, filtered@, shown@);
    }
    let e = crate::overview_tabs::FieldEdit::Preset(name);
    assert(crate::overview_tabs::field_edit(e) =~= (|f: Pairs| crate::overview_tabs::spec_point_at(f, name@)));
    crate::overview_tabs::edit_fields_in(ov, idx, e)
}

/// Fork a built-in default into the new preset `name`, made from the given
/// lists, and point tab `tab_idx` at it. The tab is checked before anything
/// is created, so a bad index cannot strand a half-made preset; a taken
/// name is refused.
pub fn fork_preset(
    v: &mut Value,
    tab_idx: i64,
    name: &str,
    groups: &[i64],
    filtered_states: &[i64],
    always_shown_states: &[i64],
) -> (r: Result<(), OverviewTabError>)
    requires
        spec_inline(old(v)@) is Some,
        overview_of(spec_inline(old(v)@)->Some_0) matches Some(ov) ==> fork_ready(ov, tab_idx),
    ensures
        (final(v)@, edit_outcome(r)) == presets_edited(
            spec_inline(old(v)@)->Some_0,
            |ov: Pairs| spec_fork_preset(ov, tab_idx, name@, groups@, filtered_states@, always_shown_states@),
        ),
{
    let w = crate::reshare::inline(v);
    *v = w;
    let ghost w0 = v@;
    match take_overview(v) {
        None => Err(OverviewTabError::NoOverview),
        Some(mut ov) => {
            let r = fork_in(&mut ov, tab_idx, name, groups, filtered_states, always_shown_states);
            put_overview_entries(v, ov, Ghost(w0));
            r
        },
    }
}

} // verus!
