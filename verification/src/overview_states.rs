//! The account-scoped overview *state* settings: which pilot states tint an
//! overview row (`backgroundStates2`) or carry a colortag (`flagStates2`),
//! the priority order of each (`backgroundOrder2` / `flagOrder2`), the sparse
//! per-state colour overrides (`stateColors`), and the container's boolean
//! settings. All live directly in the user file's `overview` container.
//!
//! The enabled lists and the order lists are independent: an order list
//! enumerates every state the client knows, ticked or not, and may hold an
//! id the client never renders, so writes keep ids they do not know.

use vstd::prelude::*;
use vstd::slice::slice_to_vec;
use vstd::string::StringExecFns;

use crate::batch::{dict_inner, find_key, find_key_exec, is_bytes, lemma_find_key_from};
use crate::container::{
    dict_replaced, int_le, lemma_dict_replaced, lemma_model_pairs_push, lemma_model_seq_push, sort_ints,
    stamped, stamped_exec, swap_entry_dict, Pairs,
};
use crate::overview_tabs::{
    kb, overview_edited, put_overview_entries, take_overview, text_is, OverviewTabError,
};
use crate::path::{lemma_model_pairs_update, lemma_model_seq_update};
use crate::reshare::spec_inline;
use crate::value::{lemma_model_pairs, lemma_model_seq, model, model_pairs, model_seq, Value, ValueView};

verus! {

broadcast use vstd::std_specs::vec::group_vec_axioms;

// ---------------------------------------------------------------------------
// Container payloads.
// ---------------------------------------------------------------------------

/// The first item at or after `i` that `is_slot` picks.
pub open spec fn first_slot_from(items: Seq<ValueView>, is_slot: spec_fn(ValueView) -> bool, i: int) -> Option<int>
    decreases items.len() - i,
{
    if i < 0 || i >= items.len() {
        None
    } else if is_slot(items[i]) {
        Some(i)
    } else {
        first_slot_from(items, is_slot, i + 1)
    }
}

pub proof fn lemma_first_slot_from(items: Seq<ValueView>, is_slot: spec_fn(ValueView) -> bool, i: int)
    requires
        0 <= i,
    ensures
        first_slot_from(items, is_slot, i) matches Some(j) ==> i <= j < items.len() && is_slot(items[j]),
    decreases items.len() - i,
{
    if i < items.len() {
        lemma_first_slot_from(items, is_slot, i + 1);
    }
}

/// The payload slot of a container: a list, a bool, or anything but the
/// timestamp.
pub enum Slot {
    List,
    Bool,
    NotStamp,
}

pub open spec fn slot_pred(s: Slot) -> spec_fn(ValueView) -> bool {
    match s {
        Slot::List => |x: ValueView| x is List,
        Slot::Bool => |x: ValueView| x is Bool,
        Slot::NotStamp => |x: ValueView| !(x is Long),
    }
}

fn is_slot_exec(x: &Value, s: &Slot) -> (r: bool)
    ensures
        r == (slot_pred(*s))(x@),
{
    match s {
        Slot::List => matches!(x, Value::List(_)),
        Slot::Bool => matches!(x, Value::Bool(_)),
        Slot::NotStamp => !matches!(x, Value::Long(_)),
    }
}

/// `ov` with the payload under `key` set to `x`: an existing
/// `(timestamp, payload)` wrapper keeps its timestamp (its first payload slot
/// replaced, or `x` appended when it has none); a bare value is replaced by
/// `x` itself, or by `x` wrapped when `wrap_bare`; an absent key is minted
/// wrapped, with a zero timestamp.
pub open spec fn payload_set(ov: Pairs, key: Seq<u8>, x: ValueView, s: Slot, wrap_bare: bool) -> Pairs {
    match find_key(ov, key) {
        Some(j) => ov.update(
            j,
            (
                ov[j].0,
                match ov[j].1 {
                    ValueView::Tuple(items) => match first_slot_from(items, slot_pred(s), 0) {
                        Some(t) => ValueView::Tuple(items.update(t, x)),
                        None => ValueView::Tuple(items.push(x)),
                    },
                    _ => if wrap_bare {
                        stamped(x)
                    } else {
                        x
                    },
                },
            ),
        ),
        None => ov.push((ValueView::Bytes(key), stamped(x))),
    }
}

fn first_slot_exec(items: &Vec<Value>, s: &Slot) -> (r: Option<usize>)
    ensures
        match r {
            Some(t) => first_slot_from(model_seq(items@), slot_pred(*s), 0) == Some(t as int) && t < items@.len(),
            None => first_slot_from(model_seq(items@), slot_pred(*s), 0) is None,
        },
{
    let ghost m = model_seq(items@);
    proof {
        lemma_model_seq(items@);
    }
    let mut i: usize = 0;
    while i < items.len()
        invariant
            i <= items.len(),
            m == model_seq(items@),
            m.len() == items@.len(),
            forall|j: int| 0 <= j < items@.len() ==> #[trigger] m[j] == model(items@[j]),
            first_slot_from(m, slot_pred(*s), 0) == first_slot_from(m, slot_pred(*s), i as int),
        decreases items.len() - i,
    {
        if is_slot_exec(&items[i], s) {
            return Some(i);
        }
        i = i + 1;
    }
    None
}

fn set_payload(slot: &mut Value, x: Value, s: &Slot, wrap_bare: bool)
    ensures
        final(slot)@ == match old(slot)@ {
            ValueView::Tuple(items) => match first_slot_from(items, slot_pred(*s), 0) {
                Some(t) => ValueView::Tuple(items.update(t, x@)),
                None => ValueView::Tuple(items.push(x@)),
            },
            _ => if wrap_bare {
                stamped(x@)
            } else {
                x@
            },
        },
{
    match slot {
        Value::Tuple(items) => {
            proof {
                lemma_model_seq(items@);
            }
            let ghost before = items@;
            match first_slot_exec(items, s) {
                Some(t) => {
                    let mut x = x;
                    std::mem::swap(&mut items[t], &mut x);
                    proof {
                        lemma_model_seq_update(before, t as int, items@[t as int]);
                        assert(before.update(t as int, items@[t as int]) =~= items@);
                    }
                },
                None => {
                    proof {
                        lemma_model_seq_push(before, x);
                    }
                    items.push(x);
                },
            }
        },
        _ => {
            if wrap_bare {
                *slot = stamped_exec(x);
            } else {
                *slot = x;
            }
        },
    }
}

/// Set the payload under `key`, as [`payload_set`] states it.
pub fn put_payload(ov: &mut Vec<(Value, Value)>, key: &[u8], x: Value, s: &Slot, wrap_bare: bool)
    ensures
        model_pairs(final(ov)@) == payload_set(model_pairs(old(ov)@), key@, x@, *s, wrap_bare),
{
    proof {
        lemma_model_pairs(ov@);
    }
    let ghost before = ov@;
    match find_key_exec(ov, key) {
        Some(j) => {
            set_payload(&mut ov[j].1, x, s, wrap_bare);
            proof {
                lemma_model_pairs_update(before, j as int, ov@[j as int]);
                assert(before.update(j as int, ov@[j as int]) =~= ov@);
            }
        },
        None => {
            let e = (Value::Bytes(slice_to_vec(key)), stamped_exec(x));
            proof {
                lemma_model_pairs_push(before, e);
            }
            ov.push(e);
        },
    }
}

// ---------------------------------------------------------------------------
// The state lists.
// ---------------------------------------------------------------------------

/// Which of the four account-scoped state lists to write.
#[derive(Debug, Clone, Copy, PartialEq, Eq, Structural)]
pub enum StateList {
    /// `backgroundStates2`: states that tint a row (the ticked subset).
    Background,
    /// `backgroundOrder2`: every known state in row-tint priority order.
    BackgroundOrder,
    /// `flagStates2`: states that carry a colortag (the ticked subset).
    Flag,
    /// `flagOrder2`: every known state in colortag priority order.
    FlagOrder,
}

/// The container key a state list is stored under.
pub open spec fn state_key(which: StateList) -> Seq<u8> {
    match which {
        StateList::Background => kb("backgroundStates2"@),
        StateList::BackgroundOrder => kb("backgroundOrder2"@),
        StateList::Flag => kb("flagStates2"@),
        StateList::FlagOrder => kb("flagOrder2"@),
    }
}

/// Enabled lists are sets, stored sorted and without duplicates; order lists
/// are priority sequences and keep the caller's order.
pub open spec fn is_enabled_list(which: StateList) -> bool {
    which is Background || which is Flag
}

impl StateList {
    pub fn key(self) -> (k: &'static [u8])
        ensures
            k@ == state_key(self),
    {
        match self {
            StateList::Background => "backgroundStates2".as_bytes(),
            StateList::BackgroundOrder => "backgroundOrder2".as_bytes(),
            StateList::Flag => "flagStates2".as_bytes(),
            StateList::FlagOrder => "flagOrder2".as_bytes(),
        }
    }

    pub fn sorted(self) -> (r: bool)
        ensures
            r == is_enabled_list(self),
    {
        matches!(self, StateList::Background | StateList::Flag)
    }
}

/// `s` with runs of equal neighbours collapsed to one.
pub open spec fn dedup(s: Seq<i64>) -> Seq<i64>
    decreases s.len(),
{
    if s.len() == 0 {
        s
    } else {
        let d = dedup(s.drop_last());
        if d.len() > 0 && d.last() == s.last() {
            d
        } else {
            d.push(s.last())
        }
    }
}

/// Ascending, each id once.
pub open spec fn sorted_set(ids: Seq<i64>) -> Seq<i64> {
    dedup(ids.sort_by(int_le()))
}

proof fn lemma_dedup_sorted(s: Seq<i64>)
    requires
        vstd::relations::sorted_by(s, crate::container::int_le()),
    ensures
        forall|i: int, j: int| 0 <= i < j < dedup(s).len() ==> dedup(s)[i] < dedup(s)[j],
        forall|x: i64| dedup(s).contains(x) <==> s.contains(x),
        s.len() > 0 ==> dedup(s).len() > 0 && dedup(s).last() == s.last(),
    decreases s.len(),
{
    if s.len() > 0 {
        let p = s.drop_last();
        assert forall|i: int, j: int| 0 <= i < j < p.len() implies (crate::container::int_le())(p[i], p[j]) by {
            assert(s[i] == p[i] && s[j] == p[j]);
        }
        lemma_dedup_sorted(p);
        let d = dedup(p);
        if p.len() > 0 {
            assert((crate::container::int_le())(s[s.len() - 2], s[s.len() - 1]));
        }
        assert forall|x: i64| dedup(s).contains(x) <==> s.contains(x) by {
            if s.contains(x) && x != s.last() {
                let k = choose|k: int| 0 <= k < s.len() && s[k] == x;
                assert(p[k] == x);
            }
            if p.contains(x) {
                let k = choose|k: int| 0 <= k < p.len() && p[k] == x;
                assert(s[k] == x);
            }
            if d.contains(x) && !(d.len() > 0 && d.last() == s.last()) {
                let k = choose|k: int| 0 <= k < d.len() && d[k] == x;
                assert(d.push(s.last())[k] == x);
            }
            if !(d.len() > 0 && d.last() == s.last()) {
                assert(d.push(s.last())[d.len() as int] == s.last());
            } else {
                assert(d[d.len() - 1] == s.last());
            }
            assert(s[s.len() - 1] == s.last());
        }
    }
}

/// An enabled-state list as stored: strictly ascending (so each id once),
/// holding exactly the ids it was given.
pub proof fn lemma_sorted_set(ids: Seq<i64>)
    ensures
        forall|i: int, j: int| 0 <= i < j < sorted_set(ids).len() ==> sorted_set(ids)[i] < sorted_set(ids)[j],
        forall|x: i64| sorted_set(ids).contains(x) <==> ids.contains(x),
{
    crate::container::lemma_int_le_total();
    ids.lemma_sort_by_ensures(crate::container::int_le());
    let t = ids.sort_by(crate::container::int_le());
    lemma_dedup_sorted(t);
    assert forall|x: i64| t.contains(x) <==> ids.contains(x) by {
        vstd::seq_lib::to_multiset_contains(t, x);
        vstd::seq_lib::to_multiset_contains(ids, x);
    }
}

pub fn dedup_exec(s: &Vec<i64>) -> (r: Vec<i64>)
    ensures
        r@ == dedup(s@),
{
    let mut r: Vec<i64> = Vec::new();
    let mut i: usize = 0;
    assert(s@.take(0) =~= Seq::<i64>::empty());
    while i < s.len()
        invariant
            i <= s.len(),
            r@ == dedup(s@.take(i as int)),
        decreases s.len() - i,
    {
        assert(s@.take(i + 1).drop_last() =~= s@.take(i as int));
        let x = s[i];
        let dup = r.len() > 0 && r[r.len() - 1] == x;
        if !dup {
            r.push(x);
        }
        i = i + 1;
    }
    assert(s@.take(s@.len() as int) =~= s@);
    r
}

/// The ids as stored for a list.
pub open spec fn stored_ids(which: StateList, ids: Seq<i64>) -> Seq<i64> {
    if is_enabled_list(which) {
        sorted_set(ids)
    } else {
        ids
    }
}

/// Replacing a state list: its `(timestamp, list)` wrapper survives, and a
/// list the account never customised is minted wrapped.
pub open spec fn spec_set_state_list(ov: Pairs, which: StateList, ids: Seq<i64>) -> (Pairs, Result<(), OverviewTabError>) {
    (
        payload_set(
            ov,
            state_key(which),
            ValueView::List(crate::overview_tabs::int_values(stored_ids(which, ids))),
            Slot::List,
            false,
        ),
        Ok(()),
    )
}

/// Replace one of the four account-scoped state lists with `ids` (sorted and
/// deduplicated for an enabled list). The caller owns the contents: an order
/// list rebuilt from a screen must carry ids the client does not render.
pub fn set_state_list(v: &mut Value, which: StateList, ids: &[i64]) -> (r: Result<(), OverviewTabError>)
    requires
        spec_inline(old(v)@) is Some,
    ensures
        (final(v)@, r) == overview_edited(spec_inline(old(v)@)->Some_0, |ov: Pairs| spec_set_state_list(ov, which, ids@)),
{
    let w = crate::reshare::inline(v);
    *v = w;
    let ghost w0 = v@;
    match take_overview(v) {
        None => Err(OverviewTabError::NoOverview),
        Some(mut ov) => {
            let given = slice_to_vec(ids);
            let out = if which.sorted() {
                dedup_exec(&sort_ints(&given))
            } else {
                given
            };
            let list = Value::List(crate::overview_tabs::int_values_exec(out.as_slice()));
            put_payload(&mut ov, which.key(), list, &Slot::List, false);
            put_overview_entries(v, ov, Ghost(w0));
            Ok(())
        },
    }
}

// ---------------------------------------------------------------------------
// Boolean settings.
// ---------------------------------------------------------------------------

/// The overview container's simple boolean settings, as the client's own
/// Overview Settings window exposes them.
pub open spec fn overview_bool_names() -> Seq<Seq<char>> {
    seq![
        "applyToStructures"@,
        "applyToOtherObjects"@,
        "useSmallColorTags"@,
        "useSmallText"@,
        "overviewBroadcastsToTop"@,
        "hideCorpTicker"@,
    ]
}

/// The boolean settings' names.
pub fn overview_bool_keys() -> (r: Vec<&'static str>)
    ensures
        r@.len() == overview_bool_names().len(),
        forall|i: int| 0 <= i < r@.len() ==> #[trigger] r@[i]@ == overview_bool_names()[i],
{
    vec![
        "applyToStructures",
        "applyToOtherObjects",
        "useSmallColorTags",
        "useSmallText",
        "overviewBroadcastsToTop",
        "hideCorpTicker",
    ]
}

/// Whether `key` is one of the boolean settings.
pub fn is_overview_bool(key: &str) -> (r: bool)
    ensures
        r == overview_bool_names().contains(key@),
{
    let names = overview_bool_keys();
    let mut i: usize = 0;
    while i < names.len()
        invariant
            i <= names@.len(),
            names@.len() == overview_bool_names().len(),
            forall|k: int| 0 <= k < names@.len() ==> #[trigger] names@[k]@ == overview_bool_names()[k],
            forall|k: int| 0 <= k < i ==> overview_bool_names()[k] != key@,
        decreases names@.len() - i,
    {
        let name: String = String::from_str(names[i]);
        if text_is(&name, key) {
            assert(overview_bool_names()[i as int] == key@);
            return true;
        }
        i = i + 1;
    }
    false
}

/// Setting a boolean: its `(timestamp, bool)` wrapper survives, an absent one
/// is minted wrapped.
pub open spec fn spec_set_overview_bool(ov: Pairs, key: Seq<char>, on: bool) -> (Pairs, Result<(), OverviewTabError>) {
    (payload_set(ov, kb(key), ValueView::Bool(on), Slot::Bool, false), Ok(()))
}

/// Set one of the overview container's boolean settings. `key` must be one
/// of the known settings, so a typo cannot mint a junk key into a file the
/// client reads; an unknown key is refused before the document is touched.
pub fn set_overview_bool(v: &mut Value, key: &str, on: bool) -> (r: Result<(), OverviewTabError>)
    requires
        overview_bool_names().contains(key@) ==> spec_inline(old(v)@) is Some,
    ensures
        !overview_bool_names().contains(key@) ==> final(v)@ == old(v)@ && (r matches Err(
            OverviewTabError::UnknownSetting { key: k },
        ) && k@ == key@),
        overview_bool_names().contains(key@) ==> (final(v)@, r) == overview_edited(
            spec_inline(old(v)@)->Some_0,
            |ov: Pairs| spec_set_overview_bool(ov, key@, on),
        ),
{
    if !is_overview_bool(key) {
        return Err(OverviewTabError::UnknownSetting { key: String::from_str(key) });
    }
    let w = crate::reshare::inline(v);
    *v = w;
    let ghost w0 = v@;
    match take_overview(v) {
        None => Err(OverviewTabError::NoOverview),
        Some(mut ov) => {
            put_payload(&mut ov, key.as_bytes(), Value::Bool(on), &Slot::Bool, false);
            put_overview_entries(v, ov, Ghost(w0));
            Ok(())
        },
    }
}

// ---------------------------------------------------------------------------
// Reading through the document.
// ---------------------------------------------------------------------------

/// The `overview` entries as a read finds them: the first `overview` key of
/// the root dict, holding a plain dict.
pub open spec fn overview_read(root: ValueView) -> Option<Pairs> {
    match root {
        ValueView::Dict(r) => match find_key(r, kb("overview"@)) {
            Some(j) => match r[j].1 {
                ValueView::Dict(d) => Some(d),
                _ => None,
            },
            None => None,
        },
        _ => None,
    }
}

fn overview_read_exec(root: &Value) -> (r: Option<&Vec<(Value, Value)>>)
    ensures
        match r {
            Some(d) => overview_read(root@) == Some(model_pairs(d@)),
            None => overview_read(root@) is None,
        },
{
    match root {
        Value::Dict(r) => {
            proof {
                lemma_model_pairs(r@);
            }
            match find_key_exec(r, "overview".as_bytes()) {
                Some(j) => match &r[j].1 {
                    Value::Dict(d) => Some(d),
                    _ => None,
                },
                None => None,
            }
        },
        _ => None,
    }
}

/// A setting's boolean: the value itself, or the first boolean of its
/// `(timestamp, bool)` wrapper.
pub open spec fn as_bool(v: ValueView) -> Option<bool> {
    match v {
        ValueView::Bool(b) => Some(b),
        ValueView::Tuple(items) => match first_slot_from(items, slot_pred(Slot::Bool), 0) {
            Some(t) => Some(items[t]->Bool_0),
            None => None,
        },
        _ => None,
    }
}

fn as_bool_exec(v: &Value) -> (r: Option<bool>)
    ensures
        r == as_bool(v@),
{
    match v {
        Value::Bool(b) => Some(*b),
        Value::Tuple(items) => {
            proof {
                lemma_model_seq(items@);
                lemma_first_slot_from(model_seq(items@), slot_pred(Slot::Bool), 0);
            }
            match first_slot_exec(items, &Slot::Bool) {
                Some(t) => {
                    assert(model_seq(items@)[t as int] == model(items@[t as int]));
                    assert((slot_pred(Slot::Bool))(model_seq(items@)[t as int]));
                    match &items[t] {
                        Value::Bool(b) => Some(*b),
                        _ => None,
                    }
                },
                None => None,
            }
        },
        _ => None,
    }
}

/// The known settings present in `ov`, with their values, in the settings'
/// order; one whose value is not a boolean is left out.
pub open spec fn bools_in(ov: Pairs, names: Seq<Seq<char>>) -> Seq<(Seq<char>, bool)>
    decreases names.len(),
{
    if names.len() == 0 {
        Seq::empty()
    } else {
        let rest = bools_in(ov, names.drop_last());
        match find_key(ov, kb(names.last())) {
            Some(j) => match as_bool(ov[j].1) {
                Some(b) => rest.push((names.last(), b)),
                None => rest,
            },
            None => rest,
        }
    }
}

/// The known boolean settings present in a document (inlined).
pub open spec fn spec_overview_bools(w: ValueView) -> Seq<(Seq<char>, bool)> {
    match overview_read(w) {
        Some(ov) => bools_in(ov, overview_bool_names()),
        None => Seq::empty(),
    }
}

/// The known boolean settings actually present in the file. One absent here
/// is one the client has never written; the UI shows it unticked.
pub fn overview_bools(v: &Value) -> (r: Vec<(String, bool)>)
    requires
        spec_inline(v@) is Some,
    ensures
        r@.len() == spec_overview_bools(spec_inline(v@)->Some_0).len(),
        forall|i: int|
            0 <= i < r@.len() ==> ((#[trigger] r@[i]).0@, r@[i].1) == spec_overview_bools(spec_inline(v@)->Some_0)[i],
{
    let w = crate::reshare::inline(v);
    let mut r: Vec<(String, bool)> = Vec::new();
    let ov = match overview_read_exec(&w) {
        Some(ov) => ov,
        None => return r,
    };
    let ghost m = model_pairs(ov@);
    proof {
        lemma_model_pairs(ov@);
    }
    let names = overview_bool_keys();
    let ghost all = overview_bool_names();
    let mut i: usize = 0;
    assert(all.take(0) =~= Seq::<Seq<char>>::empty());
    while i < names.len()
        invariant
            i <= names@.len(),
            names@.len() == all.len(),
            all == overview_bool_names(),
            forall|k: int| 0 <= k < names@.len() ==> #[trigger] names@[k]@ == all[k],
            m == model_pairs(ov@),
            m.len() == ov@.len(),
            forall|j: int| 0 <= j < ov@.len() ==> #[trigger] m[j] == (model(ov@[j].0), model(ov@[j].1)),
            r@.len() == bools_in(m, all.take(i as int)).len(),
            forall|k: int| 0 <= k < r@.len() ==> ((#[trigger] r@[k]).0@, r@[k].1) == bools_in(m, all.take(i as int))[k],
        decreases names@.len() - i,
    {
        assert(all.take(i + 1).drop_last() =~= all.take(i as int));
        assert(all.take(i + 1).last() == all[i as int]);
        let name = names[i];
        match find_key_exec(ov, name.as_bytes()) {
            Some(j) => match as_bool_exec(&ov[j].1) {
                Some(b) => {
                    r.push((String::from_str(name), b));
                },
                None => {},
            },
            None => {},
        }
        i = i + 1;
    }
    assert(all.take(all.len() as int) =~= all);
    r
}

// ---------------------------------------------------------------------------
// State colours.
// ---------------------------------------------------------------------------

/// One colour component as the file stores it: a double (by its bit
/// pattern) or an integer.
#[derive(Debug, Clone, Copy, PartialEq, Eq, Structural)]
pub enum Channel {
    Float(u64),
    Int(i64),
}

/// The state id of a `(surface, id)` colour key, for the background surface
/// only; any other surface is read past and written back untouched.
pub open spec fn bg_id(k: ValueView) -> Option<i64> {
    match k {
        ValueView::Tuple(parts) => if parts.len() == 2 {
            match (parts[0], parts[1]) {
                (ValueView::Bytes(s), ValueView::Int(n)) => if s == kb("background"@) {
                    Some(n)
                } else {
                    None
                },
                _ => None,
            }
        } else {
            None
        },
        _ => None,
    }
}

fn bg_id_exec(k: &Value) -> (r: Option<i64>)
    ensures
        r == bg_id(k@),
{
    match k {
        Value::Tuple(parts) => {
            proof {
                lemma_model_seq(parts@);
            }
            if parts.len() != 2 {
                return None;
            }
            match (&parts[0], &parts[1]) {
                (Value::Bytes(_), Value::Int(n)) => if is_bytes(&parts[0], "background".as_bytes()) {
                    Some(*n)
                } else {
                    None
                },
                _ => None,
            }
        },
        _ => None,
    }
}

pub open spec fn channel(v: ValueView) -> Option<Channel> {
    match v {
        ValueView::Float(f) => Some(Channel::Float(f)),
        ValueView::Int(i) => Some(Channel::Int(i)),
        _ => None,
    }
}

/// An RGBA value: a tuple of exactly four numeric components.
pub open spec fn rgba_of(v: ValueView) -> Option<[Channel; 4]> {
    match v {
        ValueView::Tuple(p) => if p.len() == 4 && channel(p[0]) is Some && channel(p[1]) is Some && channel(p[2]) is Some
            && channel(p[3]) is Some {
            Some([channel(p[0])->Some_0, channel(p[1])->Some_0, channel(p[2])->Some_0, channel(p[3])->Some_0])
        } else {
            None
        },
        _ => None,
    }
}

fn channel_exec(v: &Value) -> (r: Option<Channel>)
    ensures
        r == channel(v@),
{
    match v {
        Value::Float(f) => Some(Channel::Float(*f)),
        Value::Int(i) => Some(Channel::Int(*i)),
        _ => None,
    }
}

fn rgba_exec(v: &Value) -> (r: Option<[Channel; 4]>)
    ensures
        r == rgba_of(v@),
{
    match v {
        Value::Tuple(p) => {
            proof {
                lemma_model_seq(p@);
            }
            if p.len() != 4 {
                return None;
            }
            match (channel_exec(&p[0]), channel_exec(&p[1]), channel_exec(&p[2]), channel_exec(&p[3])) {
                (Some(r), Some(g), Some(b), Some(a)) => Some([r, g, b, a]),
                _ => None,
            }
        },
        _ => None,
    }
}

/// The background colour overrides among `d`'s entries, in order.
pub open spec fn colors_in(d: Pairs) -> Seq<(i64, [Channel; 4])>
    decreases d.len(),
{
    if d.len() == 0 {
        Seq::empty()
    } else {
        let rest = colors_in(d.drop_last());
        match (bg_id(d.last().0), rgba_of(d.last().1)) {
            (Some(id), Some(c)) => rest.push((id, c)),
            _ => rest,
        }
    }
}

/// Every background colour override of a document (inlined).
pub open spec fn spec_state_colors(w: ValueView) -> Seq<(i64, [Channel; 4])> {
    match overview_read(w) {
        Some(ov) => match find_key(ov, kb("stateColors"@)) {
            Some(j) => match dict_inner(ov[j].1) {
                Some(d) => colors_in(d),
                None => Seq::empty(),
            },
            None => Seq::empty(),
        },
        None => Seq::empty(),
    }
}

/// Every background-surface colour override in the file, as
/// `(state_id, rgba)`. Sparse: a state absent here uses the client's
/// built-in colour.
pub fn state_colors(v: &Value) -> (r: Vec<(i64, [Channel; 4])>)
    requires
        spec_inline(v@) is Some,
    ensures
        r@ == spec_state_colors(spec_inline(v@)->Some_0),
{
    let w = crate::reshare::inline(v);
    let mut r: Vec<(i64, [Channel; 4])> = Vec::new();
    let ov = match overview_read_exec(&w) {
        Some(ov) => ov,
        None => return r,
    };
    proof {
        lemma_model_pairs(ov@);
    }
    let j = match find_key_exec(ov, "stateColors".as_bytes()) {
        Some(j) => j,
        None => return r,
    };
    let d = match crate::batch::dict_inner_exec(&ov[j].1) {
        Some(d) => d,
        None => return r,
    };
    let ghost m = model_pairs(d@);
    proof {
        lemma_model_pairs(d@);
    }
    let mut i: usize = 0;
    assert(m.take(0) =~= Seq::<(ValueView, ValueView)>::empty());
    while i < d.len()
        invariant
            i <= d.len(),
            m == model_pairs(d@),
            m.len() == d@.len(),
            forall|k: int| 0 <= k < d@.len() ==> #[trigger] m[k] == (model(d@[k].0), model(d@[k].1)),
            r@ == colors_in(m.take(i as int)),
        decreases d.len() - i,
    {
        assert(m.take(i + 1).drop_last() =~= m.take(i as int));
        match (bg_id_exec(&d[i].0), rgba_exec(&d[i].1)) {
            (Some(id), Some(c)) => r.push((id, c)),
            _ => {},
        }
        i = i + 1;
    }
    assert(m.take(m.len() as int) =~= m);
    r
}

/// A colour as the file stores it: four doubles.
pub open spec fn rgba_value(c: [u64; 4]) -> ValueView {
    ValueView::Tuple(
        seq![ValueView::Float(c[0]), ValueView::Float(c[1]), ValueView::Float(c[2]), ValueView::Float(c[3])],
    )
}

/// Entries other than the background override of state `id`.
pub open spec fn not_bg(id: i64) -> spec_fn((ValueView, ValueView)) -> bool {
    |e: (ValueView, ValueView)| bg_id(e.0) != Some(id)
}

/// The first entry at or after `i` that is state `id`'s background override.
pub open spec fn find_bg_from(d: Pairs, id: i64, i: int) -> Option<int>
    decreases d.len() - i,
{
    if i < 0 || i >= d.len() {
        None
    } else if bg_id(d[i].0) == Some(id) {
        Some(i)
    } else {
        find_bg_from(d, id, i + 1)
    }
}

proof fn lemma_find_bg_from(d: Pairs, id: i64, i: int)
    requires
        0 <= i,
    ensures
        find_bg_from(d, id, i) matches Some(j) ==> i <= j < d.len(),
    decreases d.len() - i,
{
    if i < d.len() {
        lemma_find_bg_from(d, id, i + 1);
    }
}

/// The colour overrides with state `id`'s set to `rgba`, or removed for
/// `None`, which restores the client's built-in colour.
pub open spec fn colors_set(d: Pairs, id: i64, rgba: Option<[u64; 4]>) -> Pairs {
    match rgba {
        None => d.filter(not_bg(id)),
        Some(c) => match find_bg_from(d, id, 0) {
            Some(i) => d.update(i, (d[i].0, rgba_value(c))),
            None => d.push(
                (ValueView::Tuple(seq![ValueView::Bytes(kb("background"@)), ValueView::Int(id)]), rgba_value(c)),
            ),
        },
    }
}

/// Setting or clearing one state's background colour.
pub open spec fn spec_set_state_color(ov: Pairs, id: i64, rgba: Option<[u64; 4]>) -> (Pairs, Result<(), OverviewTabError>) {
    let key = kb("stateColors"@);
    if find_key(ov, key) is None && rgba is None {
        (ov, Ok(()))
    } else {
        let ov1 = if find_key(ov, key) is None {
            ov.push((ValueView::Bytes(key), stamped(ValueView::Dict(Seq::empty()))))
        } else {
            ov
        };
        let j = find_key(ov1, key)->Some_0;
        match dict_inner(ov1[j].1) {
            Some(d) => (ov1.update(j, (ov1[j].0, dict_replaced(ov1[j].1, colors_set(d, id, rgba)))), Ok(())),
            None => (ov1, Err(OverviewTabError::NoOverview)),
        }
    }
}

pub(crate) fn rgba_value_exec(c: [u64; 4]) -> (r: Value)
    ensures
        r@ == rgba_value(c),
{
    let items = vec![Value::Float(c[0]), Value::Float(c[1]), Value::Float(c[2]), Value::Float(c[3])];
    proof {
        lemma_model_seq(items@);
        assert(model_seq(items@) =~= rgba_value(c)->Tuple_0);
    }
    Value::Tuple(items)
}

fn colors_without(d: &Vec<(Value, Value)>, id: i64) -> (r: Vec<(Value, Value)>)
    ensures
        model_pairs(r@) == model_pairs(d@).filter(not_bg(id)),
{
    let ghost m = model_pairs(d@);
    proof {
        lemma_model_pairs(d@);
        crate::container::lemma_filter_empty(m.take(0), not_bg(id));
    }
    let mut r: Vec<(Value, Value)> = Vec::new();
    assert(model_pairs(r@) =~= Seq::<(ValueView, ValueView)>::empty());
    let mut i: usize = 0;
    while i < d.len()
        invariant
            i <= d.len(),
            m == model_pairs(d@),
            m.len() == d@.len(),
            forall|j: int| 0 <= j < d@.len() ==> #[trigger] m[j] == (model(d@[j].0), model(d@[j].1)),
            model_pairs(r@) == m.take(i as int).filter(not_bg(id)),
        decreases d.len() - i,
    {
        proof {
            crate::container::lemma_filter_step(m, i as int, not_bg(id));
        }
        if bg_id_exec(&d[i].0) != Some(id) {
            let e = (crate::reshare::clone_value(&d[i].0), crate::reshare::clone_value(&d[i].1));
            proof {
                lemma_model_pairs_push(r@, e);
            }
            r.push(e);
        }
        i = i + 1;
    }
    assert(m.take(m.len() as int) =~= m);
    r
}

fn set_colors(d: &mut Vec<(Value, Value)>, id: i64, rgba: Option<[u64; 4]>)
    ensures
        model_pairs(final(d)@) == colors_set(model_pairs(old(d)@), id, rgba),
{
    match rgba {
        None => {
            let kept = colors_without(d, id);
            *d = kept;
        },
        Some(c) => {
            let ghost m = model_pairs(d@);
            proof {
                lemma_model_pairs(d@);
            }
            let mut i: usize = 0;
            while i < d.len()
                invariant
                    i <= d.len(),
                    m == model_pairs(d@),
                    m.len() == d@.len(),
                    forall|j: int| 0 <= j < d@.len() ==> #[trigger] m[j] == (model(d@[j].0), model(d@[j].1)),
                    find_bg_from(m, id, 0) == find_bg_from(m, id, i as int),
                ensures
                    i <= d.len(),
                    find_bg_from(m, id, 0) == find_bg_from(m, id, i as int),
                    i < d.len() ==> bg_id(m[i as int].0) == Some(id),
                decreases d.len() - i,
            {
                if bg_id_exec(&d[i].0) == Some(id) {
                    break;
                }
                i = i + 1;
            }
            let ghost before = d@;
            if i < d.len() {
                let mut val = rgba_value_exec(c);
                std::mem::swap(&mut d[i].1, &mut val);
                proof {
                    lemma_model_pairs_update(before, i as int, d@[i as int]);
                    assert(before.update(i as int, d@[i as int]) =~= d@);
                }
            } else {
                let parts = vec![Value::Bytes(slice_to_vec("background".as_bytes())), Value::Int(id)];
                proof {
                    lemma_model_seq(parts@);
                    assert(model_seq(parts@) =~= seq![ValueView::Bytes(kb("background"@)), ValueView::Int(id)]);
                }
                let e = (Value::Tuple(parts), rgba_value_exec(c));
                proof {
                    lemma_model_pairs_push(before, e);
                }
                d.push(e);
            }
        },
    }
}

fn set_color_in(ov: &mut Vec<(Value, Value)>, id: i64, rgba: Option<[u64; 4]>) -> (r: Result<(), OverviewTabError>)
    ensures
        model_pairs(final(ov)@) == spec_set_state_color(model_pairs(old(ov)@), id, rgba).0,
        r == spec_set_state_color(model_pairs(old(ov)@), id, rgba).1,
{
    let ghost m0 = model_pairs(ov@);
    proof {
        lemma_model_pairs(ov@);
    }
    let key = "stateColors".as_bytes();
    if find_key_exec(ov, key).is_none() {
        if rgba.is_none() {
            return Ok(());
        }
        let ghost before = ov@;
        let empty: Vec<(Value, Value)> = Vec::new();
        assert(model_pairs(empty@) =~= Seq::<(ValueView, ValueView)>::empty());
        let e = (Value::Bytes(slice_to_vec(key)), stamped_exec(Value::Dict(empty)));
        proof {
            lemma_model_pairs_push(before, e);
        }
        ov.push(e);
        proof {
            crate::overview_tabs::lemma_find_key_push(m0, kb("stateColors"@), model_pairs(ov@).last(), 0);
        }
    }
    let ghost m1 = model_pairs(ov@);
    proof {
        lemma_model_pairs(ov@);
        lemma_find_key_from(m1, kb("stateColors"@), 0);
    }
    let j = match find_key_exec(ov, key) {
        Some(j) => j,
        None => {
            assert(false);
            return Ok(());
        },
    };
    let ghost c = m1[j as int].1;
    let mut d: Vec<(Value, Value)> = Vec::new();
    assert(model_pairs(d@) =~= Seq::<(ValueView, ValueView)>::empty());
    if !swap_entry_dict(ov, j, &mut d) {
        return Err(OverviewTabError::NoOverview);
    }
    set_colors(&mut d, id, rgba);
    proof {
        lemma_dict_replaced(c, Seq::empty(), model_pairs(d@));
    }
    swap_entry_dict(ov, j, &mut d);
    Ok(())
}

/// Set or clear one state's background colour. `Some` writes an explicit
/// override (four doubles, by their bit patterns); `None` removes the entry,
/// which is how the client's built-in colour is restored. Entries of any
/// other surface are left exactly as found.
pub fn set_state_color(v: &mut Value, id: i64, rgba: Option<[u64; 4]>) -> (r: Result<(), OverviewTabError>)
    requires
        spec_inline(old(v)@) is Some,
    ensures
        (final(v)@, r) == overview_edited(spec_inline(old(v)@)->Some_0, |ov: Pairs| spec_set_state_color(ov, id, rgba)),
{
    let w = crate::reshare::inline(v);
    *v = w;
    let ghost w0 = v@;
    match take_overview(v) {
        None => Err(OverviewTabError::NoOverview),
        Some(mut ov) => {
            let r = set_color_in(&mut ov, id, rgba);
            put_overview_entries(v, ov, Ghost(w0));
            r
        },
    }
}

} // verus!
