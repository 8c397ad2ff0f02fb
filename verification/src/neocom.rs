//! The neocom button bar: `ui -> neocomButtonRawData`, a `(timestamp, list)`
//! of `utillib.KeyVal` instances whose state is `{btnType, children,
//! iconPath, id}`. Commands address buttons by index, not id: some ids are a
//! `(bytes, None)` tuple rather than bytes, so ids are neither unique nor
//! always well formed. Reordering and removing move whole instances, so a
//! button's children, icon and odd id ride along untouched. Reads work on the
//! inlined document.

use vstd::prelude::*;
use vstd::slice::slice_to_vec;
use vstd::string::StringExecFns;

use crate::autofill::{child_value, child_value_exec};
use crate::batch::{find_key, find_key_exec, lemma_find_key_from};
use crate::container::Pairs;
use crate::overview_tabs::kb;
use crate::path::{lemma_model_pairs_update, lemma_model_seq_update};
use crate::reshare::spec_inline;
use crate::text::{lossy_text, utf8_lossy};
use crate::value::{lemma_model_pairs, lemma_model_seq, model, model_pairs, model_seq, Value, ValueView};

verus! {

broadcast use vstd::std_specs::vec::group_vec_axioms;

/// Why a neocom command was refused.
#[derive(Debug, PartialEq, Eq)]
pub enum NeocomError {
    /// No `ui` section in the document.
    NoUi,
    /// No `neocomButtonRawData` under `ui`.
    NoBar,
    /// A reset on a document with no `neocomButtonRawDataOriginal`.
    NoOriginal,
    /// A button index that does not exist.
    BadIndex,
    /// A reorder that is not a permutation of the current indices.
    BadOrder,
}

/// The sentence the user is shown for an error.
pub open spec fn neocom_error_text(e: NeocomError) -> Seq<char> {
    match e {
        NeocomError::NoUi => "This file has no UI section."@,
        NeocomError::NoBar => "This file has no neocom buttons."@,
        NeocomError::NoOriginal => "This character has no original neocom bar to reset to."@,
        NeocomError::BadIndex => "That neocom button no longer exists."@,
        NeocomError::BadOrder => "That is not a valid ordering of the neocom buttons."@,
    }
}

impl NeocomError {
    /// The sentence the user is shown for this error.
    pub fn message(&self) -> (r: String)
        ensures
            r@ == neocom_error_text(*self),
    {
        match self {
            NeocomError::NoUi => String::from_str("This file has no UI section."),
            NeocomError::NoBar => String::from_str("This file has no neocom buttons."),
            NeocomError::NoOriginal => String::from_str("This character has no original neocom bar to reset to."),
            NeocomError::BadIndex => String::from_str("That neocom button no longer exists."),
            NeocomError::BadOrder => String::from_str("That is not a valid ordering of the neocom buttons."),
        }
    }
}

/// One button as the UI shows it.
pub struct NeocomButton {
    pub index: usize,
    pub id: String,
    pub btn_type: i64,
    pub icon_path: String,
    /// 0 for `None` or an empty list: the write path never re-authors
    /// children.
    pub children: usize,
}

/// The live bar, and the character's own baseline
/// (`neocomButtonRawDataOriginal`, empty when the file has none).
pub struct NeocomBar {
    pub buttons: Vec<NeocomButton>,
    pub original: Vec<NeocomButton>,
}

/// A button, by view.
pub struct ButtonView {
    pub index: int,
    pub id: Seq<char>,
    pub btn_type: i64,
    pub icon_path: Seq<char>,
    pub children: int,
}

pub open spec fn button_view(b: NeocomButton) -> ButtonView {
    ButtonView {
        index: b.index as int,
        id: b.id@,
        btn_type: b.btn_type,
        icon_path: b.icon_path@,
        children: b.children as int,
    }
}

pub open spec fn buttons_view(s: Seq<NeocomButton>) -> Seq<ButtonView> {
    s.map_values(|b: NeocomButton| button_view(b))
}

pub open spec fn bar_key() -> Seq<char> {
    "neocomButtonRawData"@
}

pub open spec fn original_key() -> Seq<char> {
    "neocomButtonRawDataOriginal"@
}

/// The `(timestamp, payload)` payload, or the value itself when bare.
pub open spec fn payload_of(v: ValueView) -> ValueView {
    match v {
        ValueView::Tuple(t) => if t.len() == 2 {
            t[1]
        } else {
            v
        },
        _ => v,
    }
}

/// A button id: bytes, or the first half of a `(bytes, None)` tuple.
pub open spec fn id_text(v: ValueView) -> Seq<char>
    decreases v,
{
    match v {
        ValueView::Bytes(b) => utf8_lossy(b),
        ValueView::Tuple(t) => if t.len() > 0 {
            id_text(t[0])
        } else {
            Seq::empty()
        },
        _ => Seq::empty(),
    }
}

/// The value of a button state's field `name`.
pub open spec fn state_field(state: ValueView, name: Seq<char>) -> Option<ValueView> {
    match state {
        ValueView::Dict(d) => child_value(d, name),
        _ => None,
    }
}

/// The button an entry of the bar's list makes, when it is an instance.
pub open spec fn read_button(index: int, v: ValueView) -> Option<ButtonView> {
    match v {
        ValueView::Instance { class, state } => Some(
            ButtonView {
                index,
                id: match state_field(*state, "id"@) {
                    Some(x) => id_text(x),
                    None => Seq::empty(),
                },
                btn_type: match state_field(*state, "btnType"@) {
                    Some(ValueView::Int(i)) => i,
                    _ => 0,
                },
                icon_path: match state_field(*state, "iconPath"@) {
                    Some(ValueView::Bytes(b)) => utf8_lossy(b),
                    _ => Seq::empty(),
                },
                children: match state_field(*state, "children"@) {
                    Some(ValueView::List(l)) => l.len() as int,
                    Some(ValueView::Tuple(l)) => l.len() as int,
                    _ => 0,
                },
            },
        ),
        _ => None,
    }
}

/// The buttons of a bar's entries, each with its position in the list.
pub open spec fn read_items(l: Seq<ValueView>) -> Seq<ButtonView>
    decreases l.len(),
{
    if l.len() == 0 {
        Seq::empty()
    } else {
        let r = read_items(l.drop_last());
        match read_button(l.len() - 1, l.last()) {
            Some(b) => r.push(b),
            None => r,
        }
    }
}

/// The buttons of a bar (its list or tuple payload).
pub open spec fn read_list(v: ValueView) -> Seq<ButtonView> {
    match payload_of(v) {
        ValueView::List(l) => read_items(l),
        ValueView::Tuple(l) => read_items(l),
        _ => Seq::empty(),
    }
}

/// The entries of the `ui` section: the root's `ui` dict.
pub open spec fn ui_entries(w: ValueView) -> Option<Pairs> {
    match w {
        ValueView::Dict(top) => match child_value(top, "ui"@) {
            Some(ValueView::Dict(e)) => Some(e),
            _ => None,
        },
        _ => None,
    }
}

/// The bar and the baseline of a document (inlined).
pub open spec fn spec_project_neocom(w: ValueView) -> Result<(Seq<ButtonView>, Seq<ButtonView>), NeocomError> {
    match ui_entries(w) {
        None => Err(NeocomError::NoUi),
        Some(e) => match child_value(e, bar_key()) {
            None => Err(NeocomError::NoBar),
            Some(bar) => Ok(
                (
                    read_list(bar),
                    match child_value(e, original_key()) {
                        Some(o) => read_list(o),
                        None => Seq::empty(),
                    },
                ),
            ),
        },
    }
}

fn payload_exec(v: &Value) -> (r: &Value)
    ensures
        r@ == payload_of(v@),
{
    match v {
        Value::Tuple(t) => {
            proof {
                lemma_model_seq(t@);
            }
            if t.len() == 2 {
                &t[1]
            } else {
                v
            }
        },
        _ => v,
    }
}

fn id_string(v: &Value) -> (r: String)
    ensures
        r@ == id_text(v@),
    decreases v@,
{
    match v {
        Value::Bytes(b) => lossy_text(b.as_slice()),
        Value::Tuple(t) => {
            proof {
                lemma_model_seq(t@);
            }
            if t.len() > 0 {
                proof {
                    assert(decreases_to!(v@ => (v@)->Tuple_0));
                    assert(decreases_to!((v@)->Tuple_0 => model_seq(t@)[0]));
                }
                id_string(&t[0])
            } else {
                String::new()
            }
        },
        _ => String::new(),
    }
}

fn state_field_exec<'a>(state: &'a Value, name: &str) -> (r: Option<&'a Value>)
    ensures
        match r {
            Some(x) => state_field(state@, name@) == Some(x@),
            None => state_field(state@, name@) is None,
        },
{
    match state {
        Value::Dict(d) => child_value_exec(d, name),
        _ => None,
    }
}

fn read_button_exec(index: usize, v: &Value) -> (r: Option<NeocomButton>)
    ensures
        match r {
            Some(b) => read_button(index as int, v@) == Some(button_view(b)),
            None => read_button(index as int, v@) is None,
        },
{
    match v {
        Value::Instance { class, state } => {
            let id = match state_field_exec(state, "id") {
                Some(x) => id_string(x),
                None => String::new(),
            };
            let btn_type = match state_field_exec(state, "btnType") {
                Some(Value::Int(i)) => *i,
                _ => 0,
            };
            let icon_path = match state_field_exec(state, "iconPath") {
                Some(Value::Bytes(b)) => lossy_text(b.as_slice()),
                _ => String::new(),
            };
            let children = match state_field_exec(state, "children") {
                Some(Value::List(l)) => {
                    proof {
                        lemma_model_seq(l@);
                    }
                    l.len()
                },
                Some(Value::Tuple(l)) => {
                    proof {
                        lemma_model_seq(l@);
                    }
                    l.len()
                },
                _ => 0,
            };
            Some(NeocomButton { index, id, btn_type, icon_path, children })
        },
        _ => None,
    }
}

fn read_items_exec(l: &Vec<Value>) -> (r: Vec<NeocomButton>)
    ensures
        buttons_view(r@) == read_items(model_seq(l@)),
{
    let ghost m = model_seq(l@);
    proof {
        lemma_model_seq(l@);
    }
    let mut r: Vec<NeocomButton> = Vec::new();
    let mut i: usize = 0;
    assert(m.take(0) =~= Seq::<ValueView>::empty());
    assert(buttons_view(r@) =~= Seq::<ButtonView>::empty());
    while i < l.len()
        invariant
            i <= l.len(),
            m == model_seq(l@),
            m.len() == l@.len(),
            forall|j: int| 0 <= j < l@.len() ==> #[trigger] m[j] == l@[j]@,
            buttons_view(r@) == read_items(m.take(i as int)),
        decreases l.len() - i,
    {
        assert(m.take(i + 1).drop_last() =~= m.take(i as int));
        assert(m.take(i + 1).last() == m[i as int]);
        match read_button_exec(i, &l[i]) {
            Some(b) => {
                let ghost before = r@;
                r.push(b);
                proof {
                    assert(buttons_view(r@) =~= buttons_view(before).push(button_view(b)));
                }
            },
            None => {},
        }
        i = i + 1;
    }
    assert(m.take(m.len() as int) =~= m);
    r
}

fn read_list_exec(v: &Value) -> (r: Vec<NeocomButton>)
    ensures
        buttons_view(r@) == read_list(v@),
{
    match payload_exec(v) {
        Value::List(l) => read_items_exec(l),
        Value::Tuple(l) => read_items_exec(l),
        _ => {
            let r: Vec<NeocomButton> = Vec::new();
            assert(buttons_view(r@) =~= Seq::<ButtonView>::empty());
            r
        },
    }
}

/// The bar and the baseline of an inlined document.
fn project_inlined(w: &Value) -> (r: Result<NeocomBar, NeocomError>)
    ensures
        match r {
            Ok(bar) => spec_project_neocom(w@) == Ok::<(Seq<ButtonView>, Seq<ButtonView>), NeocomError>(
                (buttons_view(bar.buttons@), buttons_view(bar.original@)),
            ),
            Err(e) => spec_project_neocom(w@) == Err::<(Seq<ButtonView>, Seq<ButtonView>), NeocomError>(e),
        },
{
    let top = match w {
        Value::Dict(top) => top,
        _ => return Err(NeocomError::NoUi),
    };
    let e = match child_value_exec(top, "ui") {
        Some(Value::Dict(e)) => e,
        _ => return Err(NeocomError::NoUi),
    };
    let bar = match child_value_exec(e, "neocomButtonRawData") {
        Some(bar) => bar,
        None => return Err(NeocomError::NoBar),
    };
    let buttons = read_list_exec(bar);
    let original = match child_value_exec(e, "neocomButtonRawDataOriginal") {
        Some(o) => read_list_exec(o),
        None => {
            let r: Vec<NeocomButton> = Vec::new();
            assert(buttons_view(r@) =~= Seq::<ButtonView>::empty());
            r
        },
    };
    Ok(NeocomBar { buttons, original })
}

/// The neocom bar of a character file and its baseline, as
/// [`spec_project_neocom`] states them: `NoUi` without a `ui` section,
/// `NoBar` without the bar; a missing baseline reads as empty.
pub fn project_neocom(v: &Value) -> (r: Result<NeocomBar, NeocomError>)
    requires
        spec_inline(v@) is Some,
    ensures
        match r {
            Ok(bar) => spec_project_neocom(spec_inline(v@)->Some_0) == Ok::<
                (Seq<ButtonView>, Seq<ButtonView>),
                NeocomError,
            >((buttons_view(bar.buttons@), buttons_view(bar.original@))),
            Err(e) => spec_project_neocom(spec_inline(v@)->Some_0) == Err::<(Seq<ButtonView>, Seq<ButtonView>), NeocomError>(
                e,
            ),
        },
{
    let w = crate::reshare::inline(v);
    project_inlined(&w)
}

// ---------------------------------------------------------------------------
// Editing the bar.
// ---------------------------------------------------------------------------

/// The list payload of the bar's entry: a `(timestamp, list)` pair's list,
/// or a bare list. A bar stored as anything else is refused rather than
/// reshaped.
pub open spec fn bar_payload(raw: ValueView) -> Option<Seq<ValueView>> {
    match raw {
        ValueView::Tuple(t) => if t.len() == 2 {
            match t[1] {
                ValueView::List(l) => Some(l),
                _ => None,
            }
        } else {
            None
        },
        ValueView::List(l) => Some(l),
        _ => None,
    }
}

/// The bar's entry with its list replaced by `l`.
pub open spec fn bar_with(raw: ValueView, l: Seq<ValueView>) -> ValueView {
    match raw {
        ValueView::Tuple(t) => ValueView::Tuple(t.update(1, ValueView::List(l))),
        _ => ValueView::List(l),
    }
}

/// The live bar's list, as the write path reaches it in an inlined
/// document: the root's `ui` dict, then its bar entry.
pub open spec fn bar_list(w: ValueView) -> Result<Seq<ValueView>, NeocomError> {
    match w {
        ValueView::Dict(top) => match find_key(top, kb("ui"@)) {
            Some(u) => match top[u].1 {
                ValueView::Dict(e) => match find_key(e, kb(bar_key())) {
                    Some(b) => match bar_payload(e[b].1) {
                        Some(l) => Ok(l),
                        None => Err(NeocomError::NoBar),
                    },
                    None => Err(NeocomError::NoBar),
                },
                _ => Err(NeocomError::NoUi),
            },
            None => Err(NeocomError::NoUi),
        },
        _ => Err(NeocomError::NoUi),
    }
}

/// The document with the live bar's list replaced by `l` (where
/// [`bar_list`] reaches one).
pub open spec fn with_bar_list(w: ValueView, l: Seq<ValueView>) -> ValueView {
    let top = w->Dict_0;
    let u = find_key(top, kb("ui"@))->Some_0;
    let e = top[u].1->Dict_0;
    let b = find_key(e, kb(bar_key()))->Some_0;
    ValueView::Dict(top.update(u, (top[u].0, ValueView::Dict(e.update(b, (e[b].0, bar_with(e[b].1, l)))))))
}

proof fn lemma_bar_with(raw: ValueView, l1: Seq<ValueView>, l2: Seq<ValueView>)
    requires
        bar_payload(raw) is Some,
    ensures
        bar_payload(bar_with(raw, l1)) == Some(l1),
        bar_with(bar_with(raw, l1), l2) == bar_with(raw, l2),
        bar_with(raw, bar_payload(raw)->Some_0) == raw,
{
    if let ValueView::Tuple(t) = raw {
        assert(t.update(1, ValueView::List(l1)).update(1, ValueView::List(l2)) =~= t.update(1, ValueView::List(l2)));
        assert(t.update(1, t[1]) =~= t);
    }
}

proof fn lemma_with_bar_list(w: ValueView, l1: Seq<ValueView>, l2: Seq<ValueView>)
    requires
        bar_list(w) is Ok,
    ensures
        bar_list(with_bar_list(w, l1)) == Ok::<Seq<ValueView>, NeocomError>(l1),
        with_bar_list(with_bar_list(w, l1), l2) == with_bar_list(w, l2),
        with_bar_list(w, bar_list(w)->Ok_0) == w,
{
    let top = w->Dict_0;
    let u = find_key(top, kb("ui"@))->Some_0;
    let e = top[u].1->Dict_0;
    let b = find_key(e, kb(bar_key()))->Some_0;
    lemma_find_key_from(top, kb("ui"@), 0);
    lemma_find_key_from(e, kb(bar_key()), 0);
    lemma_bar_with(e[b].1, l1, l2);
    let e1 = e.update(b, (e[b].0, bar_with(e[b].1, l1)));
    let top1 = top.update(u, (top[u].0, ValueView::Dict(e1)));
    crate::overview_tabs::lemma_find_key_update_value(top, u, ValueView::Dict(e1), kb("ui"@));
    crate::overview_tabs::lemma_find_key_update_value(e, b, bar_with(e[b].1, l1), kb(bar_key()));
    let e2 = e1.update(b, (e1[b].0, bar_with(e1[b].1, l2)));
    assert(e2 =~= e.update(b, (e[b].0, bar_with(e[b].1, l2))));
    assert(top1.update(u, (top1[u].0, ValueView::Dict(e2))) =~= top.update(u, (top[u].0, ValueView::Dict(e2))));
    assert(e.update(b, (e[b].0, bar_with(e[b].1, bar_payload(e[b].1)->Some_0))) =~= e);
    assert(top.update(u, (top[u].0, ValueView::Dict(e))) =~= top);
}

/// Swap the list of a bar entry with `l`.
fn swap_payload(raw: &mut Value, l: &mut Vec<Value>) -> (found: bool)
    ensures
        found == bar_payload(old(raw)@) is Some,
        found ==> bar_payload(old(raw)@) == Some(model_seq(final(l)@)) && final(raw)@ == bar_with(
            old(raw)@,
            model_seq(old(l)@),
        ),
        !found ==> final(raw)@ == old(raw)@ && final(l)@ == old(l)@,
{
    match raw {
        Value::Tuple(t) => {
            proof {
                lemma_model_seq(t@);
            }
            if t.len() == 2 {
                let ghost before = t@;
                let mut x = Value::Nil;
                std::mem::swap(&mut t[1], &mut x);
                match x {
                    Value::List(mut inner) => {
                        std::mem::swap(&mut inner, l);
                        let mut y = Value::List(inner);
                        std::mem::swap(&mut t[1], &mut y);
                        proof {
                            lemma_model_seq_update(before, 1, t@[1]);
                            assert(before.update(1, t@[1]) =~= t@);
                        }
                        true
                    },
                    other => {
                        let mut back = other;
                        std::mem::swap(&mut t[1], &mut back);
                        proof {
                            assert(t@ =~= before);
                        }
                        false
                    },
                }
            } else {
                false
            }
        },
        Value::List(inner) => {
            std::mem::swap(inner, l);
            true
        },
        _ => false,
    }
}

/// Swap the live bar's list of an inlined document with `l`; a refusal
/// changes nothing.
fn swap_bar(w: &mut Value, l: &mut Vec<Value>) -> (r: Result<(), NeocomError>)
    ensures
        match r {
            Ok(()) => bar_list(old(w)@) == Ok::<Seq<ValueView>, NeocomError>(model_seq(final(l)@)) && final(w)@
                == with_bar_list(old(w)@, model_seq(old(l)@)),
            Err(e) => bar_list(old(w)@) == Err::<Seq<ValueView>, NeocomError>(e) && final(w)@ == old(w)@ && final(l)@
                == old(l)@,
        },
{
    let ghost w0 = w@;
    let top = match w {
        Value::Dict(top) => top,
        _ => return Err(NeocomError::NoUi),
    };
    proof {
        lemma_model_pairs(top@);
    }
    let ghost t0 = top@;
    let u = match find_key_exec(top, "ui".as_bytes()) {
        Some(u) => u,
        None => return Err(NeocomError::NoUi),
    };
    let mut ui = Value::Nil;
    std::mem::swap(&mut top[u].1, &mut ui);
    let mut e = match ui {
        Value::Dict(e) => e,
        other => {
            let mut back = other;
            std::mem::swap(&mut top[u].1, &mut back);
            proof {
                assert(top@ =~= t0);
            }
            return Err(NeocomError::NoUi);
        },
    };
    proof {
        lemma_model_pairs(e@);
    }
    let ghost e0 = e@;
    let b = match find_key_exec(&e, "neocomButtonRawData".as_bytes()) {
        Some(b) => b,
        None => {
            let mut back = Value::Dict(e);
            std::mem::swap(&mut top[u].1, &mut back);
            proof {
                assert(top@ =~= t0);
            }
            return Err(NeocomError::NoBar);
        },
    };
    let mut raw = Value::Nil;
    std::mem::swap(&mut e[b].1, &mut raw);
    let found = swap_payload(&mut raw, l);
    std::mem::swap(&mut e[b].1, &mut raw);
    proof {
        lemma_model_pairs_update(e0, b as int, e@[b as int]);
        assert(e0.update(b as int, e@[b as int]) =~= e@);
    }
    let ghost e1 = e@;
    let mut back = Value::Dict(e);
    std::mem::swap(&mut top[u].1, &mut back);
    proof {
        lemma_model_pairs_update(t0, u as int, top@[u as int]);
        assert(t0.update(u as int, top@[u as int]) =~= top@);
    }
    if found {
        Ok(())
    } else {
        proof {
            assert(model_pairs(e1) =~= model_pairs(e0));
            assert(model_pairs(top@) =~= model_pairs(t0));
        }
        Err(NeocomError::NoBar)
    }
}

// ---------------------------------------------------------------------------
// The commands.
// ---------------------------------------------------------------------------

/// `order` lists each of the indices `0..n` exactly once.
pub open spec fn is_permutation(order: Seq<usize>, n: int) -> bool {
    &&& order.len() == n
    &&& forall|i: int| 0 <= i < n ==> order[i] < n
    &&& forall|i: int, j: int| 0 <= i < j < n ==> order[i] != order[j]
}

/// Reordering the bar: `order` must be a permutation of the projected
/// button indices, checked before anything changes; then the document is
/// inlined and whole entries move. A raw list whose length differs from the
/// projected count (an entry that is not a button) is refused rather than
/// scrambled.
pub open spec fn spec_reorder(v: ValueView, order: Seq<usize>) -> (ValueView, Result<(), NeocomError>) {
    let w = spec_inline(v)->Some_0;
    match spec_project_neocom(w) {
        Err(e) => (v, Err(e)),
        Ok(bar) => if !is_permutation(order, bar.0.len() as int) {
            (v, Err(NeocomError::BadOrder))
        } else {
            match bar_list(w) {
                Err(e) => (w, Err(e)),
                Ok(l) => if l.len() != bar.0.len() {
                    (w, Err(NeocomError::BadOrder))
                } else {
                    (with_bar_list(w, order.map_values(|i: usize| l[i as int])), Ok(()))
                },
            }
        },
    }
}

/// Entry `k` of the old bar has a place in the new order.
pub open spec fn placed(order: Seq<usize>, k: int) -> bool {
    exists|p: int| 0 <= p < order.len() && order[p] == k
}

proof fn lemma_permutation_onto(order: Seq<usize>, n: int)
    requires
        is_permutation(order, n),
    ensures
        forall|k: int| 0 <= k < n ==> #[trigger] placed(order, k),
{
    let oi = order.map_values(|x: usize| x as int);
    assert(oi.no_duplicates()) by {
        assert forall|i: int, j: int| 0 <= i < oi.len() && 0 <= j < oi.len() && i != j implies oi[i] != oi[j] by {
            if i < j {
                assert(order[i] != order[j]);
            } else {
                assert(order[j] != order[i]);
            }
        }
    }
    oi.unique_seq_to_set();
    let r = vstd::set_lib::set_int_range(0, n);
    vstd::set_lib::lemma_int_range(0, n);
    assert(oi.to_set().subset_of(r)) by {
        assert forall|x: int| oi.to_set().contains(x) implies r.contains(x) by {
            let p = choose|p: int| 0 <= p < oi.len() && oi[p] == x;
            assert(order[p] < n);
        }
    }
    vstd::seq_lib::seq_to_set_is_finite(oi);
    vstd::set_lib::lemma_subset_equality(oi.to_set(), r);
    assert forall|k: int| 0 <= k < n implies #[trigger] placed(order, k) by {
        assert(r.contains(k));
        assert(oi.to_set().contains(k));
        let p = choose|p: int| 0 <= p < oi.len() && oi[p] == k;
        assert(order[p] == k);
    }
}

/// A reorder that is not a permutation of the bar's buttons is refused with
/// `BadOrder` before anything changes: the document stays exactly as it was.
pub proof fn lemma_bad_order_changes_nothing(v: ValueView, order: Seq<usize>)
    requires
        spec_project_neocom(spec_inline(v)->Some_0) is Ok,
        !is_permutation(order, spec_project_neocom(spec_inline(v)->Some_0)->Ok_0.0.len() as int),
    ensures
        spec_reorder(v, order) == (v, Err::<(), NeocomError>(NeocomError::BadOrder)),
{
}

/// A reorder moves whole entries: once it succeeds, the bar lists the old
/// entries in the order given, every old entry exactly once.
pub proof fn lemma_reorder_moves_each_entry(v: ValueView, order: Seq<usize>)
    requires
        spec_reorder(v, order).1 is Ok,
    ensures
        ({
            let l = bar_list(spec_inline(v)->Some_0)->Ok_0;
            &&& bar_list(spec_reorder(v, order).0) == Ok::<Seq<ValueView>, NeocomError>(
                order.map_values(|i: usize| l[i as int]),
            )
            &&& order.len() == l.len()
            &&& forall|k: int| 0 <= k < l.len() ==> #[trigger] placed(order, k)
            &&& forall|p: int, q: int| 0 <= p < q < l.len() ==> order[p] != order[q]
        }),
{
    let w = spec_inline(v)->Some_0;
    let l = bar_list(w)->Ok_0;
    lemma_with_bar_list(w, order.map_values(|i: usize| l[i as int]), l);
    lemma_permutation_onto(order, l.len() as int);
}

/// Removing button `index`: refused before anything changes for an index
/// the projection lacks, and after inlining for a raw list that does not
/// match the projection.
pub open spec fn spec_remove(v: ValueView, index: usize) -> (ValueView, Result<(), NeocomError>) {
    let w = spec_inline(v)->Some_0;
    match spec_project_neocom(w) {
        Err(e) => (v, Err(e)),
        Ok(bar) => if index >= bar.0.len() {
            (v, Err(NeocomError::BadIndex))
        } else {
            match bar_list(w) {
                Err(e) => (w, Err(e)),
                Ok(l) => if l.len() != bar.0.len() {
                    (w, Err(NeocomError::BadIndex))
                } else {
                    (with_bar_list(w, l.remove(index as int)), Ok(()))
                },
            }
        },
    }
}

/// A new button: a `utillib.KeyVal` with the four keys in the client's own
/// order, and no children.
pub open spec fn new_button(id: Seq<char>, btn_type: i64, icon_path: Seq<char>) -> ValueView {
    ValueView::Instance {
        class: Box::new(ValueView::Bytes(kb("utillib.KeyVal"@))),
        state: Box::new(
            ValueView::Dict(
                seq![
                    (ValueView::Bytes(kb("btnType"@)), ValueView::Int(btn_type)),
                    (ValueView::Bytes(kb("children"@)), ValueView::Nil),
                    (ValueView::Bytes(kb("iconPath"@)), ValueView::Bytes(kb(icon_path))),
                    (ValueView::Bytes(kb("id"@)), ValueView::Bytes(kb(id))),
                ],
            ),
        ),
    }
}

/// Appending a new button to the bar of the inlined document.
pub open spec fn spec_add(v: ValueView, id: Seq<char>, btn_type: i64, icon_path: Seq<char>) -> (ValueView, Result<(), NeocomError>) {
    let w = spec_inline(v)->Some_0;
    match bar_list(w) {
        Err(e) => (w, Err(e)),
        Ok(l) => (with_bar_list(w, l.push(new_button(id, btn_type, icon_path))), Ok(())),
    }
}

/// The entries of the baseline, as the reset reads them in an inlined
/// document.
pub open spec fn original_list(w: ValueView) -> Result<Seq<ValueView>, NeocomError> {
    match w {
        ValueView::Dict(top) => match find_key(top, kb("ui"@)) {
            Some(u) => match top[u].1 {
                ValueView::Dict(e) => match find_key(e, kb(original_key())) {
                    Some(o) => match payload_of(e[o].1) {
                        ValueView::List(l) => Ok(l),
                        ValueView::Tuple(l) => Ok(l),
                        _ => Err(NeocomError::NoOriginal),
                    },
                    None => Err(NeocomError::NoOriginal),
                },
                _ => Err(NeocomError::NoUi),
            },
            None => Err(NeocomError::NoUi),
        },
        _ => Err(NeocomError::NoUi),
    }
}

/// Resetting the bar to the baseline: refused before anything changes when
/// the baseline projects no button; the live bar becomes a list of the
/// baseline's entries, whatever the baseline is stored as. The baseline
/// itself is never changed.
pub open spec fn spec_reset(v: ValueView) -> (ValueView, Result<(), NeocomError>) {
    let w = spec_inline(v)->Some_0;
    match spec_project_neocom(w) {
        Err(e) => (v, Err(e)),
        Ok(bar) => if bar.1.len() == 0 {
            (v, Err(NeocomError::NoOriginal))
        } else {
            match original_list(w) {
                Err(e) => (w, Err(e)),
                Ok(o) => match bar_list(w) {
                    Err(e) => (w, Err(e)),
                    Ok(_) => (with_bar_list(w, o), Ok(())),
                },
            }
        },
    }
}

/// The number of buttons the projection shows, or why there is none.
fn projected_count(w: &Value) -> (r: Result<usize, NeocomError>)
    ensures
        match r {
            Ok(n) => spec_project_neocom(w@) is Ok && n == spec_project_neocom(w@)->Ok_0.0.len(),
            Err(e) => spec_project_neocom(w@) == Err::<(Seq<ButtonView>, Seq<ButtonView>), NeocomError>(e),
        },
{
    match project_inlined(w) {
        Ok(bar) => Ok(bar.buttons.len()),
        Err(e) => Err(e),
    }
}

fn check_permutation(order: &[usize], n: usize) -> (r: bool)
    ensures
        r == is_permutation(order@, n as int),
{
    if order.len() != n {
        return false;
    }
    let mut seen: Vec<bool> = Vec::new();
    let mut k: usize = 0;
    while k < n
        invariant
            k <= n,
            seen@.len() == k,
            forall|x: int| 0 <= x < k ==> !(#[trigger] seen@[x]),
        decreases n - k,
    {
        seen.push(false);
        k = k + 1;
    }
    let mut i: usize = 0;
    while i < n
        invariant
            i <= n,
            order@.len() == n,
            seen@.len() == n,
            forall|j: int| 0 <= j < i ==> order@[j] < n,
            forall|a: int, b: int| 0 <= a < b < i ==> order@[a] != order@[b],
            forall|x: int| 0 <= x < n ==> (#[trigger] seen@[x] <==> exists|j: int| 0 <= j < i && order@[j] == x),
        decreases n - i,
    {
        let x = order[i];
        if x >= n {
            return false;
        }
        if seen[x] {
            proof {
                let j = choose|j: int| 0 <= j < i && order@[j] == x;
                assert(order@[j] == order@[i as int]);
            }
            return false;
        }
        seen.set(x, true);
        proof {
            assert forall|y: int| 0 <= y < n implies (#[trigger] seen@[y] <==> exists|j: int| 0 <= j < i + 1 && order@[j] == y) by {
                if y == x {
                    assert(order@[i as int] == y);
                } else {
                    if exists|j: int| 0 <= j < i + 1 && order@[j] == y {
                        let j = choose|j: int| 0 <= j < i + 1 && order@[j] == y;
                        assert(j != i);
                    }
                }
            }
            assert forall|a: int, b: int| 0 <= a < b < i + 1 implies order@[a] != order@[b] by {
                if b == i {
                    if order@[a] == order@[b] {
                        assert(seen@[x as int] == false);
                    }
                }
            }
        }
        i = i + 1;
    }
    true
}

/// Reorder the bar by `order`, a permutation of the button indices, as
/// [`spec_reorder`] states it: a rejected order leaves the document exactly
/// as it was.
pub fn reorder(v: &mut Value, order: &[usize]) -> (r: Result<(), NeocomError>)
    requires
        spec_inline(old(v)@) is Some,
    ensures
        (final(v)@, r) == spec_reorder(old(v)@, order@),
{
    let w = crate::reshare::inline(v);
    let n = match projected_count(&w) {
        Ok(n) => n,
        Err(e) => return Err(e),
    };
    if !check_permutation(order, n) {
        return Err(NeocomError::BadOrder);
    }
    *v = w;
    let ghost w0 = v@;
    let mut l: Vec<Value> = Vec::new();
    assert(model_seq(l@) =~= Seq::<ValueView>::empty());
    match swap_bar(v, &mut l) {
        Ok(()) => {},
        Err(e) => return Err(e),
    }
    proof {
        lemma_with_bar_list(w0, Seq::empty(), model_seq(l@));
        lemma_model_seq(l@);
    }
    if l.len() != n {
        let _ = swap_bar(v, &mut l);
        return Err(NeocomError::BadOrder);
    }
    let mut moved: Vec<Value> = Vec::new();
    let mut k: usize = 0;
    while k < order.len()
        invariant
            k <= order@.len(),
            order@.len() == n,
            l@.len() == n,
            is_permutation(order@, n as int),
            moved@.len() == k,
            forall|j: int| 0 <= j < k ==> (#[trigger] moved@[j])@ == l@[order@[j] as int]@,
        decreases order@.len() - k,
    {
        moved.push(crate::reshare::clone_value(&l[order[k]]));
        k = k + 1;
    }
    proof {
        lemma_model_seq(moved@);
        lemma_with_bar_list(w0, Seq::empty(), model_seq(moved@));
        assert(model_seq(moved@) =~= order@.map_values(|i: usize| model_seq(l@)[i as int]));
    }
    let _ = swap_bar(v, &mut moved);
    Ok(())
}

/// Remove button `index`, as [`spec_remove`] states it: an index that does
/// not exist leaves the document exactly as it was.
pub fn remove(v: &mut Value, index: usize) -> (r: Result<(), NeocomError>)
    requires
        spec_inline(old(v)@) is Some,
    ensures
        (final(v)@, r) == spec_remove(old(v)@, index),
{
    let w = crate::reshare::inline(v);
    let n = match projected_count(&w) {
        Ok(n) => n,
        Err(e) => return Err(e),
    };
    if index >= n {
        return Err(NeocomError::BadIndex);
    }
    *v = w;
    let ghost w0 = v@;
    let mut l: Vec<Value> = Vec::new();
    assert(model_seq(l@) =~= Seq::<ValueView>::empty());
    match swap_bar(v, &mut l) {
        Ok(()) => {},
        Err(e) => return Err(e),
    }
    proof {
        lemma_with_bar_list(w0, Seq::empty(), model_seq(l@));
        lemma_model_seq(l@);
    }
    if l.len() != n {
        let _ = swap_bar(v, &mut l);
        return Err(NeocomError::BadIndex);
    }
    let ghost before = l@;
    l.remove(index);
    proof {
        lemma_model_seq(l@);
        assert(model_seq(l@) =~= model_seq(before).remove(index as int));
        lemma_with_bar_list(w0, Seq::empty(), model_seq(l@));
    }
    let _ = swap_bar(v, &mut l);
    Ok(())
}

fn new_button_exec(id: &str, btn_type: i64, icon_path: &str) -> (r: Value)
    ensures
        r@ == new_button(id@, btn_type, icon_path@),
{
    let state = vec![
        (Value::Bytes(slice_to_vec("btnType".as_bytes())), Value::Int(btn_type)),
        (Value::Bytes(slice_to_vec("children".as_bytes())), Value::Nil),
        (Value::Bytes(slice_to_vec("iconPath".as_bytes())), Value::Bytes(slice_to_vec(icon_path.as_bytes()))),
        (Value::Bytes(slice_to_vec("id".as_bytes())), Value::Bytes(slice_to_vec(id.as_bytes()))),
    ];
    proof {
        lemma_model_pairs(state@);
        assert(model_pairs(state@) =~= seq![
            (ValueView::Bytes(kb("btnType"@)), ValueView::Int(btn_type)),
            (ValueView::Bytes(kb("children"@)), ValueView::Nil),
            (ValueView::Bytes(kb("iconPath"@)), ValueView::Bytes(kb(icon_path@))),
            (ValueView::Bytes(kb("id"@)), ValueView::Bytes(kb(id@))),
        ]);
    }
    let class = Value::Bytes(slice_to_vec("utillib.KeyVal".as_bytes()));
    let st = Value::Dict(state);
    let r = Value::Instance { class: Box::new(class), state: Box::new(st) };
    assert(r@ == ValueView::Instance { class: Box::new(class@), state: Box::new(st@) });
    r
}

/// Append a new button to the bar, as [`spec_add`] states it.
pub fn add(v: &mut Value, id: &str, btn_type: i64, icon_path: &str) -> (r: Result<(), NeocomError>)
    requires
        spec_inline(old(v)@) is Some,
    ensures
        (final(v)@, r) == spec_add(old(v)@, id@, btn_type, icon_path@),
{
    let w = crate::reshare::inline(v);
    *v = w;
    let ghost w0 = v@;
    let mut l: Vec<Value> = Vec::new();
    assert(model_seq(l@) =~= Seq::<ValueView>::empty());
    match swap_bar(v, &mut l) {
        Ok(()) => {},
        Err(e) => return Err(e),
    }
    let ghost before = l@;
    let b = new_button_exec(id, btn_type, icon_path);
    l.push(b);
    proof {
        lemma_model_seq(l@);
        lemma_model_seq(before);
        assert(model_seq(l@) =~= model_seq(before).push(new_button(id@, btn_type, icon_path@)));
        lemma_with_bar_list(w0, Seq::empty(), model_seq(l@));
    }
    let _ = swap_bar(v, &mut l);
    Ok(())
}

fn clone_items(l: &Vec<Value>) -> (r: Vec<Value>)
    ensures
        model_seq(r@) == model_seq(l@),
{
    let mut r: Vec<Value> = Vec::new();
    let mut i: usize = 0;
    while i < l.len()
        invariant
            i <= l.len(),
            r@.len() == i,
            forall|j: int| 0 <= j < i ==> (#[trigger] r@[j])@ == l@[j]@,
        decreases l.len() - i,
    {
        r.push(crate::reshare::clone_value(&l[i]));
        i = i + 1;
    }
    proof {
        lemma_model_seq(r@);
        lemma_model_seq(l@);
        assert(model_seq(r@) =~= model_seq(l@));
    }
    r
}

fn original_exec(w: &Value) -> (r: Result<Vec<Value>, NeocomError>)
    ensures
        match r {
            Ok(l) => original_list(w@) == Ok::<Seq<ValueView>, NeocomError>(model_seq(l@)),
            Err(e) => original_list(w@) == Err::<Seq<ValueView>, NeocomError>(e),
        },
{
    let top = match w {
        Value::Dict(top) => top,
        _ => return Err(NeocomError::NoUi),
    };
    proof {
        lemma_model_pairs(top@);
    }
    let u = match find_key_exec(top, "ui".as_bytes()) {
        Some(u) => u,
        None => return Err(NeocomError::NoUi),
    };
    let e = match &top[u].1 {
        Value::Dict(e) => e,
        _ => return Err(NeocomError::NoUi),
    };
    proof {
        lemma_model_pairs(e@);
    }
    let o = match find_key_exec(e, "neocomButtonRawDataOriginal".as_bytes()) {
        Some(o) => o,
        None => return Err(NeocomError::NoOriginal),
    };
    match payload_exec(&e[o].1) {
        Value::List(l) => Ok(clone_items(l)),
        Value::Tuple(l) => Ok(clone_items(l)),
        _ => Err(NeocomError::NoOriginal),
    }
}

/// Reset the bar to the character's baseline, as [`spec_reset`] states it:
/// without a baseline the document is left exactly as it was.
pub fn reset(v: &mut Value) -> (r: Result<(), NeocomError>)
    requires
        spec_inline(old(v)@) is Some,
    ensures
        (final(v)@, r) == spec_reset(old(v)@),
{
    let w = crate::reshare::inline(v);
    match project_inlined(&w) {
        Ok(bar) => {
            if bar.original.len() == 0 {
                return Err(NeocomError::NoOriginal);
            }
        },
        Err(e) => return Err(e),
    }
    *v = w;
    let ghost w0 = v@;
    let mut o = match original_exec(v) {
        Ok(o) => o,
        Err(e) => return Err(e),
    };
    proof {
        lemma_model_seq(o@);
    }
    match swap_bar(v, &mut o) {
        Ok(()) => Ok(()),
        Err(e) => Err(e),
    }
}

} // verus!
