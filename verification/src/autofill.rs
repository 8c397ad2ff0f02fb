//! The remembered-text (autofill) lists of a user file: under
//! `ui -> editHistory -> (timestamp, dict)`, a dict from a UI widget's path
//! (bytes) to the strings the client remembers for it. Reads work on the
//! inlined document, so shared values read as what they share.

use vstd::prelude::*;

use crate::batch::{dict_inner, dict_inner_exec, find_key, find_key_exec};
use crate::container::{list_inner, list_inner_exec, Pairs};
use crate::overview_tabs::kb;
use crate::reshare::spec_inline;
use crate::text::{lossy_text, utf8_lossy};
use crate::value::{lemma_model_pairs, lemma_model_seq, model_pairs, model_seq, Value, ValueView};

verus! {

broadcast use vstd::std_specs::vec::group_vec_axioms;

/// One widget's remembered strings.
pub struct RememberedList {
    pub widget: String,
    pub entries: Vec<String>,
}

/// A remembered list, by view.
pub open spec fn list_view(l: RememberedList) -> (Seq<char>, Seq<Seq<char>>) {
    (l.widget@, l.entries@.map_values(|s: String| s@))
}

/// The value under the bytes key `name`, when there is one.
pub open spec fn child_value(d: Pairs, name: Seq<char>) -> Option<ValueView> {
    match find_key(d, kb(name)) {
        Some(j) => Some(d[j].1),
        None => None,
    }
}

/// The `editHistory` dict of a user document.
pub open spec fn history_of(w: ValueView) -> Option<Pairs> {
    match w {
        ValueView::Dict(root) => match child_value(root, "ui"@) {
            Some(ui) => match dict_inner(ui) {
                Some(u) => match child_value(u, "editHistory"@) {
                    Some(eh) => dict_inner(eh),
                    None => None,
                },
                None => None,
            },
            None => None,
        },
        _ => None,
    }
}

/// A remembered entry as text: text as it is, bytes (the occasional empty
/// entry) read as UTF-8, anything else empty.
pub open spec fn entry_text(v: ValueView) -> Seq<char> {
    match v {
        ValueView::Str(s) => s,
        ValueView::StrUcs2(s) => s,
        ValueView::Bytes(b) => utf8_lossy(b),
        _ => Seq::empty(),
    }
}

/// The lists of `editHistory`, in order: each entry keyed by bytes and
/// holding a list (bare or wrapped); any other entry is skipped.
pub open spec fn remembered(eh: Pairs) -> Seq<(Seq<char>, Seq<Seq<char>>)>
    decreases eh.len(),
{
    if eh.len() == 0 {
        Seq::empty()
    } else {
        let r = remembered(eh.drop_last());
        match (eh.last().0, list_inner(eh.last().1)) {
            (ValueView::Bytes(b), Some(l)) => r.push((utf8_lossy(b), l.map_values(|e: ValueView| entry_text(e)))),
            _ => r,
        }
    }
}

/// The remembered lists of a user document (inlined).
pub open spec fn spec_project_edit_history(w: ValueView) -> Seq<(Seq<char>, Seq<Seq<char>>)> {
    match history_of(w) {
        Some(eh) => remembered(eh),
        None => Seq::empty(),
    }
}

pub(crate) fn child_value_exec<'a>(d: &'a Vec<(Value, Value)>, name: &str) -> (r: Option<&'a Value>)
    ensures
        match r {
            Some(v) => child_value(model_pairs(d@), name@) == Some(v@),
            None => child_value(model_pairs(d@), name@) is None,
        },
{
    proof {
        lemma_model_pairs(d@);
    }
    match find_key_exec(d, name.as_bytes()) {
        Some(j) => Some(&d[j].1),
        None => None,
    }
}

fn entry_string(v: &Value) -> (r: String)
    ensures
        r@ == entry_text(v@),
{
    match v {
        Value::Str(s) => s.clone(),
        Value::StrUcs2(s) => s.clone(),
        Value::Bytes(b) => lossy_text(b.as_slice()),
        _ => String::new(),
    }
}

fn entry_strings(l: &Vec<Value>) -> (r: Vec<String>)
    ensures
        r@.map_values(|s: String| s@) == model_seq(l@).map_values(|e: ValueView| entry_text(e)),
{
    proof {
        lemma_model_seq(l@);
    }
    let mut r: Vec<String> = Vec::new();
    let mut i: usize = 0;
    while i < l.len()
        invariant
            i <= l.len(),
            r@.len() == i,
            model_seq(l@).len() == l@.len(),
            forall|j: int| 0 <= j < l@.len() ==> #[trigger] model_seq(l@)[j] == l@[j]@,
            forall|j: int| 0 <= j < i ==> (#[trigger] r@[j])@ == entry_text(l@[j]@),
        decreases l.len() - i,
    {
        r.push(entry_string(&l[i]));
        i = i + 1;
    }
    assert(r@.map_values(|s: String| s@) =~= model_seq(l@).map_values(|e: ValueView| entry_text(e)));
    r
}

/// The remembered-text lists of a user file, in the file's order, as
/// [`spec_project_edit_history`] states them; a file without an
/// `editHistory` has none.
pub fn project_edit_history(user: &Value) -> (r: Vec<RememberedList>)
    requires
        spec_inline(user@) is Some,
    ensures
        r@.map_values(|l: RememberedList| list_view(l)) == spec_project_edit_history(spec_inline(user@)->Some_0),
{
    let w = crate::reshare::inline(user);
    let mut out: Vec<RememberedList> = Vec::new();
    assert(out@.map_values(|l: RememberedList| list_view(l)) =~= Seq::<(Seq<char>, Seq<Seq<char>>)>::empty());
    let root = match &w {
        Value::Dict(root) => root,
        _ => return out,
    };
    let ui = match child_value_exec(root, "ui") {
        Some(ui) => ui,
        None => return out,
    };
    let u = match dict_inner_exec(ui) {
        Some(u) => u,
        None => return out,
    };
    let eh = match child_value_exec(u, "editHistory") {
        Some(eh) => eh,
        None => return out,
    };
    let d = match dict_inner_exec(eh) {
        Some(d) => d,
        None => return out,
    };
    let ghost m = model_pairs(d@);
    proof {
        lemma_model_pairs(d@);
    }
    let mut i: usize = 0;
    assert(m.take(0) =~= Seq::<(ValueView, ValueView)>::empty());
    while i < d.len()
        invariant
            i <= d.len(),
            m == model_pairs(d@),
            m.len() == d@.len(),
            forall|j: int| 0 <= j < d@.len() ==> #[trigger] m[j] == (d@[j].0@, d@[j].1@),
            out@.map_values(|l: RememberedList| list_view(l)) == remembered(m.take(i as int)),
        decreases d.len() - i,
    {
        assert(m.take(i + 1).drop_last() =~= m.take(i as int));
        assert(m.take(i + 1).last() == m[i as int]);
        match (&d[i].0, list_inner_exec(&d[i].1)) {
            (Value::Bytes(b), Some(l)) => {
                let item = RememberedList { widget: lossy_text(b.as_slice()), entries: entry_strings(l) };
                let ghost before = out@;
                out.push(item);
                proof {
                    assert(out@.map_values(|l: RememberedList| list_view(l)) =~= before.map_values(
                        |l: RememberedList| list_view(l),
                    ).push(list_view(item)));
                }
            },
            _ => {},
        }
        i = i + 1;
    }
    assert(m.take(m.len() as int) =~= m);
    out
}

} // verus!
