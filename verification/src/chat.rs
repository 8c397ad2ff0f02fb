//! The per-channel chat window splits of a user file: the member-list width
//! (`<id>_userlistwidth`) and the input-box height (`chatinputsize_<id>`),
//! both under the root `ui` section, each a `(timestamp, int)` leaf. Read
//! only; reads work on the inlined document.

use vstd::prelude::*;

use crate::autofill::{child_value, child_value_exec};
use crate::batch::{dict_inner, dict_inner_exec};
use crate::container::Pairs;
use crate::discover::{copy_from, ends_with, has_prefix, has_suffix, starts_with, string_of};
use crate::keybinds::{key_string, key_text};
use crate::overview_pack::same_text;
use crate::overview_presets::{
    lemma_text_lt_asymmetric, lemma_text_lt_irreflexive, lemma_text_lt_total, lemma_text_lt_transitive, text_lt,
    text_lt_exec,
};
use crate::parse::chars_of;
use crate::reshare::spec_inline;
use crate::value::{lemma_model_pairs, lemma_model_seq, model_pairs, model_seq, Value, ValueView};

verus! {

broadcast use vstd::std_specs::vec::group_vec_axioms;

/// One chat window's splits.
pub struct ChatPanel {
    /// The window id, e.g. `chatchannel_local`, taken verbatim from the key.
    pub window_id: String,
    /// `None` when the member list was never resized.
    pub userlist_width: Option<i64>,
    pub input_height: Option<i64>,
}

/// A panel, by view.
pub open spec fn panel_view(p: ChatPanel) -> (Seq<char>, Option<i64>, Option<i64>) {
    (p.window_id@, p.userlist_width, p.input_height)
}

pub open spec fn panels_view(s: Seq<ChatPanel>) -> Seq<(Seq<char>, Option<i64>, Option<i64>)> {
    s.map_values(|p: ChatPanel| panel_view(p))
}

/// `_userlistwidth`
pub open spec fn width_suffix() -> Seq<char> {
    seq!['_', 'u', 's', 'e', 'r', 'l', 'i', 's', 't', 'w', 'i', 'd', 't', 'h']
}

/// `chatinputsize_`
pub open spec fn input_prefix() -> Seq<char> {
    seq!['c', 'h', 'a', 't', 'i', 'n', 'p', 'u', 't', 's', 'i', 'z', 'e', '_']
}

/// `chatchannel_`: only chat windows have splits.
pub open spec fn chat_prefix() -> Seq<char> {
    seq!['c', 'h', 'a', 't', 'c', 'h', 'a', 'n', 'n', 'e', 'l', '_']
}

/// What a `ui` key names: a chat window id, and whether the key is its
/// member-list width (else its input height). The width suffix is tried
/// first.
pub open spec fn chat_key(name: Seq<char>) -> Option<(Seq<char>, bool)> {
    let split: Option<(Seq<char>, bool)> = if has_suffix(name, width_suffix()) {
        Some((name.subrange(0, name.len() - width_suffix().len()), true))
    } else if has_prefix(name, input_prefix()) {
        Some((name.skip(input_prefix().len() as int), false))
    } else {
        None
    };
    match split {
        Some((id, w)) => if has_prefix(id, chat_prefix()) {
            Some((id, w))
        } else {
            None
        },
        None => None,
    }
}

/// The integer a leaf holds: the second item of a pair, or a bare value.
pub open spec fn leaf_int(v: ValueView) -> Option<i64> {
    let x = match v {
        ValueView::Tuple(items) => if items.len() == 2 {
            items[1]
        } else {
            v
        },
        _ => v,
    };
    match x {
        ValueView::Int(i) => Some(i),
        _ => None,
    }
}

/// What one `ui` entry says: window id, width (else input height), value.
pub open spec fn chat_hit(e: (ValueView, ValueView)) -> Option<(Seq<char>, bool, i64)> {
    match key_text(e.0) {
        Some(name) => match chat_key(name) {
            Some((id, w)) => match leaf_int(e.1) {
                Some(n) => Some((id, w, n)),
                None => None,
            },
            None => None,
        },
        None => None,
    }
}

/// The first value the entries give window `id`'s width (or input height):
/// a later duplicate never overrides it.
pub open spec fn first_value(s: Pairs, id: Seq<char>, width: bool) -> Option<i64>
    decreases s.len(),
{
    if s.len() == 0 {
        None
    } else {
        match first_value(s.drop_last(), id, width) {
            Some(n) => Some(n),
            None => match chat_hit(s.last()) {
                Some(h) => if h.0 == id && h.1 == width {
                    Some(h.2)
                } else {
                    None
                },
                None => None,
            },
        }
    }
}

/// Window `id` has a split in the entries.
pub open spec fn mentioned(s: Pairs, id: Seq<char>) -> bool {
    first_value(s, id, true) is Some || first_value(s, id, false) is Some
}

/// The panels of a `ui` section: one per window with a split, in window-id
/// order, each with the first value of each split.
pub open spec fn chat_panels(s: Pairs, r: Seq<(Seq<char>, Option<i64>, Option<i64>)>) -> bool {
    &&& forall|a: int, b: int| 0 <= a < b < r.len() ==> text_lt(#[trigger] r[a].0, #[trigger] r[b].0)
    &&& forall|a: int|
        0 <= a < r.len() ==> #[trigger] r[a].1 == first_value(s, r[a].0, true) && r[a].2 == first_value(
            s,
            r[a].0,
            false,
        ) && mentioned(s, r[a].0)
    &&& forall|id: Seq<char>| #[trigger] mentioned(s, id) ==> exists|a: int| 0 <= a < r.len() && r[a].0 == id
}

/// The root `ui` section's entries (bare or wrapped).
pub open spec fn ui_entries(w: ValueView) -> Option<Pairs> {
    match w {
        ValueView::Dict(root) => match child_value(root, "ui"@) {
            Some(u) => dict_inner(u),
            None => None,
        },
        _ => None,
    }
}

fn leaf_int_exec(v: &Value) -> (r: Option<i64>)
    ensures
        r == leaf_int(v@),
{
    let x = match v {
        Value::Tuple(items) => {
            proof {
                lemma_model_seq(items@);
            }
            if items.len() == 2 {
                &items[1]
            } else {
                v
            }
        },
        _ => v,
    };
    match x {
        Value::Int(i) => Some(*i),
        _ => None,
    }
}

fn chat_key_exec(name: &Vec<char>) -> (r: Option<(Vec<char>, bool)>)
    ensures
        match r {
            Some((id, w)) => chat_key(name@) == Some((id@, w)),
            None => chat_key(name@) is None,
        },
{
    let sfx = ['_', 'u', 's', 'e', 'r', 'l', 'i', 's', 't', 'w', 'i', 'd', 't', 'h'];
    let pfx = ['c', 'h', 'a', 't', 'i', 'n', 'p', 'u', 't', 's', 'i', 'z', 'e', '_'];
    let cpx = ['c', 'h', 'a', 't', 'c', 'h', 'a', 'n', 'n', 'e', 'l', '_'];
    assert(sfx@ == width_suffix());
    assert(pfx@ == input_prefix());
    assert(cpx@ == chat_prefix());
    assert(name@.subrange(0, name@.len() as int) =~= name@);
    let (id, w) = if ends_with(name, name.len(), &sfx) {
        (copy_from(name, 0, name.len() - 14), true)
    } else if starts_with(name, &pfx) {
        let id = copy_from(name, 14, name.len());
        assert(id@ =~= name@.skip(14));
        (id, false)
    } else {
        return None;
    };
    if starts_with(&id, &cpx) {
        Some((id, w))
    } else {
        None
    }
}

fn chat_hit_exec(k: &Value, v: &Value) -> (r: Option<(Vec<char>, bool, i64)>)
    ensures
        match r {
            Some((id, w, n)) => chat_hit((k@, v@)) == Some((id@, w, n)),
            None => chat_hit((k@, v@)) is None,
        },
{
    let name = match key_string(k) {
        Some(s) => chars_of(s.as_str()),
        None => return None,
    };
    let (id, w) = match chat_key_exec(&name) {
        Some(x) => x,
        None => return None,
    };
    match leaf_int_exec(v) {
        Some(n) => Some((id, w, n)),
        None => None,
    }
}

/// Panels under construction, by view.
pub open spec fn rows_view(s: Seq<(Vec<char>, Option<i64>, Option<i64>)>) -> Seq<(Seq<char>, Option<i64>, Option<i64>)> {
    s.map_values(|p: (Vec<char>, Option<i64>, Option<i64>)| (p.0@, p.1, p.2))
}

/// One more entry: the first values of the other windows and splits stay.
proof fn lemma_first_value_push(s: Pairs, e: (ValueView, ValueView), id: Seq<char>, width: bool)
    ensures
        first_value(s.push(e), id, width) == match first_value(s, id, width) {
            Some(n) => Some(n),
            None => match chat_hit(e) {
                Some(h) => if h.0 == id && h.1 == width {
                    Some(h.2)
                } else {
                    None
                },
                None => None,
            },
        },
{
    assert(s.push(e).drop_last() =~= s);
}

proof fn lemma_panels_skip(s: Pairs, e: (ValueView, ValueView), r: Seq<(Seq<char>, Option<i64>, Option<i64>)>)
    requires
        chat_panels(s, r),
        chat_hit(e) is None,
    ensures
        chat_panels(s.push(e), r),
{
    assert forall|id: Seq<char>, w: bool| #[trigger] first_value(s.push(e), id, w) == first_value(s, id, w) by {
        lemma_first_value_push(s, e, id, w);
    }
    assert forall|id: Seq<char>| #[trigger] mentioned(s.push(e), id) implies exists|a: int|
        0 <= a < r.len() && r[a].0 == id by {
        assert(mentioned(s, id));
    }
}

/// The panel an entry for an already listed window leaves.
pub open spec fn merged(
    old: (Seq<char>, Option<i64>, Option<i64>),
    width: bool,
    n: i64,
) -> (Seq<char>, Option<i64>, Option<i64>) {
    if width {
        (old.0, if old.1 is Some {
            old.1
        } else {
            Some(n)
        }, old.2)
    } else {
        (old.0, old.1, if old.2 is Some {
            old.2
        } else {
            Some(n)
        })
    }
}

/// The panel an entry for a window not yet listed starts.
pub open spec fn fresh(id: Seq<char>, width: bool, n: i64) -> (Seq<char>, Option<i64>, Option<i64>) {
    if width {
        (id, Some(n), None)
    } else {
        (id, None, Some(n))
    }
}

proof fn lemma_panels_merge(
    s: Pairs,
    e: (ValueView, ValueView),
    r: Seq<(Seq<char>, Option<i64>, Option<i64>)>,
    p: int,
)
    requires
        chat_panels(s, r),
        chat_hit(e) is Some,
        0 <= p < r.len(),
        r[p].0 == chat_hit(e)->Some_0.0,
    ensures
        chat_panels(s.push(e), r.update(p, merged(r[p], chat_hit(e)->Some_0.1, chat_hit(e)->Some_0.2))),
{
    let h = chat_hit(e)->Some_0;
    let r2 = r.update(p, merged(r[p], h.1, h.2));
    assert forall|id: Seq<char>, w: bool| #[trigger] first_value(s.push(e), id, w) == (if id == h.0 && w == h.1
        && first_value(s, id, w) is None {
        Some(h.2)
    } else {
        first_value(s, id, w)
    }) by {
        lemma_first_value_push(s, e, id, w);
    }
    assert forall|a: int, b: int| 0 <= a < b < r2.len() implies text_lt(#[trigger] r2[a].0, #[trigger] r2[b].0) by {
        assert(r2[a].0 == r[a].0 && r2[b].0 == r[b].0);
        assert(text_lt(r[a].0, r[b].0));
    }
    assert forall|a: int| 0 <= a < r2.len() implies #[trigger] r2[a].1 == first_value(s.push(e), r2[a].0, true)
        && r2[a].2 == first_value(s.push(e), r2[a].0, false) && mentioned(s.push(e), r2[a].0) by {
        assert(r[a].1 == first_value(s, r[a].0, true));
        if a != p {
            if r[a].0 == h.0 {
                lemma_text_lt_irreflexive(h.0);
                if a < p {
                    assert(text_lt(r[a].0, r[p].0));
                } else {
                    assert(text_lt(r[p].0, r[a].0));
                }
            }
        }
    }
    assert forall|id: Seq<char>| #[trigger] mentioned(s.push(e), id) implies exists|a: int|
        0 <= a < r2.len() && r2[a].0 == id by {
        if mentioned(s, id) {
            let a = choose|a: int| 0 <= a < r.len() && r[a].0 == id;
            assert(r2[a].0 == id);
        } else {
            assert(id == h.0);
            assert(r2[p].0 == id);
        }
    }
}

proof fn lemma_panels_insert(
    s: Pairs,
    e: (ValueView, ValueView),
    r: Seq<(Seq<char>, Option<i64>, Option<i64>)>,
    p: int,
)
    requires
        chat_panels(s, r),
        chat_hit(e) is Some,
        0 <= p <= r.len(),
        forall|a: int| 0 <= a < p ==> text_lt(#[trigger] r[a].0, chat_hit(e)->Some_0.0),
        p < r.len() ==> text_lt(chat_hit(e)->Some_0.0, r[p].0),
    ensures
        chat_panels(s.push(e), r.insert(p, fresh(chat_hit(e)->Some_0.0, chat_hit(e)->Some_0.1, chat_hit(e)->Some_0.2))),
{
    let h = chat_hit(e)->Some_0;
    let x = fresh(h.0, h.1, h.2);
    let r2 = r.insert(p, x);
    assert forall|b: int| p <= b < r.len() implies text_lt(h.0, #[trigger] r[b].0) by {
        if b > p {
            assert(text_lt(r[p].0, r[b].0));
            lemma_text_lt_transitive(h.0, r[p].0, r[b].0);
        }
    }
    assert forall|a: int| 0 <= a < r.len() implies #[trigger] r[a].0 != h.0 by {
        lemma_text_lt_irreflexive(h.0);
    }
    assert(!mentioned(s, h.0)) by {
        if mentioned(s, h.0) {
            let a = choose|a: int| 0 <= a < r.len() && r[a].0 == h.0;
            assert(r[a].0 != h.0);
        }
    }
    assert forall|id: Seq<char>, w: bool| #[trigger] first_value(s.push(e), id, w) == (if id == h.0 && w == h.1
        && first_value(s, id, w) is None {
        Some(h.2)
    } else {
        first_value(s, id, w)
    }) by {
        lemma_first_value_push(s, e, id, w);
    }
    assert forall|a: int, b: int| 0 <= a < b < r2.len() implies text_lt(#[trigger] r2[a].0, #[trigger] r2[b].0) by {
        if b < p {
            assert(text_lt(r[a].0, r[b].0));
        } else if b == p {
            assert(text_lt(r[a].0, h.0));
        } else if a < p {
            assert(r2[b].0 == r[b - 1].0);
            assert(text_lt(r[a].0, h.0));
            assert(text_lt(h.0, r[b - 1].0));
            lemma_text_lt_transitive(r[a].0, h.0, r[b - 1].0);
        } else if a == p {
            assert(text_lt(h.0, r[b - 1].0));
        } else {
            assert(text_lt(r[a - 1].0, r[b - 1].0));
        }
    }
    assert forall|a: int| 0 <= a < r2.len() implies #[trigger] r2[a].1 == first_value(s.push(e), r2[a].0, true)
        && r2[a].2 == first_value(s.push(e), r2[a].0, false) && mentioned(s.push(e), r2[a].0) by {
        if a < p {
            assert(r2[a] == r[a]);
            assert(r[a].1 == first_value(s, r[a].0, true));
        } else if a > p {
            assert(r2[a] == r[a - 1]);
            assert(r[a - 1].1 == first_value(s, r[a - 1].0, true));
        }
    }
    assert forall|id: Seq<char>| #[trigger] mentioned(s.push(e), id) implies exists|a: int|
        0 <= a < r2.len() && r2[a].0 == id by {
        if mentioned(s, id) {
            let a = choose|a: int| 0 <= a < r.len() && r[a].0 == id;
            if a < p {
                assert(r2[a].0 == id);
            } else {
                assert(r2[a + 1].0 == id);
            }
        } else {
            assert(id == h.0);
            assert(r2[p].0 == id);
        }
    }
}

/// Where window `id` goes among sorted panels: past every panel before it.
fn find_slot(panels: &Vec<(Vec<char>, Option<i64>, Option<i64>)>, id: &Vec<char>) -> (p: usize)
    ensures
        p <= panels@.len(),
        forall|a: int| 0 <= a < p ==> text_lt(#[trigger] rows_view(panels@)[a].0, id@),
        p < panels@.len() ==> !text_lt(rows_view(panels@)[p as int].0, id@),
{
    let mut p: usize = 0;
    while p < panels.len()
        invariant
            p <= panels@.len(),
            forall|a: int| 0 <= a < p ==> text_lt(#[trigger] rows_view(panels@)[a].0, id@),
        decreases panels@.len() - p,
    {
        if !text_lt_exec(&panels[p].0, id) {
            return p;
        }
        p = p + 1;
    }
    p
}

/// The chat panels of a user document, as [`chat_panels`] states them for
/// its (inlined) `ui` section; none when it has no such section.
pub fn project_chat(user_root: &Value) -> (r: Vec<ChatPanel>)
    requires
        spec_inline(user_root@) is Some,
    ensures
        match ui_entries(spec_inline(user_root@)->Some_0) {
            Some(s) => chat_panels(s, panels_view(r@)),
            None => r@.len() == 0,
        },
{
    let w = crate::reshare::inline(user_root);
    let root = match &w {
        Value::Dict(root) => root,
        _ => return Vec::new(),
    };
    let ui = match child_value_exec(root, "ui") {
        Some(u) => u,
        None => return Vec::new(),
    };
    let t = match dict_inner_exec(ui) {
        Some(t) => t,
        None => return Vec::new(),
    };
    let ghost s = model_pairs(t@);
    proof {
        lemma_model_pairs(t@);
        assert(s.take(0) =~= Seq::<(ValueView, ValueView)>::empty());
        assert forall|id: Seq<char>, w: bool| #[trigger] first_value(s.take(0), id, w) is None by {}
    }
    let mut panels: Vec<(Vec<char>, Option<i64>, Option<i64>)> = Vec::new();
    assert(rows_view(panels@) =~= Seq::<(Seq<char>, Option<i64>, Option<i64>)>::empty());
    let mut i: usize = 0;
    while i < t.len()
        invariant
            i <= t@.len(),
            s == model_pairs(t@),
            s.len() == t@.len(),
            forall|j: int| 0 <= j < t@.len() ==> #[trigger] s[j] == (t@[j].0@, t@[j].1@),
            chat_panels(s.take(i as int), rows_view(panels@)),
        decreases t@.len() - i,
    {
        let ghost before = rows_view(panels@);
        let ghost e = s[i as int];
        assert(s.take(i + 1) =~= s.take(i as int).push(e));
        assert(e == (t@[i as int].0@, t@[i as int].1@));
        match chat_hit_exec(&t[i].0, &t[i].1) {
            None => {
                proof {
                    lemma_panels_skip(s.take(i as int), e, before);
                }
            },
            Some((id, width, n)) => {
                let p = find_slot(&panels, &id);
                if p < panels.len() && same_text(&panels[p].0, &id) {
                    let (k, a, b) = panels.remove(p);
                    let (na, nb) = if width {
                        (if a.is_some() {
                            a
                        } else {
                            Some(n)
                        }, b)
                    } else {
                        (a, if b.is_some() {
                            b
                        } else {
                            Some(n)
                        })
                    };
                    panels.insert(p, (k, na, nb));
                    proof {
                        lemma_panels_merge(s.take(i as int), e, before, p as int);
                        assert(rows_view(panels@) =~= before.update(p as int, merged(before[p as int], width, n)));
                    }
                } else {
                    proof {
                        if p < panels@.len() {
                            lemma_text_lt_total(before[p as int].0, id@);
                        }
                    }
                    let (na, nb) = if width {
                        (Some(n), None)
                    } else {
                        (None, Some(n))
                    };
                    let ghost idv = id@;
                    panels.insert(p, (id, na, nb));
                    proof {
                        lemma_panels_insert(s.take(i as int), e, before, p as int);
                        assert(rows_view(panels@) =~= before.insert(p as int, fresh(idv, width, n)));
                    }
                }
            },
        }
        i = i + 1;
    }
    assert(s.take(s.len() as int) =~= s);
    let mut out: Vec<ChatPanel> = Vec::new();
    let mut k: usize = 0;
    while k < panels.len()
        invariant
            k <= panels@.len(),
            panels_view(out@) == rows_view(panels@).take(k as int),
        decreases panels@.len() - k,
    {
        let window_id = string_of(&panels[k].0);
        let ghost before = out@;
        out.push(ChatPanel { window_id, userlist_width: panels[k].1, input_height: panels[k].2 });
        assert(panels_view(out@) =~= panels_view(before).push(rows_view(panels@)[k as int]));
        assert(rows_view(panels@).take(k + 1) =~= rows_view(panels@).take(k as int).push(rows_view(panels@)[k as int]));
        k = k + 1;
    }
    assert(rows_view(panels@).take(panels@.len() as int) =~= rows_view(panels@));
    out
}

// ---------------------------------------------------------------------------
// Laws.
// ---------------------------------------------------------------------------

proof fn lemma_same_ids_upto(
    s: Pairs,
    r1: Seq<(Seq<char>, Option<i64>, Option<i64>)>,
    r2: Seq<(Seq<char>, Option<i64>, Option<i64>)>,
    a: int,
)
    requires
        chat_panels(s, r1),
        chat_panels(s, r2),
        0 <= a < r1.len(),
        a < r2.len(),
    ensures
        forall|x: int| 0 <= x <= a ==> #[trigger] r1[x].0 == r2[x].0,
    decreases a,
{
    if a > 0 {
        lemma_same_ids_upto(s, r1, r2, a - 1);
    }
    let id1 = r1[a].0;
    let id2 = r2[a].0;
    assert(r1[a].1 == first_value(s, id1, true));
    assert(r2[a].1 == first_value(s, id2, true));
    let b = choose|b: int| 0 <= b < r2.len() && r2[b].0 == id1;
    let c = choose|c: int| 0 <= c < r1.len() && r1[c].0 == id2;
    lemma_text_lt_irreflexive(id1);
    lemma_text_lt_irreflexive(id2);
    if b < a {
        assert(r1[b].0 == r2[b].0);
        assert(text_lt(r1[b].0, r1[a].0));
    }
    if c < a {
        assert(r1[c].0 == r2[c].0);
        assert(text_lt(r2[c].0, r2[a].0));
    }
    if b > a && c > a {
        assert(text_lt(r2[a].0, r2[b].0));
        assert(text_lt(r1[a].0, r1[c].0));
        lemma_text_lt_asymmetric(id1, id2);
    }
}

/// The panels are determined by the section alone: two lists that both
/// meet [`chat_panels`] for the same entries are the same list.
pub proof fn lemma_chat_panels_unique(
    s: Pairs,
    r1: Seq<(Seq<char>, Option<i64>, Option<i64>)>,
    r2: Seq<(Seq<char>, Option<i64>, Option<i64>)>,
)
    requires
        chat_panels(s, r1),
        chat_panels(s, r2),
    ensures
        r1 == r2,
{
    let n = if r1.len() < r2.len() {
        r1.len()
    } else {
        r2.len()
    };
    if n > 0 {
        lemma_same_ids_upto(s, r1, r2, n - 1);
    }
    if r1.len() > r2.len() {
        let id = r1[n as int].0;
        assert(r1[n as int].1 == first_value(s, id, true));
        let b = choose|b: int| 0 <= b < r2.len() && r2[b].0 == id;
        assert(r1[b].0 == r2[b].0);
        assert(text_lt(r1[b].0, r1[n as int].0));
        lemma_text_lt_irreflexive(id);
    }
    if r2.len() > r1.len() {
        let id = r2[n as int].0;
        assert(r2[n as int].1 == first_value(s, id, true));
        let b = choose|b: int| 0 <= b < r1.len() && r1[b].0 == id;
        assert(r1[b].0 == r2[b].0);
        assert(text_lt(r2[b].0, r2[n as int].0));
        lemma_text_lt_irreflexive(id);
    }
    assert forall|a: int| 0 <= a < r1.len() implies r1[a] == r2[a] by {
        assert(r1[a].0 == r2[a].0);
        assert(r1[a].1 == first_value(s, r1[a].0, true));
        assert(r2[a].1 == first_value(s, r2[a].0, true));
    }
    assert(r1 =~= r2);
}

} // verus!
