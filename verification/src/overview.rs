//! The overview columns of each overview tab: which columns a tab shows, in
//! which order, and how wide. Visibility and order live in the user file,
//! per tab, with the tab's preset as the fallback; widths live in the
//! character file under `ui -> SortHeadersSizes`, keyed by
//! `(overviewScroll2, tab index)`. Reads work on the inlined documents.

use vstd::prelude::*;
use vstd::string::StringExecFns;

use crate::autofill::{child_value, child_value_exec};
use crate::batch::{dict_inner, dict_inner_exec, is_bytes, spec_is_bytes};
use crate::container::{int_of, list_inner, list_inner_exec, Pairs};
use crate::discover::{copy_from, string_of};
use crate::overview_pack::same_text;
use crate::overview_presets::{lowercase, lowercase_text, text_of, text_of_exec};
use crate::overview_tabs::{find_int, find_int_exec, kb, overview_of};
use crate::batch::{find_key, find_key_exec};
use crate::mutate::replace_at;
use crate::parse::{chars_of, decimal, decimal_text};
use crate::path::{resolve, spec_replace, spec_resolve, Step};
use crate::reshare::{collect, collect_into, spec_inline, table_get, table_lookup, table_view};
use crate::text::{lossy_text, utf8_lossy};
use crate::value::{lemma_model_pairs, lemma_model_seq, model_pairs, model_seq, Value, ValueView};

verus! {

broadcast use vstd::std_specs::vec::group_vec_axioms;

/// The overview's windows and tabs.
pub struct OverviewColumns {
    pub windows: Vec<OverviewWindow>,
    pub tabs: Vec<OverviewTab>,
}

/// One overview window and the tab indices it shows, in order.
pub struct OverviewWindow {
    /// Its position in `tabsByWindowInstanceID`.
    pub index: usize,
    pub tab_indices: Vec<i64>,
}

/// One tab and its columns.
pub struct OverviewTab {
    pub index: i64,
    pub name: String,
    /// The tab does not own both column lists: what it lacks comes from its
    /// preset.
    pub inherits: bool,
    pub columns: Vec<OverviewColumn>,
}

/// One column of a tab.
pub struct OverviewColumn {
    /// The column token as stored, e.g. `DISTANCE`.
    pub name: String,
    /// The token in title case, e.g. `Distance`.
    pub label: String,
    pub visible: bool,
    /// The width the character file gives it, if any.
    pub width: Option<i64>,
}

/// Why a column edit was refused.
#[derive(Debug, PartialEq, Eq)]
pub enum OverviewError {
    /// No such tab, or no place to write.
    NoTab,
}

// ---------------------------------------------------------------------------
// Views.
// ---------------------------------------------------------------------------

pub type ColumnView = (Seq<char>, Seq<char>, bool, Option<i64>);

pub type TabView = (i64, Seq<char>, bool, Seq<ColumnView>);

pub open spec fn column_view(c: OverviewColumn) -> ColumnView {
    (c.name@, c.label@, c.visible, c.width)
}

pub open spec fn columns_view(s: Seq<OverviewColumn>) -> Seq<ColumnView> {
    s.map_values(|c: OverviewColumn| column_view(c))
}

pub open spec fn tab_view(t: OverviewTab) -> TabView {
    (t.index, t.name@, t.inherits, columns_view(t.columns@))
}

pub open spec fn window_view(w: OverviewWindow) -> (nat, Seq<i64>) {
    (w.index as nat, w.tab_indices@)
}

pub open spec fn columns_of_view(c: OverviewColumns) -> (Seq<(nat, Seq<i64>)>, Seq<TabView>) {
    (c.windows@.map_values(|w: OverviewWindow| window_view(w)), c.tabs@.map_values(|t: OverviewTab| tab_view(t)))
}

// ---------------------------------------------------------------------------
// What is read.
// ---------------------------------------------------------------------------

/// A column token: bytes read as UTF-8.
pub open spec fn token(v: ValueView) -> Option<Seq<char>> {
    match v {
        ValueView::Bytes(b) => Some(utf8_lossy(b)),
        _ => None,
    }
}

/// The tokens among `l`, in order (other items skipped).
pub open spec fn tokens(l: Seq<ValueView>) -> Seq<Seq<char>>
    decreases l.len(),
{
    if l.len() == 0 {
        Seq::empty()
    } else {
        match token(l.last()) {
            Some(t) => tokens(l.drop_last()).push(t),
            None => tokens(l.drop_last()),
        }
    }
}

/// The integers among `l`, in order (other items skipped).
pub open spec fn ints(l: Seq<ValueView>) -> Seq<i64>
    decreases l.len(),
{
    if l.len() == 0 {
        Seq::empty()
    } else {
        match int_of(l.last()) {
            Some(i) => ints(l.drop_last()).push(i),
            None => ints(l.drop_last()),
        }
    }
}

/// The token list under `name` in `d` (bare or wrapped), if there is one.
pub open spec fn token_list(d: Pairs, name: Seq<char>) -> Option<Seq<Seq<char>>> {
    match child_value(d, name) {
        Some(v) => match list_inner(v) {
            Some(l) => Some(tokens(l)),
            None => None,
        },
        None => None,
    }
}

/// The windows of `tabsByWindowInstanceID`: each item that is a list (bare
/// or wrapped), with its position and its integers.
pub open spec fn window_rows(outer: Seq<ValueView>) -> Seq<(nat, Seq<i64>)>
    decreases outer.len(),
{
    if outer.len() == 0 {
        Seq::empty()
    } else {
        match list_inner(outer.last()) {
            Some(l) => window_rows(outer.drop_last()).push(((outer.len() - 1) as nat, ints(l))),
            None => window_rows(outer.drop_last()),
        }
    }
}

pub open spec fn spec_windows(ov: Pairs) -> Seq<(nat, Seq<i64>)> {
    match child_value(ov, "tabsByWindowInstanceID"@) {
        Some(v) => match list_inner(v) {
            Some(o) => window_rows(o),
            None => Seq::empty(),
        },
        None => Seq::empty(),
    }
}

/// The tab dict: `tabsettings_new` when it holds one, else `tabsettings`.
pub open spec fn tab_dict_of(ov: Pairs) -> Option<Pairs> {
    match child_value(ov, "tabsettings_new"@) {
        Some(v) if dict_inner(v) is Some => dict_inner(v),
        _ => match child_value(ov, "tabsettings"@) {
            Some(v) => dict_inner(v),
            None => None,
        },
    }
}

/// The tab-name key: `name` as text, or its string-table token.
pub open spec fn is_name(k: ValueView) -> bool {
    k == ValueView::Str("name"@) || k == ValueView::StrUcs2("name"@) || k == ValueView::StrTable(52)
}

/// The first text held under a tab-name key.
pub open spec fn name_in(f: Pairs) -> Option<Seq<char>>
    decreases f.len(),
{
    if f.len() == 0 {
        None
    } else {
        match name_in(f.drop_last()) {
            Some(n) => Some(n),
            None => if is_name(f.last().0) {
                text_of(f.last().1)
            } else {
                None
            },
        }
    }
}

/// `Tab <index>`: the name of a tab that has none.
pub open spec fn default_tab_name(i: i64) -> Seq<char> {
    "Tab "@ + decimal_text(i as int)
}

/// The columns of the tab's preset (its `overview` field names it), as both
/// the order and the visible list; empty when anything is missing.
pub open spec fn preset_cols(f: Pairs, ov: Pairs) -> Seq<Seq<char>> {
    let found: Option<Seq<Seq<char>>> = match child_value(f, "overview"@) {
        Some(p) => match token(p) {
            Some(name) => match child_value(ov, "overviewProfilePresets"@) {
                Some(ps) => match dict_inner(ps) {
                    Some(presets) => match child_value(presets, name) {
                        Some(pv) => match dict_inner(pv) {
                            Some(preset) => token_list(preset, "overviewColumns"@),
                            None => None,
                        },
                        None => None,
                    },
                    None => None,
                },
                None => None,
            },
            None => None,
        },
        None => None,
    };
    match found {
        Some(c) => c,
        None => Seq::empty(),
    }
}

/// The order list, then each visible token it lacks, in visible order.
pub open spec fn ordered(order: Seq<Seq<char>>, visible: Seq<Seq<char>>) -> Seq<Seq<char>>
    decreases visible.len(),
{
    if visible.len() == 0 {
        order
    } else {
        let o = ordered(order, visible.drop_last());
        if o.contains(visible.last()) {
            o
        } else {
            o.push(visible.last())
        }
    }
}

/// The width dict key of tab `idx`: `(overviewScroll2, idx)`.
pub open spec fn is_width_key(k: ValueView, idx: i64) -> bool {
    k matches ValueView::Tuple(items) && items.len() == 2 && spec_is_bytes(items[0], kb("overviewScroll2"@))
        && items[1] == ValueView::Int(idx)
}

/// The first entry at or after `i` keyed by tab `idx`'s width key.
pub open spec fn width_key_from(s: Pairs, idx: i64, i: int) -> Option<int>
    decreases s.len() - i,
{
    if i < 0 || i >= s.len() {
        None
    } else if is_width_key(s[i].0, idx) {
        Some(i)
    } else {
        width_key_from(s, idx, i + 1)
    }
}

/// Tab `idx`'s width entries in a character document.
pub open spec fn widths_of(c: ValueView, idx: i64) -> Option<Pairs> {
    match c {
        ValueView::Dict(root) => match child_value(root, "ui"@) {
            Some(u) => match dict_inner(u) {
                Some(ui) => match child_value(ui, "SortHeadersSizes"@) {
                    Some(sv) => match dict_inner(sv) {
                        Some(sizes) => match width_key_from(sizes, idx, 0) {
                            Some(j) => dict_inner(sizes[j].1),
                            None => None,
                        },
                        None => None,
                    },
                    None => None,
                },
                None => None,
            },
            None => None,
        },
        _ => None,
    }
}

/// The width of `tok`: the last entry keyed by it that holds an integer.
pub open spec fn width_in(e: Pairs, tok: Seq<char>) -> Option<i64>
    decreases e.len(),
{
    if e.len() == 0 {
        None
    } else if token(e.last().0) == Some(tok) && int_of(e.last().1) is Some {
        int_of(e.last().1)
    } else {
        width_in(e.drop_last(), tok)
    }
}

pub open spec fn column_width(c: Option<ValueView>, idx: i64, tok: Seq<char>) -> Option<i64> {
    match c {
        Some(c) => match widths_of(c, idx) {
            Some(e) => width_in(e, tok),
            None => None,
        },
        None => None,
    }
}

/// What `char::to_uppercase` makes of `c`, collected into text.
pub uninterp spec fn uppercase(c: char) -> Seq<char>;

/// `char::to_uppercase`, collected into a `String`: the uppercase form of
/// `c` under Unicode's case mapping, one or more characters. The result
/// depends on `c` alone; nothing more is stated.
#[verifier::external_body]
fn uppercase_text(c: char) -> (r: String)
    ensures
        r@ == uppercase(c),
{
    c.to_uppercase().collect()
}

/// The label of a token: its first character upper-cased, the rest
/// lower-cased.
pub open spec fn prettify(tok: Seq<char>) -> Seq<char> {
    if tok.len() == 0 {
        Seq::empty()
    } else {
        uppercase(tok[0]) + lowercase(tok.skip(1))
    }
}

/// One tab, when its key is an index and its value a dict.
pub open spec fn spec_tab(k: ValueView, v: ValueView, ov: Pairs, c: Option<ValueView>) -> Option<TabView> {
    match (int_of(k), dict_inner(v)) {
        (Some(idx), Some(f)) => {
            let name = match name_in(f) {
                Some(n) => n,
                None => default_tab_name(idx),
            };
            let own_order = token_list(f, "tabColumnOrder"@);
            let own_visible = token_list(f, "tabColumns"@);
            let def = preset_cols(f, ov);
            let order = match own_order {
                Some(o) => o,
                None => def,
            };
            let visible = match own_visible {
                Some(o) => o,
                None => def,
            };
            Some(
                (
                    idx,
                    name,
                    own_order is None || own_visible is None,
                    ordered(order, visible).map_values(
                        |tok: Seq<char>| (tok, prettify(tok), visible.contains(tok), column_width(c, idx, tok)),
                    ),
                ),
            )
        },
        _ => None,
    }
}

pub open spec fn tab_rows(d: Pairs, ov: Pairs, c: Option<ValueView>) -> Seq<TabView>
    decreases d.len(),
{
    if d.len() == 0 {
        Seq::empty()
    } else {
        match spec_tab(d.last().0, d.last().1, ov, c) {
            Some(t) => tab_rows(d.drop_last(), ov, c).push(t),
            None => tab_rows(d.drop_last(), ov, c),
        }
    }
}

/// The overview columns of an (inlined) user document, with widths from an
/// (inlined) character document when there is one.
pub open spec fn spec_project_overview(w: ValueView, c: Option<ValueView>) -> (Seq<(nat, Seq<i64>)>, Seq<TabView>) {
    match overview_of(w) {
        Some(ov) => (
            spec_windows(ov),
            match tab_dict_of(ov) {
                Some(d) => tab_rows(d, ov, c),
                None => Seq::empty(),
            },
        ),
        None => (Seq::empty(), Seq::empty()),
    }
}

// ---------------------------------------------------------------------------
// Reading.
// ---------------------------------------------------------------------------

pub open spec fn texts_view(s: Seq<Vec<char>>) -> Seq<Seq<char>> {
    s.map_values(|t: Vec<char>| t@)
}

fn token_exec(v: &Value) -> (r: Option<Vec<char>>)
    ensures
        match r {
            Some(t) => token(v@) == Some(t@),
            None => token(v@) is None,
        },
{
    match v {
        Value::Bytes(b) => {
            let s = lossy_text(b.as_slice());
            Some(chars_of(s.as_str()))
        },
        _ => None,
    }
}

fn tokens_exec(l: &Vec<Value>) -> (r: Vec<Vec<char>>)
    ensures
        texts_view(r@) == tokens(model_seq(l@)),
{
    let ghost m = model_seq(l@);
    proof {
        lemma_model_seq(l@);
    }
    let mut out: Vec<Vec<char>> = Vec::new();
    let mut i: usize = 0;
    assert(m.take(0) =~= Seq::<ValueView>::empty());
    assert(texts_view(out@) =~= Seq::<Seq<char>>::empty());
    while i < l.len()
        invariant
            i <= l@.len(),
            m == model_seq(l@),
            m.len() == l@.len(),
            forall|j: int| 0 <= j < l@.len() ==> #[trigger] m[j] == l@[j]@,
            texts_view(out@) == tokens(m.take(i as int)),
        decreases l@.len() - i,
    {
        assert(m.take(i + 1).drop_last() =~= m.take(i as int));
        assert(m.take(i + 1).last() == m[i as int]);
        match token_exec(&l[i]) {
            Some(t) => {
                let ghost before = out@;
                out.push(t);
                assert(texts_view(out@) =~= texts_view(before).push(t@));
            },
            None => {},
        }
        i = i + 1;
    }
    assert(m.take(m.len() as int) =~= m);
    out
}

fn ints_exec(l: &Vec<Value>) -> (r: Vec<i64>)
    ensures
        r@ == ints(model_seq(l@)),
{
    let ghost m = model_seq(l@);
    proof {
        lemma_model_seq(l@);
    }
    let mut out: Vec<i64> = Vec::new();
    let mut i: usize = 0;
    assert(m.take(0) =~= Seq::<ValueView>::empty());
    while i < l.len()
        invariant
            i <= l@.len(),
            m == model_seq(l@),
            m.len() == l@.len(),
            forall|j: int| 0 <= j < l@.len() ==> #[trigger] m[j] == l@[j]@,
            out@ == ints(m.take(i as int)),
        decreases l@.len() - i,
    {
        assert(m.take(i + 1).drop_last() =~= m.take(i as int));
        assert(m.take(i + 1).last() == m[i as int]);
        match &l[i] {
            Value::Int(x) => out.push(*x),
            _ => {},
        }
        i = i + 1;
    }
    assert(m.take(m.len() as int) =~= m);
    out
}

fn token_list_exec(d: &Vec<(Value, Value)>, name: &str) -> (r: Option<Vec<Vec<char>>>)
    ensures
        match r {
            Some(t) => token_list(model_pairs(d@), name@) == Some(texts_view(t@)),
            None => token_list(model_pairs(d@), name@) is None,
        },
{
    let v = match child_value_exec(d, name) {
        Some(v) => v,
        None => return None,
    };
    match list_inner_exec(v) {
        Some(l) => Some(tokens_exec(l)),
        None => None,
    }
}

fn windows_exec(ov: &Vec<(Value, Value)>) -> (r: Vec<OverviewWindow>)
    ensures
        r@.map_values(|w: OverviewWindow| window_view(w)) == spec_windows(model_pairs(ov@)),
{
    let mut out: Vec<OverviewWindow> = Vec::new();
    assert(out@.map_values(|w: OverviewWindow| window_view(w)) =~= Seq::<(nat, Seq<i64>)>::empty());
    let v = match child_value_exec(ov, "tabsByWindowInstanceID") {
        Some(v) => v,
        None => return out,
    };
    let outer = match list_inner_exec(v) {
        Some(o) => o,
        None => return out,
    };
    let ghost m = model_seq(outer@);
    proof {
        lemma_model_seq(outer@);
    }
    let mut i: usize = 0;
    assert(m.take(0) =~= Seq::<ValueView>::empty());
    while i < outer.len()
        invariant
            i <= outer@.len(),
            m == model_seq(outer@),
            m.len() == outer@.len(),
            forall|j: int| 0 <= j < outer@.len() ==> #[trigger] m[j] == outer@[j]@,
            out@.map_values(|w: OverviewWindow| window_view(w)) == window_rows(m.take(i as int)),
        decreases outer@.len() - i,
    {
        assert(m.take(i + 1).drop_last() =~= m.take(i as int));
        assert(m.take(i + 1).last() == m[i as int]);
        assert(m.take(i + 1).len() == i + 1);
        match list_inner_exec(&outer[i]) {
            Some(l) => {
                let w = OverviewWindow { index: i, tab_indices: ints_exec(l) };
                let ghost before = out@;
                out.push(w);
                assert(out@.map_values(|w: OverviewWindow| window_view(w)) =~= before.map_values(
                    |w: OverviewWindow| window_view(w),
                ).push(window_view(w)));
            },
            None => {},
        }
        i = i + 1;
    }
    assert(m.take(m.len() as int) =~= m);
    out
}

fn tab_dict_exec(ov: &Vec<(Value, Value)>) -> (r: Option<&Vec<(Value, Value)>>)
    ensures
        match r {
            Some(d) => tab_dict_of(model_pairs(ov@)) == Some(model_pairs(d@)),
            None => tab_dict_of(model_pairs(ov@)) is None,
        },
{
    match child_value_exec(ov, "tabsettings_new") {
        Some(v) => match dict_inner_exec(v) {
            Some(d) => return Some(d),
            None => {},
        },
        None => {},
    }
    match child_value_exec(ov, "tabsettings") {
        Some(v) => dict_inner_exec(v),
        None => None,
    }
}

fn is_name_exec(k: &Value) -> (r: bool)
    ensures
        r == is_name(k@),
{
    let r = match k {
        Value::Str(s) => crate::overview_tabs::text_is(s, "name"),
        Value::StrUcs2(s) => crate::overview_tabs::text_is(s, "name"),
        Value::StrTable(t) => *t == 52,
        _ => false,
    };
    r
}

fn name_in_exec(f: &Vec<(Value, Value)>) -> (r: Option<String>)
    ensures
        match r {
            Some(n) => name_in(model_pairs(f@)) == Some(n@),
            None => name_in(model_pairs(f@)) is None,
        },
{
    let ghost m = model_pairs(f@);
    proof {
        lemma_model_pairs(f@);
    }
    let mut i: usize = 0;
    assert(m.take(0) =~= Seq::<(ValueView, ValueView)>::empty());
    while i < f.len()
        invariant
            i <= f@.len(),
            m == model_pairs(f@),
            m.len() == f@.len(),
            forall|j: int| 0 <= j < f@.len() ==> #[trigger] m[j] == (f@[j].0@, f@[j].1@),
            name_in(m.take(i as int)) is None,
        decreases f@.len() - i,
    {
        assert(m.take(i + 1).drop_last() =~= m.take(i as int));
        assert(m.take(i + 1).last() == m[i as int]);
        if is_name_exec(&f[i].0) {
            match text_of_exec(&f[i].1) {
                Some(n) => {
                    proof {
                        lemma_name_in_prefix(m, i + 1);
                    }
                    return Some(n);
                },
                None => {},
            }
        }
        i = i + 1;
    }
    assert(m.take(m.len() as int) =~= m);
    None
}

/// A prefix's name is the whole sequence's name.
proof fn lemma_name_in_prefix(m: Pairs, n: int)
    requires
        0 <= n <= m.len(),
        name_in(m.take(n)) is Some,
    ensures
        name_in(m) == name_in(m.take(n)),
    decreases m.len() - n,
{
    if n < m.len() {
        assert(m.take(n + 1).drop_last() =~= m.take(n));
        lemma_name_in_prefix(m, n + 1);
    } else {
        assert(m.take(n) =~= m);
    }
}

fn preset_cols_exec(f: &Vec<(Value, Value)>, ov: &Vec<(Value, Value)>) -> (r: Vec<Vec<char>>)
    ensures
        texts_view(r@) == preset_cols(model_pairs(f@), model_pairs(ov@)),
{
    let empty: Vec<Vec<char>> = Vec::new();
    assert(texts_view(empty@) =~= Seq::<Seq<char>>::empty());
    let p = match child_value_exec(f, "overview") {
        Some(p) => p,
        None => return empty,
    };
    let name = match token_exec(p) {
        Some(n) => n,
        None => return empty,
    };
    let ps = match child_value_exec(ov, "overviewProfilePresets") {
        Some(ps) => ps,
        None => return empty,
    };
    let presets = match dict_inner_exec(ps) {
        Some(d) => d,
        None => return empty,
    };
    let name_s = string_of(&name);
    let pv = match child_value_exec(presets, name_s.as_str()) {
        Some(pv) => pv,
        None => return empty,
    };
    let preset = match dict_inner_exec(pv) {
        Some(d) => d,
        None => return empty,
    };
    match token_list_exec(preset, "overviewColumns") {
        Some(c) => c,
        None => empty,
    }
}

fn contains_text(s: &Vec<Vec<char>>, t: &Vec<char>) -> (r: bool)
    ensures
        r == texts_view(s@).contains(t@),
{
    let mut i: usize = 0;
    while i < s.len()
        invariant
            i <= s@.len(),
            forall|j: int| 0 <= j < i ==> texts_view(s@)[j] != t@,
        decreases s@.len() - i,
    {
        if same_text(&s[i], t) {
            assert(texts_view(s@)[i as int] == t@);
            return true;
        }
        i = i + 1;
    }
    false
}

fn copy_text(t: &Vec<char>) -> (r: Vec<char>)
    ensures
        r@ == t@,
{
    let r = copy_from(t, 0, t.len());
    assert(t@.subrange(0, t@.len() as int) =~= t@);
    r
}

fn ordered_exec(order: Vec<Vec<char>>, visible: &Vec<Vec<char>>) -> (r: Vec<Vec<char>>)
    ensures
        texts_view(r@) == ordered(texts_view(order@), texts_view(visible@)),
{
    let ghost o0 = texts_view(order@);
    let ghost v0 = texts_view(visible@);
    let mut out = order;
    let mut i: usize = 0;
    assert(v0.take(0) =~= Seq::<Seq<char>>::empty());
    while i < visible.len()
        invariant
            i <= visible@.len(),
            v0 == texts_view(visible@),
            texts_view(out@) == ordered(o0, v0.take(i as int)),
        decreases visible@.len() - i,
    {
        assert(v0.take(i + 1).drop_last() =~= v0.take(i as int));
        assert(v0.take(i + 1).last() == visible@[i as int]@);
        if !contains_text(&out, &visible[i]) {
            let ghost before = out@;
            out.push(copy_text(&visible[i]));
            assert(texts_view(out@) =~= texts_view(before).push(visible@[i as int]@));
        }
        i = i + 1;
    }
    assert(v0.take(v0.len() as int) =~= v0);
    out
}

fn is_width_key_exec(k: &Value, idx: i64) -> (r: bool)
    ensures
        r == is_width_key(k@, idx),
{
    match k {
        Value::Tuple(items) => {
            proof {
                lemma_model_seq(items@);
            }
            if items.len() != 2 {
                return false;
            }
            if !is_bytes(&items[0], "overviewScroll2".as_bytes()) {
                return false;
            }
            match &items[1] {
                Value::Int(i) => *i == idx,
                _ => false,
            }
        },
        _ => false,
    }
}

fn widths_exec(c: &Value, idx: i64) -> (r: Option<&Vec<(Value, Value)>>)
    ensures
        match r {
            Some(e) => widths_of(c@, idx) == Some(model_pairs(e@)),
            None => widths_of(c@, idx) is None,
        },
{
    let root = match c {
        Value::Dict(root) => root,
        _ => return None,
    };
    let u = match child_value_exec(root, "ui") {
        Some(u) => u,
        None => return None,
    };
    let ui = match dict_inner_exec(u) {
        Some(d) => d,
        None => return None,
    };
    let sv = match child_value_exec(ui, "SortHeadersSizes") {
        Some(sv) => sv,
        None => return None,
    };
    let sizes = match dict_inner_exec(sv) {
        Some(d) => d,
        None => return None,
    };
    let ghost m = model_pairs(sizes@);
    proof {
        lemma_model_pairs(sizes@);
    }
    let mut i: usize = 0;
    while i < sizes.len()
        invariant
            i <= sizes@.len(),
            m == model_pairs(sizes@),
            m.len() == sizes@.len(),
            forall|j: int| 0 <= j < sizes@.len() ==> #[trigger] m[j] == (sizes@[j].0@, sizes@[j].1@),
            width_key_from(m, idx, 0) == width_key_from(m, idx, i as int),
            widths_of(c@, idx) == match width_key_from(m, idx, 0) {
                Some(j) => dict_inner(m[j].1),
                None => None,
            },
        decreases sizes@.len() - i,
    {
        assert(m[i as int] == (sizes@[i as int].0@, sizes@[i as int].1@));
        if is_width_key_exec(&sizes[i].0, idx) {
            assert(width_key_from(m, idx, i as int) == Some(i as int));
            return dict_inner_exec(&sizes[i].1);
        }
        i = i + 1;
    }
    None
}

fn width_in_exec(e: &Vec<(Value, Value)>, tok: &Vec<char>) -> (r: Option<i64>)
    ensures
        r == width_in(model_pairs(e@), tok@),
{
    let ghost m = model_pairs(e@);
    proof {
        lemma_model_pairs(e@);
    }
    let mut i: usize = e.len();
    assert(m.take(m.len() as int) =~= m);
    while i > 0
        invariant
            i <= e@.len(),
            m == model_pairs(e@),
            m.len() == e@.len(),
            forall|j: int| 0 <= j < e@.len() ==> #[trigger] m[j] == (e@[j].0@, e@[j].1@),
            width_in(m, tok@) == width_in(m.take(i as int), tok@),
        decreases i,
    {
        assert(m.take(i as int).drop_last() =~= m.take(i - 1));
        assert(m.take(i as int).last() == m[i - 1]);
        match token_exec(&e[i - 1].0) {
            Some(t) => {
                if same_text(&t, tok) {
                    match &e[i - 1].1 {
                        Value::Int(x) => {
                            return Some(*x);
                        },
                        _ => {},
                    }
                }
            },
            None => {},
        }
        i = i - 1;
    }
    None
}

fn prettify_exec(tok: &Vec<char>) -> (r: String)
    ensures
        r@ == prettify(tok@),
{
    if tok.len() == 0 {
        return String::new();
    }
    let first = uppercase_text(tok[0]);
    let rest = copy_from(tok, 1, tok.len());
    assert(rest@ =~= tok@.skip(1));
    let rest_s = string_of(&rest);
    let low = lowercase_text(rest_s.as_str());
    first.concat(low.as_str())
}

fn copy_texts(s: &Vec<Vec<char>>) -> (r: Vec<Vec<char>>)
    ensures
        texts_view(r@) == texts_view(s@),
{
    let mut out: Vec<Vec<char>> = Vec::new();
    let mut i: usize = 0;
    while i < s.len()
        invariant
            i <= s@.len(),
            texts_view(out@) == texts_view(s@).take(i as int),
        decreases s@.len() - i,
    {
        let ghost before = out@;
        out.push(copy_text(&s[i]));
        assert(texts_view(out@) =~= texts_view(before).push(s@[i as int]@));
        assert(texts_view(s@).take(i + 1) =~= texts_view(s@).take(i as int).push(s@[i as int]@));
        i = i + 1;
    }
    assert(texts_view(s@).take(s@.len() as int) =~= texts_view(s@));
    out
}

pub open spec fn opt_view(c: Option<&Value>) -> Option<ValueView> {
    match c {
        Some(x) => Some(x@),
        None => None,
    }
}

fn tab_exec(k: &Value, v: &Value, ov: &Vec<(Value, Value)>, c: Option<&Value>) -> (r: Option<OverviewTab>)
    ensures
        match r {
            Some(t) => spec_tab(k@, v@, model_pairs(ov@), opt_view(c)) == Some(tab_view(t)),
            None => spec_tab(k@, v@, model_pairs(ov@), opt_view(c)) is None,
        },
{
    let idx = match k {
        Value::Int(i) => *i,
        _ => return None,
    };
    let f = match dict_inner_exec(v) {
        Some(f) => f,
        None => return None,
    };
    let name = match name_in_exec(f) {
        Some(n) => n,
        None => String::from_str("Tab ").concat(decimal(idx as i128).as_str()),
    };
    let own_order = token_list_exec(f, "tabColumnOrder");
    let own_visible = token_list_exec(f, "tabColumns");
    let inherits = own_order.is_none() || own_visible.is_none();
    let def = preset_cols_exec(f, ov);
    let order = match own_order {
        Some(o) => o,
        None => copy_texts(&def),
    };
    let visible = match own_visible {
        Some(o) => o,
        None => def,
    };
    let toks = ordered_exec(order, &visible);
    let wt = match c {
        Some(cc) => widths_exec(cc, idx),
        None => None,
    };
    let ghost cv = opt_view(c);
    let ghost vis = texts_view(visible@);
    let ghost tv = texts_view(toks@);
    let ghost col = |tok: Seq<char>| (tok, prettify(tok), vis.contains(tok), column_width(cv, idx, tok));
    let mut columns: Vec<OverviewColumn> = Vec::new();
    let mut j: usize = 0;
    while j < toks.len()
        invariant
            j <= toks@.len(),
            tv == texts_view(toks@),
            vis == texts_view(visible@),
            col == (|tok: Seq<char>| (tok, prettify(tok), vis.contains(tok), column_width(cv, idx, tok))),
            match wt {
                Some(e) => forall|tok: Seq<char>| column_width(cv, idx, tok) == width_in(model_pairs(e@), tok),
                None => forall|tok: Seq<char>| column_width(cv, idx, tok) is None,
            },
            columns_view(columns@) == tv.take(j as int).map_values(col),
        decreases toks@.len() - j,
    {
        let width = match wt {
            Some(e) => width_in_exec(e, &toks[j]),
            None => None,
        };
        let column = OverviewColumn {
            name: string_of(&toks[j]),
            label: prettify_exec(&toks[j]),
            visible: contains_text(&visible, &toks[j]),
            width,
        };
        let ghost before = columns@;
        columns.push(column);
        assert(columns_view(columns@) =~= columns_view(before).push(column_view(column)));
        assert(tv.take(j + 1).map_values(col) =~= tv.take(j as int).map_values(col).push(col(tv[j as int])));
        j = j + 1;
    }
    assert(tv.take(tv.len() as int) =~= tv);
    Some(OverviewTab { index: idx, name, inherits, columns })
}

/// The overview columns of a user document (inlined), with widths from a
/// character document (inlined) when there is one, as
/// [`spec_project_overview`] states them.
pub fn project_overview(user: &Value, char_tree: Option<&Value>) -> (r: OverviewColumns)
    requires
        spec_inline(user@) is Some,
        char_tree matches Some(c) ==> spec_inline(c@) is Some,
    ensures
        columns_of_view(r) == spec_project_overview(
            spec_inline(user@)->Some_0,
            match char_tree {
                Some(c) => Some(spec_inline(c@)->Some_0),
                None => None,
            },
        ),
{
    let w = crate::reshare::inline(user);
    let cw: Option<Value> = match char_tree {
        Some(c) => Some(crate::reshare::inline(c)),
        None => None,
    };
    let cref: Option<&Value> = match &cw {
        Some(x) => Some(x),
        None => None,
    };
    let empty = OverviewColumns { windows: Vec::new(), tabs: Vec::new() };
    assert(columns_of_view(empty).0 =~= Seq::<(nat, Seq<i64>)>::empty());
    assert(columns_of_view(empty).1 =~= Seq::<TabView>::empty());
    let root = match &w {
        Value::Dict(root) => root,
        _ => return empty,
    };
    let ov = match child_value_exec(root, "overview") {
        Some(o) => match dict_inner_exec(o) {
            Some(d) => d,
            None => return empty,
        },
        None => return empty,
    };
    let windows = windows_exec(ov);
    let mut tabs: Vec<OverviewTab> = Vec::new();
    assert(tabs@.map_values(|t: OverviewTab| tab_view(t)) =~= Seq::<TabView>::empty());
    match tab_dict_exec(ov) {
        Some(d) => {
            let ghost m = model_pairs(d@);
            let ghost ovm = model_pairs(ov@);
            proof {
                lemma_model_pairs(d@);
            }
            let mut i: usize = 0;
            assert(m.take(0) =~= Seq::<(ValueView, ValueView)>::empty());
            while i < d.len()
                invariant
                    i <= d@.len(),
                    m == model_pairs(d@),
                    ovm == model_pairs(ov@),
                    m.len() == d@.len(),
                    forall|j: int| 0 <= j < d@.len() ==> #[trigger] m[j] == (d@[j].0@, d@[j].1@),
                    tabs@.map_values(|t: OverviewTab| tab_view(t)) == tab_rows(m.take(i as int), ovm, opt_view(cref)),
                decreases d@.len() - i,
            {
                assert(m.take(i + 1).drop_last() =~= m.take(i as int));
                assert(m.take(i + 1).last() == m[i as int]);
                match tab_exec(&d[i].0, &d[i].1, ov, cref) {
                    Some(t) => {
                        let ghost before = tabs@;
                        tabs.push(t);
                        assert(tabs@.map_values(|t: OverviewTab| tab_view(t)) =~= before.map_values(
                            |t: OverviewTab| tab_view(t),
                        ).push(tab_view(t)));
                    },
                    None => {},
                }
                i = i + 1;
            }
            assert(m.take(m.len() as int) =~= m);
        },
        None => {},
    }
    OverviewColumns { windows, tabs }
}

// ---------------------------------------------------------------------------
// Addressing the stored document. Edits land in place, so the document keeps
// its sharing: keys are matched through `Shared`/`Ref` (against the slot
// table of the whole document) and paths step through store wrappers.
// ---------------------------------------------------------------------------

/// A node seen through sharing: a store's node, or the node the table holds
/// for a reference's slot.
pub open spec fn eff(v: ValueView, t: Seq<(u32, ValueView)>) -> ValueView {
    match v {
        ValueView::Shared { value, .. } => *value,
        ValueView::Ref(n) => match table_get(t, n) {
            Some(x) => x,
            None => v,
        },
        _ => v,
    }
}

/// `v` with every store wrapper stepped through, and the steps taken.
pub open spec fn unwrap(v: ValueView) -> (ValueView, Seq<Step>)
    decreases v,
{
    match v {
        ValueView::Shared { value, .. } => {
            let r = unwrap(*value);
            (r.0, seq![Step::SharedInner] + r.1)
        },
        _ => (v, Seq::empty()),
    }
}

/// The first entry at or after `i` whose key, seen through sharing, is the
/// byte string `key`.
pub open spec fn entry_named_from(d: Pairs, t: Seq<(u32, ValueView)>, key: Seq<u8>, i: int) -> Option<int>
    decreases d.len() - i,
{
    if i < 0 || i >= d.len() {
        None
    } else if spec_is_bytes(eff(d[i].0, t), key) {
        Some(i)
    } else {
        entry_named_from(d, t, key, i + 1)
    }
}

/// The first item at or after `i` that is a dict under its store wrappers.
pub open spec fn first_dict_item(items: Seq<ValueView>, i: int) -> Option<int>
    decreases items.len() - i,
{
    if i < 0 || i >= items.len() {
        None
    } else if unwrap(items[i]).0 is Dict {
        Some(i)
    } else {
        first_dict_item(items, i + 1)
    }
}

/// The dict a value holds (itself or the first dict of a tuple, through
/// store wrappers) and the steps that reach it.
pub open spec fn dict_at(v: ValueView) -> Option<(Pairs, Seq<Step>)> {
    let (x, p) = unwrap(v);
    match x {
        ValueView::Dict(d) => Some((d, p)),
        ValueView::Tuple(items) => match first_dict_item(items, 0) {
            Some(i) => {
                let (y, q) = unwrap(items[i]);
                Some((y->Dict_0, p + seq![Step::Tuple(i as usize)] + q))
            },
            None => None,
        },
        _ => None,
    }
}

/// The first entry at or after `i` whose key, seen through sharing, is the
/// integer `idx`.
pub open spec fn tab_entry_from(d: Pairs, t: Seq<(u32, ValueView)>, idx: i64, i: int) -> Option<int>
    decreases d.len() - i,
{
    if i < 0 || i >= d.len() {
        None
    } else if int_of(eff(d[i].0, t)) == Some(idx) {
        Some(i)
    } else {
        tab_entry_from(d, t, idx, i + 1)
    }
}

/// The path to tab `idx`'s dict in the stored user document: root ->
/// `overview` -> `tabsettings_new` (else `tabsettings`) -> the tab.
pub open spec fn tab_path(u: ValueView, idx: i64) -> Option<Seq<Step>> {
    let t = collect(u);
    let (root, base) = unwrap(u);
    match root {
        ValueView::Dict(r) => match entry_named_from(r, t, kb("overview"@), 0) {
            Some(ci) => {
                let (cv, cp) = unwrap(r[ci].1);
                match cv {
                    ValueView::Dict(ov) => {
                        let ti = match entry_named_from(ov, t, kb("tabsettings_new"@), 0) {
                            Some(i) => Some(i),
                            None => entry_named_from(ov, t, kb("tabsettings"@), 0),
                        };
                        match ti {
                            Some(ti) => match dict_at(ov[ti].1) {
                                Some((tabs, tp)) => match tab_entry_from(tabs, t, idx, 0) {
                                    Some(i) => Some(
                                        base + seq![Step::DictValue(ci as usize)] + cp + seq![Step::DictValue(ti as usize)]
                                            + tp + seq![Step::DictValue(i as usize)] + unwrap(tabs[i].1).1,
                                    ),
                                    None => None,
                                },
                                None => None,
                            },
                            None => None,
                        }
                    },
                    _ => None,
                }
            },
            None => None,
        },
        _ => None,
    }
}

fn eff_exec<'a>(v: &'a Value, t: &'a Vec<(u32, Value)>) -> (r: &'a Value)
    ensures
        r@ == eff(v@, table_view(t@)),
{
    match v {
        Value::Shared { value, .. } => value,
        Value::Ref(n) => match table_lookup(t, *n) {
            Some(x) => x,
            None => v,
        },
        _ => v,
    }
}

fn unwrap_exec(v: &Value) -> (r: (&Value, Vec<Step>))
    ensures
        (r.0@, r.1@) == unwrap(v@),
    decreases v,
{
    match v {
        Value::Shared { value, .. } => {
            let (x, p) = unwrap_exec(value);
            let mut q: Vec<Step> = vec![Step::SharedInner];
            let mut i: usize = 0;
            while i < p.len()
                invariant
                    i <= p@.len(),
                    q@ == seq![Step::SharedInner] + p@.take(i as int),
                decreases p@.len() - i,
            {
                q.push(p[i]);
                assert(p@.take(i + 1) =~= p@.take(i as int).push(p@[i as int]));
                i = i + 1;
            }
            assert(p@.take(p@.len() as int) =~= p@);
            (x, q)
        },
        _ => (v, Vec::new()),
    }
}

fn append_steps(p: &mut Vec<Step>, q: &Vec<Step>)
    ensures
        final(p)@ == old(p)@ + q@,
{
    let ghost p0 = p@;
    let mut i: usize = 0;
    while i < q.len()
        invariant
            i <= q@.len(),
            p@ == p0 + q@.take(i as int),
        decreases q@.len() - i,
    {
        p.push(q[i]);
        assert(q@.take(i + 1) =~= q@.take(i as int).push(q@[i as int]));
        i = i + 1;
    }
    assert(q@.take(q@.len() as int) =~= q@);
}

fn entry_named_exec(d: &Vec<(Value, Value)>, t: &Vec<(u32, Value)>, key: &[u8]) -> (r: Option<usize>)
    ensures
        match r {
            Some(j) => entry_named_from(model_pairs(d@), table_view(t@), key@, 0) == Some(j as int) && j < d@.len(),
            None => entry_named_from(model_pairs(d@), table_view(t@), key@, 0) is None,
        },
{
    let ghost m = model_pairs(d@);
    proof {
        lemma_model_pairs(d@);
    }
    let mut i: usize = 0;
    while i < d.len()
        invariant
            i <= d@.len(),
            m == model_pairs(d@),
            m.len() == d@.len(),
            forall|j: int| 0 <= j < d@.len() ==> #[trigger] m[j] == (d@[j].0@, d@[j].1@),
            entry_named_from(m, table_view(t@), key@, 0) == entry_named_from(m, table_view(t@), key@, i as int),
        decreases d@.len() - i,
    {
        assert(m[i as int].0 == d@[i as int].0@);
        if is_bytes(eff_exec(&d[i].0, t), key) {
            return Some(i);
        }
        i = i + 1;
    }
    None
}

fn dict_at_exec(v: &Value) -> (r: Option<(&Vec<(Value, Value)>, Vec<Step>)>)
    ensures
        match r {
            Some((d, p)) => dict_at(v@) == Some((model_pairs(d@), p@)),
            None => dict_at(v@) is None,
        },
{
    let (x, p) = unwrap_exec(v);
    match x {
        Value::Dict(d) => Some((d, p)),
        Value::Tuple(items) => {
            let ghost m = model_seq(items@);
            proof {
                lemma_model_seq(items@);
            }
            let mut i: usize = 0;
            while i < items.len()
                invariant
                    i <= items@.len(),
                    m == model_seq(items@),
                    m.len() == items@.len(),
                    forall|j: int| 0 <= j < items@.len() ==> #[trigger] m[j] == items@[j]@,
                    first_dict_item(m, 0) == first_dict_item(m, i as int),
                    unwrap(v@).0 == ValueView::Tuple(m),
                    unwrap(v@).1 == p@,
                decreases items@.len() - i,
            {
                assert(m[i as int] == items@[i as int]@);
                let (y, q) = unwrap_exec(&items[i]);
                match y {
                    Value::Dict(d) => {
                        let mut path = p;
                        path.push(Step::Tuple(i));
                        append_steps(&mut path, &q);
                        assert(first_dict_item(m, i as int) == Some(i as int));
                        assert(path@ =~= p@ + seq![Step::Tuple(i)] + q@);
                        return Some((d, path));
                    },
                    _ => {},
                }
                i = i + 1;
            }
            None
        },
        _ => None,
    }
}

fn tab_entry_exec(d: &Vec<(Value, Value)>, t: &Vec<(u32, Value)>, idx: i64) -> (r: Option<usize>)
    ensures
        match r {
            Some(j) => tab_entry_from(model_pairs(d@), table_view(t@), idx, 0) == Some(j as int) && j < d@.len(),
            None => tab_entry_from(model_pairs(d@), table_view(t@), idx, 0) is None,
        },
{
    let ghost m = model_pairs(d@);
    proof {
        lemma_model_pairs(d@);
    }
    let mut i: usize = 0;
    while i < d.len()
        invariant
            i <= d@.len(),
            m == model_pairs(d@),
            m.len() == d@.len(),
            forall|j: int| 0 <= j < d@.len() ==> #[trigger] m[j] == (d@[j].0@, d@[j].1@),
            tab_entry_from(m, table_view(t@), idx, 0) == tab_entry_from(m, table_view(t@), idx, i as int),
        decreases d@.len() - i,
    {
        assert(m[i as int].0 == d@[i as int].0@);
        match eff_exec(&d[i].0, t) {
            Value::Int(x) => {
                if *x == idx {
                    return Some(i);
                }
            },
            _ => {},
        }
        i = i + 1;
    }
    None
}

fn tab_path_exec(u: &Value, t: &Vec<(u32, Value)>, idx: i64) -> (r: Option<Vec<Step>>)
    requires
        table_view(t@) == collect(u@),
    ensures
        match r {
            Some(p) => tab_path(u@, idx) == Some(p@),
            None => tab_path(u@, idx) is None,
        },
{
    let (root, base) = unwrap_exec(u);
    let r = match root {
        Value::Dict(r) => r,
        _ => return None,
    };
    proof {
        lemma_model_pairs(r@);
    }
    let ci = match entry_named_exec(r, t, "overview".as_bytes()) {
        Some(ci) => ci,
        None => return None,
    };
    let (cv, cp) = unwrap_exec(&r[ci].1);
    let ov = match cv {
        Value::Dict(ov) => ov,
        _ => return None,
    };
    proof {
        lemma_model_pairs(ov@);
    }
    let ti = match entry_named_exec(ov, t, "tabsettings_new".as_bytes()) {
        Some(i) => i,
        None => match entry_named_exec(ov, t, "tabsettings".as_bytes()) {
            Some(i) => i,
            None => return None,
        },
    };
    let (tabs, tp) = match dict_at_exec(&ov[ti].1) {
        Some(x) => x,
        None => return None,
    };
    let i = match tab_entry_exec(tabs, t, idx) {
        Some(i) => i,
        None => return None,
    };
    proof {
        lemma_model_pairs(tabs@);
    }
    let (_, lp) = unwrap_exec(&tabs[i].1);
    let mut p = base;
    p.push(Step::DictValue(ci));
    append_steps(&mut p, &cp);
    p.push(Step::DictValue(ti));
    append_steps(&mut p, &tp);
    p.push(Step::DictValue(i));
    append_steps(&mut p, &lp);
    Some(p)
}

// ---------------------------------------------------------------------------
// Column visibility and order.
// ---------------------------------------------------------------------------

/// The preset columns of tab `idx` in the (inlined) document: what a tab
/// that lacks its own lists takes them from; empty when anything is missing.
pub open spec fn preset_for_tab(w: ValueView, idx: i64) -> Seq<Seq<char>> {
    match overview_of(w) {
        Some(ov) => match tab_dict_of(ov) {
            Some(d) => match find_int(d, idx) {
                Some(i) => match dict_inner(d[i].1) {
                    Some(f) => preset_cols(f, ov),
                    None => Seq::empty(),
                },
                None => Seq::empty(),
            },
            None => Seq::empty(),
        },
        None => Seq::empty(),
    }
}

/// Tokens as stored: byte strings.
pub open spec fn tok_values(s: Seq<Seq<char>>) -> Seq<ValueView> {
    s.map_values(|t: Seq<char>| ValueView::Bytes(kb(t)))
}

/// `f` with a list under `name` appended when it has no entry so keyed.
pub open spec fn with_list(f: Pairs, name: Seq<char>, l: Seq<Seq<char>>) -> Pairs {
    if find_key(f, kb(name)) is Some {
        f
    } else {
        f.push((ValueView::Bytes(kb(name)), ValueView::List(tok_values(l))))
    }
}

/// A tab's fields with its own order and visible lists, taken from `def`
/// (its preset's columns) where it has none.
pub open spec fn materialized(f: Pairs, def: Seq<Seq<char>>) -> Pairs {
    with_list(with_list(f, "tabColumnOrder"@, def), "tabColumns"@, def)
}

/// The list held by the first entry keyed `name`, when it is a bare list.
pub open spec fn plain_list(f: Pairs, name: Seq<char>) -> Option<Seq<ValueView>> {
    match find_key(f, kb(name)) {
        Some(j) => match f[j].1 {
            ValueView::List(l) => Some(l),
            _ => None,
        },
        None => None,
    }
}

/// Both column lists are bare lists, as an edit needs them.
pub open spec fn lists_ready(f: Pairs) -> bool {
    plain_list(f, "tabColumnOrder"@) is Some && plain_list(f, "tabColumns"@) is Some
}

/// `f` with the list under `name` replaced by `l`.
pub open spec fn with_plain_list(f: Pairs, name: Seq<char>, l: Seq<ValueView>) -> Pairs {
    let j = find_key(f, kb(name))->Some_0;
    f.update(j, (f[j].0, ValueView::List(l)))
}

/// Not the token `key`.
pub open spec fn not_token(key: Seq<u8>) -> spec_fn(ValueView) -> bool {
    |v: ValueView| !spec_is_bytes(v, key)
}

/// Showing or hiding `column`: shown, it joins the visible list (and the
/// order list when that lacks it); hidden, every copy leaves the visible
/// list.
pub open spec fn shown(f: Pairs, column: Seq<char>, visible: bool) -> Pairs {
    let tok = ValueView::Bytes(kb(column));
    let vis = plain_list(f, "tabColumns"@)->Some_0;
    let vis2 = if visible && !vis.contains(tok) {
        vis.push(tok)
    } else if !visible && vis.contains(tok) {
        vis.filter(not_token(kb(column)))
    } else {
        vis
    };
    let f2 = with_plain_list(f, "tabColumns"@, vis2);
    let ord = plain_list(f2, "tabColumnOrder"@)->Some_0;
    if visible && !ord.contains(tok) {
        with_plain_list(f2, "tabColumnOrder"@, ord.push(tok))
    } else {
        f2
    }
}

/// The stored document with tab `idx`'s dict edited by `edit`; refused
/// when there is no such tab or it is not a dict.
pub open spec fn tab_edited(u: ValueView, idx: i64, edit: spec_fn(Pairs) -> Pairs) -> (ValueView, Result<(), OverviewError>) {
    match tab_path(u, idx) {
        Some(p) => match spec_resolve(u, p) {
            Some(ValueView::Dict(f)) => (spec_replace(u, p, ValueView::Dict(edit(f))), Ok(())),
            _ => (u, Err(OverviewError::NoTab)),
        },
        None => (u, Err(OverviewError::NoTab)),
    }
}

/// An edit of tab `idx` finds bare column lists once the tab owns its lists
/// (anything else is not an edit this library makes).
pub open spec fn tab_editable(u: ValueView, idx: i64) -> bool {
    match tab_path(u, idx) {
        Some(p) => match spec_resolve(u, p) {
            Some(ValueView::Dict(f)) => lists_ready(materialized(f, preset_for_tab(spec_inline(u)->Some_0, idx))),
            _ => true,
        },
        None => true,
    }
}

fn preset_for_tab_exec(user: &Value, idx: i64) -> (r: Vec<Vec<char>>)
    requires
        spec_inline(user@) is Some,
    ensures
        texts_view(r@) == preset_for_tab(spec_inline(user@)->Some_0, idx),
{
    let empty: Vec<Vec<char>> = Vec::new();
    assert(texts_view(empty@) =~= Seq::<Seq<char>>::empty());
    let w = crate::reshare::inline(user);
    let root = match &w {
        Value::Dict(root) => root,
        _ => return empty,
    };
    let ov = match child_value_exec(root, "overview") {
        Some(o) => match dict_inner_exec(o) {
            Some(d) => d,
            None => return empty,
        },
        None => return empty,
    };
    let d = match tab_dict_exec(ov) {
        Some(d) => d,
        None => return empty,
    };
    proof {
        lemma_model_pairs(d@);
    }
    let i = match find_int_exec(d, idx) {
        Some(i) => i,
        None => return empty,
    };
    match dict_inner_exec(&d[i].1) {
        Some(f) => preset_cols_exec(f, ov),
        None => empty,
    }
}

fn tok_values_exec(s: &Vec<Vec<char>>) -> (r: Vec<Value>)
    ensures
        model_seq(r@) == tok_values(texts_view(s@)),
{
    let mut out: Vec<Value> = Vec::new();
    let mut i: usize = 0;
    proof {
        lemma_model_seq(out@);
    }
    while i < s.len()
        invariant
            i <= s@.len(),
            model_seq(out@) == tok_values(texts_view(s@)).take(i as int),
        decreases s@.len() - i,
    {
        let t = string_of(&s[i]);
        let b = vstd::slice::slice_to_vec(t.as_str().as_bytes());
        let ghost before = out@;
        out.push(Value::Bytes(b));
        proof {
            crate::container::lemma_model_seq_push(before, Value::Bytes(b));
        }
        assert(tok_values(texts_view(s@)).take(i + 1) =~= tok_values(texts_view(s@)).take(i as int).push(
            ValueView::Bytes(kb(s@[i as int]@)),
        ));
        i = i + 1;
    }
    assert(tok_values(texts_view(s@)).take(s@.len() as int) =~= tok_values(texts_view(s@)));
    out
}

fn add_list(f: &mut Vec<(Value, Value)>, name: &str, l: &Vec<Vec<char>>)
    ensures
        model_pairs(final(f)@) == with_list(model_pairs(old(f)@), name@, texts_view(l@)),
{
    if find_key_exec(f, name.as_bytes()).is_some() {
        return;
    }
    let key = Value::Bytes(vstd::slice::slice_to_vec(name.as_bytes()));
    let val = Value::List(tok_values_exec(l));
    let ghost before = f@;
    f.push((key, val));
    proof {
        crate::container::lemma_model_pairs_push(before, (key, val));
    }
}

fn has_token(items: &Vec<Value>, key: &[u8]) -> (r: bool)
    ensures
        r == model_seq(items@).contains(ValueView::Bytes(key@)),
{
    proof {
        lemma_model_seq(items@);
    }
    let mut i: usize = 0;
    while i < items.len()
        invariant
            i <= items@.len(),
            model_seq(items@).len() == items@.len(),
            forall|j: int| 0 <= j < items@.len() ==> #[trigger] model_seq(items@)[j] == items@[j]@,
            forall|j: int| 0 <= j < i ==> model_seq(items@)[j] != ValueView::Bytes(key@),
        decreases items@.len() - i,
    {
        if is_bytes(&items[i], key) {
            assert(model_seq(items@)[i as int] == ValueView::Bytes(key@));
            return true;
        }
        i = i + 1;
    }
    false
}

fn without_token(items: Vec<Value>, key: &[u8]) -> (r: Vec<Value>)
    ensures
        model_seq(r@) == model_seq(items@).filter(not_token(key@)),
{
    let ghost m = model_seq(items@);
    proof {
        lemma_model_seq(items@);
        crate::container::lemma_filter_empty(m.take(0), not_token(key@));
    }
    let mut out: Vec<Value> = Vec::new();
    proof {
        lemma_model_seq(out@);
    }
    let mut i: usize = 0;
    while i < items.len()
        invariant
            i <= items@.len(),
            m == model_seq(items@),
            m.len() == items@.len(),
            forall|j: int| 0 <= j < items@.len() ==> #[trigger] m[j] == items@[j]@,
            model_seq(out@) == m.take(i as int).filter(not_token(key@)),
        decreases items@.len() - i,
    {
        proof {
            crate::container::lemma_filter_step(m, i as int, not_token(key@));
        }
        if !is_bytes(&items[i], key) {
            let x = crate::reshare::clone_value(&items[i]);
            let ghost before = out@;
            out.push(x);
            proof {
                crate::container::lemma_model_seq_push(before, x);
            }
        }
        i = i + 1;
    }
    assert(m.take(m.len() as int) =~= m);
    out
}

fn take_plain_list(f: &mut Vec<(Value, Value)>, name: &str) -> (r: (usize, Vec<Value>))
    requires
        plain_list(model_pairs(old(f)@), name@) is Some,
    ensures
        r.0 < old(f)@.len(),
        find_key(model_pairs(old(f)@), kb(name@)) == Some(r.0 as int),
        model_seq(r.1@) == plain_list(model_pairs(old(f)@), name@)->Some_0,
        final(f)@.len() == old(f)@.len(),
        model_pairs(final(f)@) == model_pairs(old(f)@).update(r.0 as int, (model_pairs(old(f)@)[r.0 as int].0, ValueView::Nil)),
{
    proof {
        lemma_model_pairs(f@);
    }
    let j = match find_key_exec(f, name.as_bytes()) {
        Some(j) => j,
        None => {
            proof {
                assert(false);
            }
            0
        },
    };
    let ghost before = f@;
    let mut x = Value::Nil;
    std::mem::swap(&mut f[j].1, &mut x);
    proof {
        crate::path::lemma_model_pairs_update(before, j as int, f@[j as int]);
        assert(before.update(j as int, f@[j as int]) =~= f@);
    }
    match x {
        Value::List(items) => (j, items),
        _ => {
            proof {
                assert(false);
            }
            (j, Vec::new())
        },
    }
}

fn put_list(f: &mut Vec<(Value, Value)>, j: usize, items: Vec<Value>)
    requires
        j < old(f)@.len(),
    ensures
        final(f)@.len() == old(f)@.len(),
        model_pairs(final(f)@) == model_pairs(old(f)@).update(j as int, (model_pairs(old(f)@)[j as int].0, ValueView::List(model_seq(items@)))),
{
    proof {
        lemma_model_pairs(f@);
    }
    let ghost before = f@;
    let mut x = Value::List(items);
    std::mem::swap(&mut f[j].1, &mut x);
    proof {
        crate::path::lemma_model_pairs_update(before, j as int, f@[j as int]);
        assert(before.update(j as int, f@[j as int]) =~= f@);
    }
}

/// The two column-list keys are different byte strings.
proof fn lemma_column_keys_differ()
    ensures
        kb("tabColumns"@) != kb("tabColumnOrder"@),
{
    reveal_strlit("tabColumns");
    reveal_strlit("tabColumnOrder");
    vstd::utf8::encode_utf8_decode_utf8("tabColumns"@);
    vstd::utf8::encode_utf8_decode_utf8("tabColumnOrder"@);
}

fn show_exec(f: &mut Vec<(Value, Value)>, column: &str, visible: bool)
    requires
        lists_ready(model_pairs(old(f)@)),
    ensures
        model_pairs(final(f)@) == shown(model_pairs(old(f)@), column@, visible),
{
    let ghost f0 = model_pairs(f@);
    let key = column.as_bytes();
    let (j, items) = take_plain_list(f, "tabColumns");
    let present = has_token(&items, key);
    let items2 = if visible && !present {
        let mut it = items;
        let ghost before = it@;
        it.push(Value::Bytes(vstd::slice::slice_to_vec(key)));
        proof {
            crate::container::lemma_model_seq_push(before, it@[before.len() as int]);
        }
        it
    } else if !visible && present {
        without_token(items, key)
    } else {
        items
    };
    let ghost f1 = model_pairs(f@);
    put_list(f, j, items2);
    let ghost f2 = model_pairs(f@);
    proof {
        lemma_model_pairs(old(f)@);
        assert(j < f0.len());
        assert(f1[j as int].0 == f0[j as int].0);
        assert(f2 =~= with_plain_list(f0, "tabColumns"@, model_seq(items2@)));
        crate::overview_tabs::lemma_find_key_update_value(f0, j as int, ValueView::List(model_seq(items2@)), kb("tabColumnOrder"@));
        lemma_column_keys_differ();
        crate::batch::lemma_find_key_from(f0, kb("tabColumnOrder"@), 0);
        crate::batch::lemma_find_key_from(f0, kb("tabColumns"@), 0);
        let k0 = find_key(f0, kb("tabColumnOrder"@))->Some_0;
        assert(k0 != j);
        assert(f2[k0] == f0[k0]);
    }
    let (k, ord) = take_plain_list(f, "tabColumnOrder");
    if visible && !has_token(&ord, key) {
        let mut o = ord;
        let ghost before = o@;
        o.push(Value::Bytes(vstd::slice::slice_to_vec(key)));
        proof {
            crate::container::lemma_model_seq_push(before, o@[before.len() as int]);
        }
        put_list(f, k, o);
        assert(model_pairs(f@) =~= with_plain_list(f2, "tabColumnOrder"@, model_seq(o@)));
    } else {
        put_list(f, k, ord);
        assert(model_pairs(f@) =~= f2);
    }
}

fn order_exec(f: &mut Vec<(Value, Value)>, order: &[String])
    requires
        lists_ready(model_pairs(old(f)@)),
    ensures
        model_pairs(final(f)@) == with_plain_list(
            model_pairs(old(f)@),
            "tabColumnOrder"@,
            tok_values(order@.map_values(|s: String| s@)),
        ),
{
    let mut toks: Vec<Vec<char>> = Vec::new();
    let mut i: usize = 0;
    while i < order.len()
        invariant
            i <= order@.len(),
            texts_view(toks@) == order@.map_values(|s: String| s@).take(i as int),
        decreases order@.len() - i,
    {
        let ghost before = toks@;
        let c = chars_of(order[i].as_str());
        toks.push(c);
        assert(texts_view(toks@) =~= texts_view(before).push(c@));
        assert(order@.map_values(|s: String| s@).take(i + 1) =~= order@.map_values(|s: String| s@).take(
            i as int,
        ).push(order@[i as int]@));
        i = i + 1;
    }
    assert(order@.map_values(|s: String| s@).take(order@.len() as int) =~= order@.map_values(|s: String| s@));
    let ghost f0 = model_pairs(f@);
    proof {
        lemma_model_pairs(f@);
    }
    let (k, _old) = take_plain_list(f, "tabColumnOrder");
    let ghost f1 = model_pairs(f@);
    assert(f1[k as int].0 == f0[k as int].0);
    put_list(f, k, tok_values_exec(&toks));
    assert(model_pairs(f@) =~= with_plain_list(
        model_pairs(old(f)@),
        "tabColumnOrder"@,
        tok_values(order@.map_values(|s: String| s@)),
    ));
}

/// A copy of tab `idx`'s dict fields at `path`, when a dict is there.
fn fields_at(user: &Value, path: &Vec<Step>) -> (r: Option<Vec<(Value, Value)>>)
    ensures
        match r {
            Some(f) => spec_resolve(user@, path@) == Some(ValueView::Dict(model_pairs(f@))),
            None => !(spec_resolve(user@, path@) matches Some(ValueView::Dict(_))),
        },
{
    match resolve(user, path.as_slice()) {
        Some(n) => match n {
            Value::Dict(_) => match crate::reshare::clone_value(n) {
                Value::Dict(f) => Some(f),
                _ => None,
            },
            _ => None,
        },
        None => None,
    }
}

/// Show or hide `column` on tab `idx`, as [`shown`] states it, after the
/// tab takes its own lists from its preset where it has none. The document
/// keeps its sharing: the tab is found through shared keys and edited in
/// place.
pub fn set_column_visible(user: &mut Value, tab_index: i64, column: &str, visible: bool) -> (r: Result<(), OverviewError>)
    requires
        spec_inline(old(user)@) is Some,
        tab_editable(old(user)@, tab_index),
    ensures
        (final(user)@, r) == tab_edited(
            old(user)@,
            tab_index,
            |f: Pairs|
                shown(materialized(f, preset_for_tab(spec_inline(old(user)@)->Some_0, tab_index)), column@, visible),
        ),
{
    let def = preset_for_tab_exec(user, tab_index);
    let mut t: Vec<(u32, Value)> = Vec::new();
    assert(table_view(t@) =~= Seq::<(u32, ValueView)>::empty());
    collect_into(user, &mut t);
    assert(table_view(t@) =~= collect(user@));
    let path = match tab_path_exec(user, &t, tab_index) {
        Some(p) => p,
        None => return Err(OverviewError::NoTab),
    };
    let mut f = match fields_at(user, &path) {
        Some(f) => f,
        None => return Err(OverviewError::NoTab),
    };
    add_list(&mut f, "tabColumnOrder", &def);
    add_list(&mut f, "tabColumns", &def);
    show_exec(&mut f, column, visible);
    replace_at(user, path.as_slice(), Value::Dict(f));
    Ok(())
}

/// Set tab `idx`'s column order to `order`, after the tab takes its own
/// lists from its preset where it has none.
pub fn set_column_order(user: &mut Value, tab_index: i64, order: &[String]) -> (r: Result<(), OverviewError>)
    requires
        spec_inline(old(user)@) is Some,
        tab_editable(old(user)@, tab_index),
    ensures
        (final(user)@, r) == tab_edited(
            old(user)@,
            tab_index,
            |f: Pairs|
                with_plain_list(
                    materialized(f, preset_for_tab(spec_inline(old(user)@)->Some_0, tab_index)),
                    "tabColumnOrder"@,
                    tok_values(order@.map_values(|s: String| s@)),
                ),
        ),
{
    let def = preset_for_tab_exec(user, tab_index);
    let mut t: Vec<(u32, Value)> = Vec::new();
    assert(table_view(t@) =~= Seq::<(u32, ValueView)>::empty());
    collect_into(user, &mut t);
    assert(table_view(t@) =~= collect(user@));
    let path = match tab_path_exec(user, &t, tab_index) {
        Some(p) => p,
        None => return Err(OverviewError::NoTab),
    };
    let mut f = match fields_at(user, &path) {
        Some(f) => f,
        None => return Err(OverviewError::NoTab),
    };
    add_list(&mut f, "tabColumnOrder", &def);
    add_list(&mut f, "tabColumns", &def);
    order_exec(&mut f, order);
    replace_at(user, path.as_slice(), Value::Dict(f));
    Ok(())
}

// ---------------------------------------------------------------------------
// Column widths.
// ---------------------------------------------------------------------------

/// The path to the dict under `ui -> SortHeadersSizes` in the stored
/// character document (keys matched through sharing).
pub open spec fn sizes_path(c: ValueView) -> Option<Seq<Step>> {
    let t = collect(c);
    let (root, base) = unwrap(c);
    match root {
        ValueView::Dict(r) => match entry_named_from(r, t, kb("ui"@), 0) {
            Some(ui_i) => {
                let (uv, up) = unwrap(r[ui_i].1);
                match uv {
                    ValueView::Dict(ui) => match entry_named_from(ui, t, kb("SortHeadersSizes"@), 0) {
                        Some(si) => match dict_at(ui[si].1) {
                            Some((_, sp)) => Some(
                                base + seq![Step::DictValue(ui_i as usize)] + up + seq![Step::DictValue(si as usize)] + sp,
                            ),
                            None => None,
                        },
                        None => None,
                    },
                    _ => None,
                }
            },
            None => None,
        },
        _ => None,
    }
}

/// Tab `idx`'s width key `(overviewScroll2, idx)`, seen through sharing.
pub open spec fn eff_width_key(k: ValueView, t: Seq<(u32, ValueView)>, idx: i64) -> bool {
    match eff(k, t) {
        ValueView::Tuple(items) => items.len() == 2 && spec_is_bytes(eff(items[0], t), kb("overviewScroll2"@))
            && int_of(eff(items[1], t)) == Some(idx),
        _ => false,
    }
}

pub open spec fn width_pos_from(s: Pairs, t: Seq<(u32, ValueView)>, idx: i64, i: int) -> Option<int>
    decreases s.len() - i,
{
    if i < 0 || i >= s.len() {
        None
    } else if eff_width_key(s[i].0, t, idx) {
        Some(i)
    } else {
        width_pos_from(s, t, idx, i + 1)
    }
}

/// A new, empty width dict for tab `idx`.
pub open spec fn new_width_entry(idx: i64) -> (ValueView, ValueView) {
    (
        ValueView::Tuple(seq![ValueView::Bytes(kb("overviewScroll2"@)), ValueView::Int(idx)]),
        ValueView::Dict(Seq::empty()),
    )
}

/// The width entries with `column` set to `width` (its first entry, or a
/// new one at the end).
pub open spec fn with_width(e: Pairs, column: Seq<char>, width: i64) -> Pairs {
    match find_key(e, kb(column)) {
        Some(k) => e.update(k, (e[k].0, ValueView::Int(width))),
        None => e.push((ValueView::Bytes(kb(column)), ValueView::Int(width))),
    }
}

/// A width dict (bare, or in a store) with `column` set to `width`.
pub open spec fn widened(v: ValueView, column: Seq<char>, width: i64) -> Option<ValueView> {
    match v {
        ValueView::Shared { slot, value } => match *value {
            ValueView::Dict(e) => Some(
                ValueView::Shared { slot, value: Box::new(ValueView::Dict(with_width(e, column, width))) },
            ),
            _ => None,
        },
        ValueView::Dict(e) => Some(ValueView::Dict(with_width(e, column, width))),
        _ => None,
    }
}

/// Setting a column width in the stored character document: the tab's
/// width dict (created when absent, stepped into when it is a store) gets
/// the width; refused when there is no `SortHeadersSizes` dict or the tab's
/// entry holds no dict.
pub open spec fn spec_set_column_width(c: ValueView, idx: i64, column: Seq<char>, width: i64) -> (ValueView, Result<(), OverviewError>) {
    let t = collect(c);
    match sizes_path(c) {
        Some(p) => match spec_resolve(c, p) {
            Some(ValueView::Dict(sizes)) => {
                let s1 = match width_pos_from(sizes, t, idx, 0) {
                    Some(_) => sizes,
                    None => sizes.push(new_width_entry(idx)),
                };
                let j = match width_pos_from(sizes, t, idx, 0) {
                    Some(i) => i,
                    None => sizes.len() as int,
                };
                match widened(s1[j].1, column, width) {
                    Some(x) => (spec_replace(c, p, ValueView::Dict(s1.update(j, (s1[j].0, x)))), Ok(())),
                    None => (c, Err(OverviewError::NoTab)),
                }
            },
            _ => (c, Err(OverviewError::NoTab)),
        },
        None => (c, Err(OverviewError::NoTab)),
    }
}

fn sizes_path_exec(c: &Value, t: &Vec<(u32, Value)>) -> (r: Option<Vec<Step>>)
    requires
        table_view(t@) == collect(c@),
    ensures
        match r {
            Some(p) => sizes_path(c@) == Some(p@),
            None => sizes_path(c@) is None,
        },
{
    let (root, base) = unwrap_exec(c);
    let r = match root {
        Value::Dict(r) => r,
        _ => return None,
    };
    proof {
        lemma_model_pairs(r@);
    }
    let ui_i = match entry_named_exec(r, t, "ui".as_bytes()) {
        Some(i) => i,
        None => return None,
    };
    let (uv, up) = unwrap_exec(&r[ui_i].1);
    let ui = match uv {
        Value::Dict(ui) => ui,
        _ => return None,
    };
    proof {
        lemma_model_pairs(ui@);
    }
    let si = match entry_named_exec(ui, t, "SortHeadersSizes".as_bytes()) {
        Some(i) => i,
        None => return None,
    };
    let (_, sp) = match dict_at_exec(&ui[si].1) {
        Some(x) => x,
        None => return None,
    };
    let mut p = base;
    p.push(Step::DictValue(ui_i));
    append_steps(&mut p, &up);
    p.push(Step::DictValue(si));
    append_steps(&mut p, &sp);
    Some(p)
}

fn eff_width_key_exec(k: &Value, t: &Vec<(u32, Value)>, idx: i64) -> (r: bool)
    ensures
        r == eff_width_key(k@, table_view(t@), idx),
{
    match eff_exec(k, t) {
        Value::Tuple(items) => {
            proof {
                lemma_model_seq(items@);
            }
            if items.len() != 2 {
                return false;
            }
            if !is_bytes(eff_exec(&items[0], t), "overviewScroll2".as_bytes()) {
                return false;
            }
            match eff_exec(&items[1], t) {
                Value::Int(i) => *i == idx,
                _ => false,
            }
        },
        _ => false,
    }
}

fn width_pos_exec(s: &Vec<(Value, Value)>, t: &Vec<(u32, Value)>, idx: i64) -> (r: Option<usize>)
    ensures
        match r {
            Some(j) => width_pos_from(model_pairs(s@), table_view(t@), idx, 0) == Some(j as int) && j < s@.len(),
            None => width_pos_from(model_pairs(s@), table_view(t@), idx, 0) is None,
        },
{
    let ghost m = model_pairs(s@);
    proof {
        lemma_model_pairs(s@);
    }
    let mut i: usize = 0;
    while i < s.len()
        invariant
            i <= s@.len(),
            m == model_pairs(s@),
            m.len() == s@.len(),
            forall|j: int| 0 <= j < s@.len() ==> #[trigger] m[j] == (s@[j].0@, s@[j].1@),
            width_pos_from(m, table_view(t@), idx, 0) == width_pos_from(m, table_view(t@), idx, i as int),
        decreases s@.len() - i,
    {
        assert(m[i as int].0 == s@[i as int].0@);
        if eff_width_key_exec(&s[i].0, t, idx) {
            return Some(i);
        }
        i = i + 1;
    }
    None
}

fn with_width_exec(e: &mut Vec<(Value, Value)>, column: &str, width: i64)
    ensures
        model_pairs(final(e)@) == with_width(model_pairs(old(e)@), column@, width),
{
    proof {
        lemma_model_pairs(e@);
    }
    match find_key_exec(e, column.as_bytes()) {
        Some(k) => {
            let ghost before = e@;
            let mut x = Value::Int(width);
            std::mem::swap(&mut e[k].1, &mut x);
            proof {
                crate::path::lemma_model_pairs_update(before, k as int, e@[k as int]);
                assert(before.update(k as int, e@[k as int]) =~= e@);
            }
        },
        None => {
            let key = Value::Bytes(vstd::slice::slice_to_vec(column.as_bytes()));
            let ghost before = e@;
            let x = (key, Value::Int(width));
            e.push(x);
            proof {
                crate::container::lemma_model_pairs_push(before, x);
            }
        },
    }
}

/// Set `column`'s width on tab `idx` in a character document, as
/// [`spec_set_column_width`] states it. The document keeps its sharing.
pub fn set_column_width(char_tree: &mut Value, tab_index: i64, column: &str, width: i64) -> (r: Result<(), OverviewError>)
    ensures
        (final(char_tree)@, r) == spec_set_column_width(old(char_tree)@, tab_index, column@, width),
{
    let mut t: Vec<(u32, Value)> = Vec::new();
    assert(table_view(t@) =~= Seq::<(u32, ValueView)>::empty());
    collect_into(char_tree, &mut t);
    assert(table_view(t@) =~= collect(char_tree@));
    let path = match sizes_path_exec(char_tree, &t) {
        Some(p) => p,
        None => return Err(OverviewError::NoTab),
    };
    let mut sizes = match fields_at(char_tree, &path) {
        Some(f) => f,
        None => return Err(OverviewError::NoTab),
    };
    let ghost s0 = model_pairs(sizes@);
    proof {
        lemma_model_pairs(sizes@);
    }
    let j = match width_pos_exec(&sizes, &t, tab_index) {
        Some(i) => i,
        None => {
            let k = vec![Value::Bytes(vstd::slice::slice_to_vec("overviewScroll2".as_bytes())), Value::Int(tab_index)];
            proof {
                lemma_model_seq(k@);
                assert(model_seq(k@) =~= seq![ValueView::Bytes(kb("overviewScroll2"@)), ValueView::Int(tab_index)]);
            }
            let d: Vec<(Value, Value)> = Vec::new();
            assert(model_pairs(d@) =~= Seq::<(ValueView, ValueView)>::empty());
            let x = (Value::Tuple(k), Value::Dict(d));
            let ghost before = sizes@;
            sizes.push(x);
            proof {
                crate::container::lemma_model_pairs_push(before, x);
            }
            sizes.len() - 1
        },
    };
    let ghost s1 = model_pairs(sizes@);
    proof {
        lemma_model_pairs(sizes@);
    }
    let ghost before = sizes@;
    let mut cols = Value::Nil;
    std::mem::swap(&mut sizes[j].1, &mut cols);
    assert(cols@ == s1[j as int].1);
    assert(j as int == match width_pos_from(s0, table_view(t@), tab_index, 0) {
        Some(i) => i,
        None => s0.len() as int,
    });
    assert(s1 == match width_pos_from(s0, table_view(t@), tab_index, 0) {
        Some(_) => s0,
        None => s0.push(new_width_entry(tab_index)),
    });
    let ghost cv = cols@;
    let newcols = match cols {
        Value::Shared { slot, value } => {
            let inner: Value = *value;
            assert(cv == ValueView::Shared { slot, value: Box::new(inner@) });
            let ghost iv = inner@;
            match inner {
                Value::Dict(mut e) => {
                    let ghost e0 = model_pairs(e@);
                    assert(iv == ValueView::Dict(e0));
                    with_width_exec(&mut e, column, width);
                    let ghost ef = model_pairs(e@);
                    assert(ef == with_width(e0, column@, width));
                    let d = Value::Dict(e);
                    assert(d@ == ValueView::Dict(ef));
                    let r = Value::Shared { slot, value: Box::new(d) };
                    assert(r@ == ValueView::Shared { slot, value: Box::new(ValueView::Dict(ef)) });
                    assert(r@ == widened(cv, column@, width)->Some_0);
                    r
                },
                _ => {
                    assert(!(inner@ is Dict));
                    return Err(OverviewError::NoTab);
                },
            }
        },
        Value::Dict(mut e) => {
            with_width_exec(&mut e, column, width);
            let r = Value::Dict(e);
            assert(r@ == widened(cv, column@, width)->Some_0);
            r
        },
        _ => return Err(OverviewError::NoTab),
    };
    let ghost nv = newcols@;
    let mut y = newcols;
    std::mem::swap(&mut sizes[j].1, &mut y);
    proof {
        crate::path::lemma_model_pairs_update(before, j as int, sizes@[j as int]);
        assert(before.update(j as int, sizes@[j as int]) =~= sizes@);
    }
    assert(model_pairs(sizes@) == s1.update(j as int, (s1[j as int].0, nv)));
    assert(spec_resolve(old(char_tree)@, path@) == Some(ValueView::Dict(s0)));
    assert(sizes_path(old(char_tree)@) == Some(path@));
    replace_at(char_tree, path.as_slice(), Value::Dict(sizes));
    Ok(())
}

// ---------------------------------------------------------------------------
// Laws.
// ---------------------------------------------------------------------------

/// No column is lost from a tab's rows: every token of the order list and
/// every visible token is among them, the order list first and in its own
/// order.
pub proof fn lemma_ordered_keeps_columns(order: Seq<Seq<char>>, visible: Seq<Seq<char>>)
    ensures
        ordered(order, visible).len() >= order.len(),
        forall|i: int| 0 <= i < order.len() ==> ordered(order, visible)[i] == order[i],
        forall|t: Seq<char>| #[trigger] visible.contains(t) ==> ordered(order, visible).contains(t),
    decreases visible.len(),
{
    if visible.len() > 0 {
        let v0 = visible.drop_last();
        lemma_ordered_keeps_columns(order, v0);
        let o = ordered(order, v0);
        assert forall|t: Seq<char>| #[trigger] visible.contains(t) implies ordered(order, visible).contains(t) by {
            let k = choose|k: int| 0 <= k < visible.len() && visible[k] == t;
            if k < visible.len() - 1 {
                assert(v0[k] == t);
                assert(v0.contains(t));
                let a = choose|a: int| 0 <= a < o.len() && o[a] == t;
                assert(ordered(order, visible)[a] == t);
            } else if !o.contains(t) {
                assert(ordered(order, visible)[o.len() as int] == t);
            }
        }
    }
}

} // verus!
