//! Batch apply: extract a category's subtree from one document and splice it
//! into another. The category subtree is the value at a fixed key path —
//! `windows` (char file) or `ui -> editHistory` (user file). Extract inlines
//! the source's sharing first so a ref inside the category that points at a
//! store defined elsewhere resolves; splice inlines the target's sharing
//! first so replacing the subtree can never dangle a ref the rest of the
//! file still holds.

use vstd::prelude::*;
use vstd::utf8::*;

use crate::reshare::{clone_value, reshare, spec_inline, spec_reshare, tally};
use crate::value::{lemma_model_pairs, lemma_model_seq, model, model_pairs, model_seq, Value, ValueView};

verus! {

broadcast use vstd::std_specs::vec::group_vec_axioms;

/// A part of a settings document that can be copied between documents.
#[derive(Debug, Clone, Copy, PartialEq, Eq, Structural)]
pub enum Category {
    Layout,
    Autofill,
    Overview,
    OverviewWidths,
    Keybinds,
    /// Custom probe scanner formations, account-side. The dot in
    /// `probescanning.customFormations` is part of the key name, so this is
    /// a two-level path under `ui`.
    ProbeFormations,
    NeocomButtons,
    HudFighterPos,
    HudBadge,
    HudShipTop,
    HudFighterDetached,
    HudFighterShown,
    HudNeocomWidth,
    HudTargetOrigin,
    HudTargetAlign,
}

/// The key names from the document root to a category's subtree value.
pub open spec fn key_names(c: Category) -> Seq<Seq<char>> {
    match c {
        Category::Layout => seq!["windows"@],
        Category::Autofill => seq!["ui"@, "editHistory"@],
        Category::Overview => seq!["overview"@],
        Category::OverviewWidths => seq!["ui"@, "SortHeadersSizes"@],
        Category::Keybinds => seq!["cmd"@, "customCmds"@],
        Category::ProbeFormations => seq!["ui"@, "probescanning.customFormations"@],
        Category::NeocomButtons => seq!["ui"@, "neocomButtonRawData"@],
        Category::HudFighterPos => seq!["ui"@, "fightersDetachedPosition"@],
        Category::HudBadge => seq!["notifications"@, "notification_badge_offset"@],
        Category::HudShipTop => seq!["ui"@, "shipuialigntop"@],
        Category::HudFighterDetached => seq!["ui"@, "detachFighterUI"@],
        Category::HudFighterShown => seq!["ui"@, "displayFighterUI"@],
        Category::HudNeocomWidth => seq!["windows"@, "neocomWidth"@],
        Category::HudTargetOrigin => seq!["ui"@, "targetOrigin"@],
        Category::HudTargetAlign => seq!["ui"@, "alignHorizontally"@],
    }
}

/// The key path as bytes: each name's UTF-8 encoding.
pub open spec fn spec_key_path(c: Category) -> Seq<Seq<u8>> {
    key_names(c).map_values(|n: Seq<char>| encode_utf8(n))
}

/// Whether an absent key on the source means "EVE's default" rather than
/// "nothing to copy": true only for the leaf HUD keys, never for a
/// whole-section category.
pub open spec fn spec_absent_means_default(c: Category) -> bool {
    c is HudFighterPos || c is HudBadge || c is HudShipTop || c is HudFighterDetached
        || c is HudFighterShown || c is HudNeocomWidth || c is HudTargetOrigin || c is HudTargetAlign
}

impl Category {
    /// Key path from the document root to this category's subtree value.
    pub fn key_path(self) -> (r: Vec<&'static [u8]>)
        ensures
            r@.len() == spec_key_path(self).len(),
            forall|i: int| 0 <= i < r@.len() ==> #[trigger] r@[i]@ == spec_key_path(self)[i],
    {
        let r = match self {
            Category::Layout => vec!["windows".as_bytes()],
            Category::Autofill => vec!["ui".as_bytes(), "editHistory".as_bytes()],
            Category::Overview => vec!["overview".as_bytes()],
            Category::OverviewWidths => vec!["ui".as_bytes(), "SortHeadersSizes".as_bytes()],
            Category::Keybinds => vec!["cmd".as_bytes(), "customCmds".as_bytes()],
            Category::ProbeFormations => vec!["ui".as_bytes(), "probescanning.customFormations".as_bytes()],
            Category::NeocomButtons => vec!["ui".as_bytes(), "neocomButtonRawData".as_bytes()],
            Category::HudFighterPos => vec!["ui".as_bytes(), "fightersDetachedPosition".as_bytes()],
            Category::HudBadge => vec!["notifications".as_bytes(), "notification_badge_offset".as_bytes()],
            Category::HudShipTop => vec!["ui".as_bytes(), "shipuialigntop".as_bytes()],
            Category::HudFighterDetached => vec!["ui".as_bytes(), "detachFighterUI".as_bytes()],
            Category::HudFighterShown => vec!["ui".as_bytes(), "displayFighterUI".as_bytes()],
            Category::HudNeocomWidth => vec!["windows".as_bytes(), "neocomWidth".as_bytes()],
            Category::HudTargetOrigin => vec!["ui".as_bytes(), "targetOrigin".as_bytes()],
            Category::HudTargetAlign => vec!["ui".as_bytes(), "alignHorizontally".as_bytes()],
        };
        r
    }

    /// Whether an absent key on the source means "EVE's default" rather
    /// than "nothing to copy".
    pub fn absent_means_default(self) -> (r: bool)
        ensures
            r == spec_absent_means_default(self),
    {
        match self {
            Category::HudFighterPos | Category::HudBadge | Category::HudShipTop
            | Category::HudFighterDetached | Category::HudFighterShown | Category::HudNeocomWidth
            | Category::HudTargetOrigin | Category::HudTargetAlign => true,
            _ => false,
        }
    }
}


// ---------------------------------------------------------------------------
// Finding keys and dicts.
// ---------------------------------------------------------------------------

/// Whether `k` is the byte string `key`.
pub open spec fn spec_is_bytes(k: ValueView, key: Seq<u8>) -> bool {
    k matches ValueView::Bytes(b) && b == key
}

/// Whether `k` is the byte string `key`.
pub fn is_bytes(k: &Value, key: &[u8]) -> (r: bool)
    ensures
        r == spec_is_bytes(k@, key@),
{
    match k {
        Value::Bytes(b) => {
            if b.len() != key.len() {
                return false;
            }
            let mut i: usize = 0;
            while i < b.len()
                invariant
                    i <= b.len(),
                    b.len() == key.len(),
                    k@ == ValueView::Bytes(b@),
                    forall|j: int| 0 <= j < i ==> b@[j] == key@[j],
                decreases b.len() - i,
            {
                if b[i] != key[i] {
                    assert(b@[i as int] != key@[i as int]);
                    assert(b@ != key@);
                    return false;
                }
                i = i + 1;
            }
            assert(b@ =~= key@);
            true
        },
        _ => false,
    }
}

/// The first entry at or after `i` whose key is the byte string `key`.
pub open spec fn find_key_from(e: Seq<(ValueView, ValueView)>, key: Seq<u8>, i: int) -> Option<int>
    decreases e.len() - i,
{
    if i < 0 || i >= e.len() {
        None
    } else if spec_is_bytes(e[i].0, key) {
        Some(i)
    } else {
        find_key_from(e, key, i + 1)
    }
}

/// The first entry whose key is the byte string `key`.
pub open spec fn find_key(e: Seq<(ValueView, ValueView)>, key: Seq<u8>) -> Option<int> {
    find_key_from(e, key, 0)
}

pub proof fn lemma_find_key_from(e: Seq<(ValueView, ValueView)>, key: Seq<u8>, i: int)
    requires
        0 <= i,
    ensures
        find_key_from(e, key, i) matches Some(j) ==> i <= j < e.len() && spec_is_bytes(e[j].0, key),
    decreases e.len() - i,
{
    if i < e.len() && !spec_is_bytes(e[i].0, key) {
        lemma_find_key_from(e, key, i + 1);
    }
}

/// Index of the first entry whose key is the byte string `key`.
pub(crate) fn find_key_exec(e: &Vec<(Value, Value)>, key: &[u8]) -> (r: Option<usize>)
    ensures
        match r {
            Some(j) => find_key(model_pairs(e@), key@) == Some(j as int) && j < e@.len(),
            None => find_key(model_pairs(e@), key@) is None,
        },
{
    let ghost m = model_pairs(e@);
    proof {
        lemma_model_pairs(e@);
    }
    let mut i: usize = 0;
    while i < e.len()
        invariant
            i <= e.len(),
            m == model_pairs(e@),
            m.len() == e@.len(),
            forall|j: int| 0 <= j < e@.len() ==> #[trigger] m[j] == (model(e@[j].0), model(e@[j].1)),
            find_key(m, key@) == find_key_from(m, key@, i as int),
        decreases e.len() - i,
    {
        if is_bytes(&e[i].0, key) {
            return Some(i);
        }
        i = i + 1;
    }
    None
}

/// The first dict among `items` at or after `i`.
pub open spec fn first_dict_from(items: Seq<ValueView>, i: int) -> Option<int>
    decreases items.len() - i,
{
    if i < 0 || i >= items.len() {
        None
    } else if items[i] is Dict {
        Some(i)
    } else {
        first_dict_from(items, i + 1)
    }
}

pub proof fn lemma_first_dict_from(items: Seq<ValueView>, i: int)
    requires
        0 <= i,
    ensures
        first_dict_from(items, i) matches Some(j) ==> i <= j < items.len() && items[j] is Dict,
    decreases items.len() - i,
{
    if i < items.len() && !(items[i] is Dict) {
        lemma_first_dict_from(items, i + 1);
    }
}

pub(crate) fn first_dict_exec(items: &Vec<Value>) -> (r: Option<usize>)
    ensures
        match r {
            Some(t) => first_dict_from(model_seq(items@), 0) == Some(t as int) && t < items@.len(),
            None => first_dict_from(model_seq(items@), 0) is None,
        },
{
    let ghost m = model_seq(items@);
    proof {
        lemma_model_seq(items@);
    }
    let mut i: usize = 0;
    while i < items.len()
        invariant
            i <= items.len(),
            m == model_seq(items@),
            m.len() == items@.len(),
            forall|j: int| 0 <= j < items@.len() ==> #[trigger] m[j] == model(items@[j]),
            first_dict_from(m, 0) == first_dict_from(m, i as int),
        decreases items.len() - i,
    {
        if let Value::Dict(_) = &items[i] {
            return Some(i);
        }
        i = i + 1;
    }
    None
}

/// The dict a value holds: itself, or the first dict of a `(ts, dict)` tuple.
pub open spec fn dict_inner(v: ValueView) -> Option<Seq<(ValueView, ValueView)>> {
    match v {
        ValueView::Dict(d) => Some(d),
        ValueView::Tuple(items) => match first_dict_from(items, 0) {
            Some(t) => Some(items[t]->Dict_0),
            None => None,
        },
        _ => None,
    }
}

/// The entries reached from `root` by following `keys`.
pub open spec fn descend(root: Seq<(ValueView, ValueView)>, keys: Seq<Seq<u8>>) -> Option<Seq<(ValueView, ValueView)>>
    decreases keys.len(),
{
    if keys.len() == 0 {
        Some(root)
    } else {
        match find_key(root, keys[0]) {
            None => None,
            Some(j) => match dict_inner(root[j].1) {
                None => None,
                Some(d) => descend(d, keys.drop_first()),
            },
        }
    }
}


/// The dict a value holds: itself, or the first dict of a `(ts, dict)` tuple.
pub(crate) fn dict_inner_exec(v: &Value) -> (r: Option<&Vec<(Value, Value)>>)
    ensures
        match r {
            Some(d) => dict_inner(v@) == Some(model_pairs(d@)),
            None => dict_inner(v@) is None,
        },
{
    match v {
        Value::Dict(d) => Some(d),
        Value::Tuple(items) => match first_dict_exec(items) {
            Some(t) => {
                proof {
                    lemma_model_seq(items@);
                    lemma_first_dict_from(model_seq(items@), 0);
                }
                assert(model_seq(items@)[t as int] == model(items@[t as int]));
                match &items[t] {
                    Value::Dict(d) => {
                        assert(model(items@[t as int]) == ValueView::Dict(model_pairs(d@)));
                        Some(d)
                    },
                    _ => None,
                }
            },
            None => None,
        },
        _ => None,
    }
}

/// The entries reached from `root` by following `keys[..end]`.
fn descend_ref<'a>(root: &'a Vec<(Value, Value)>, keys: &Vec<&[u8]>, end: usize) -> (r: Option<&'a Vec<(Value, Value)>>)
    requires
        end <= keys@.len(),
    ensures
        match r {
            Some(d) => descend(model_pairs(root@), keys@.subrange(0, end as int).map_values(|k: &[u8]| k@)) == Some(model_pairs(d@)),
            None => descend(model_pairs(root@), keys@.subrange(0, end as int).map_values(|k: &[u8]| k@)) is None,
        },
{
    let ghost all = keys@.subrange(0, end as int).map_values(|k: &[u8]| k@);
    let mut cur = root;
    let mut i: usize = 0;
    assert(all.skip(0) =~= all);
    while i < end
        invariant
            i <= end <= keys@.len(),
            all == keys@.subrange(0, end as int).map_values(|k: &[u8]| k@),
            descend(model_pairs(root@), all) == descend(model_pairs(cur@), all.skip(i as int)),
        decreases end - i,
    {
        let ghost rest = all.skip(i as int);
        assert(rest[0] == keys@[i as int]@);
        assert(rest.drop_first() =~= all.skip(i + 1));
        proof {
            lemma_model_pairs(cur@);
        }
        match find_key_exec(cur, keys[i]) {
            Some(j) => match dict_inner_exec(&cur[j].1) {
                Some(d) => {
                    cur = d;
                },
                None => {
                    return None;
                },
            },
            None => {
                return None;
            },
        }
        i = i + 1;
    }
    assert(all.skip(i as int) =~= Seq::<Seq<u8>>::empty());
    Some(cur)
}

/// The bytes of "notifications".
pub open spec fn notifications_key() -> Seq<u8> {
    encode_utf8("notifications"@)
}

/// Whether any root key is the byte string `key`.
pub open spec fn has_key(root: Seq<(ValueView, ValueView)>, key: Seq<u8>) -> bool {
    exists|i: int| 0 <= i < root.len() && spec_is_bytes(#[trigger] root[i].0, key)
}

/// Whether an absent `c` in this source may be read as "the source sits at
/// EVE's default": the category's own rule, plus, for the two char-side HUD
/// keys, the source having a `notifications` section (a preset saved before
/// they were carried has none, and its absences were never captured).
pub open spec fn spec_absence_means_default(root: Seq<(ValueView, ValueView)>, c: Category) -> bool {
    spec_absent_means_default(c) && (c is HudFighterPos || c is HudBadge ==> has_key(root, notifications_key()))
}

fn absence_means_eve_default(root: &Vec<(Value, Value)>, cat: Category) -> (r: bool)
    ensures
        r == spec_absence_means_default(model_pairs(root@), cat),
{
    if !cat.absent_means_default() {
        return false;
    }
    match cat {
        Category::HudFighterPos | Category::HudBadge => {
            proof {
                lemma_model_pairs(root@);
            }
            let key = "notifications".as_bytes();
            match find_key_exec(root, key) {
                Some(j) => {
                    proof {
                        lemma_find_key_from(model_pairs(root@), key@, 0);
                    }
                    true
                },
                None => {
                    proof {
                        lemma_find_key_none(model_pairs(root@), key@, 0);
                    }
                    false
                },
            }
        },
        _ => true,
    }
}

proof fn lemma_find_key_none(e: Seq<(ValueView, ValueView)>, key: Seq<u8>, i: int)
    requires
        0 <= i,
        find_key_from(e, key, i) is None,
    ensures
        forall|j: int| i <= j < e.len() ==> !spec_is_bytes(#[trigger] e[j].0, key),
    decreases e.len() - i,
{
    if i < e.len() {
        lemma_find_key_none(e, key, i + 1);
    }
}

/// What one category extracts from a source root: its value, `None` where
/// its absence means EVE's default, nothing otherwise.
pub open spec fn extract_one(root: Seq<(ValueView, ValueView)>, c: Category) -> Option<(Category, Option<ValueView>)> {
    let kp = spec_key_path(c);
    let found = match descend(root, kp.drop_last()) {
        Some(p) => match find_key(p, kp.last()) {
            Some(j) => Some(p[j].1),
            None => None,
        },
        None => None,
    };
    match found {
        Some(v) => Some((c, Some(v))),
        None => if spec_absence_means_default(root, c) {
            Some((c, None))
        } else {
            None
        },
    }
}

/// What the categories extract from a source root, in order.
pub open spec fn extract_all(root: Seq<(ValueView, ValueView)>, cats: Seq<Category>) -> Seq<(Category, Option<ValueView>)>
    decreases cats.len(),
{
    if cats.len() == 0 {
        Seq::empty()
    } else {
        let prev = extract_all(root, cats.drop_last());
        match extract_one(root, cats.last()) {
            Some(e) => prev.push(e),
            None => prev,
        }
    }
}

/// What a source document extracts: nothing unless, once inlined, it is a
/// non-empty dict (an empty root is a preset side that was pruned away: it
/// holds no values and claims no absences).
pub open spec fn spec_extract(source: ValueView, cats: Seq<Category>) -> Seq<(Category, Option<ValueView>)> {
    match spec_inline(source) {
        Some(ValueView::Dict(root)) => if root.len() == 0 {
            Seq::empty()
        } else {
            extract_all(root, cats)
        },
        _ => Seq::empty(),
    }
}

/// An optional value, by view.
pub open spec fn opt_view(o: Option<Value>) -> Option<ValueView> {
    match o {
        Some(v) => Some(v@),
        None => None,
    }
}

/// Extracted categories, by view.
pub open spec fn extracted_view(e: Seq<(Category, Option<Value>)>) -> Seq<(Category, Option<ValueView>)> {
    e.map_values(
        |x: (Category, Option<Value>)|
            (
                x.0,
                opt_view(x.1),
            ),
    )
}

/// Inline the source's sharing, then copy each requested category's
/// subtree. A category the source lacks is skipped, except one whose absence
/// means EVE's default, which comes back as `(cat, None)` so the splice
/// removes the target's own value.
pub fn extract_categories(source: &Value, cats: &[Category]) -> (r: Vec<(Category, Option<Value>)>)
    requires
        spec_inline(source@) is Some,
    ensures
        extracted_view(r@) == spec_extract(source@, cats@),
{
    let s = crate::reshare::inline(source);
    let mut out: Vec<(Category, Option<Value>)> = Vec::new();
    let root = match &s {
        Value::Dict(root) => root,
        _ => {
            assert(extracted_view(out@) =~= Seq::<(Category, Option<ValueView>)>::empty());
            return out;
        },
    };
    proof {
        lemma_model_pairs(root@);
    }
    if root.len() == 0 {
        assert(extracted_view(out@) =~= Seq::<(Category, Option<ValueView>)>::empty());
        return out;
    }
    let ghost m = model_pairs(root@);
    let mut i: usize = 0;
    assert(cats@.subrange(0, 0) =~= Seq::<Category>::empty());
    assert(extracted_view(out@) =~= Seq::<(Category, Option<ValueView>)>::empty());
    while i < cats.len()
        invariant
            i <= cats.len(),
            m == model_pairs(root@),
            extracted_view(out@) == extract_all(m, cats@.subrange(0, i as int)),
        decreases cats.len() - i,
    {
        let cat = cats[i];
        let keys = cat.key_path();
        let ghost kp = spec_key_path(cat);
        assert(keys@.map_values(|k: &[u8]| k@) =~= kp);
        assert(keys@.subrange(0, keys@.len() - 1).map_values(|k: &[u8]| k@) =~= kp.drop_last());
        assert(kp.last() == keys@[keys@.len() - 1]@);
        let last = keys[keys.len() - 1];
        let mut found: Option<Value> = None;
        match descend_ref(root, &keys, keys.len() - 1) {
            Some(parent) => {
                proof {
                    lemma_model_pairs(parent@);
                }
                match find_key_exec(parent, last) {
                    Some(j) => {
                        found = Some(clone_value(&parent[j].1));
                    },
                    None => {},
                }
            },
            None => {},
        }
        let ghost prev = out@;
        match found {
            Some(v) => {
                out.push((cat, Some(v)));
            },
            None => {
                if absence_means_eve_default(root, cat) {
                    out.push((cat, None));
                }
            },
        }
        proof {
            let t = cats@.subrange(0, i + 1);
            assert(t.drop_last() =~= cats@.subrange(0, i as int));
            assert(t.last() == cat);
            assert(extracted_view(out@) =~= extract_all(m, t));
        }
        i = i + 1;
    }
    assert(cats@.subrange(0, cats@.len() as int) =~= cats@);
    out
}


// ---------------------------------------------------------------------------
// Splicing.
// ---------------------------------------------------------------------------

/// `p` without the entries keyed by the byte string `key`.
pub open spec fn without_key(p: Seq<(ValueView, ValueView)>, key: Seq<u8>) -> Seq<(ValueView, ValueView)>
    decreases p.len(),
{
    if p.len() == 0 {
        p
    } else {
        let r = without_key(p.drop_last(), key);
        if spec_is_bytes(p.last().0, key) {
            r
        } else {
            r.push(p.last())
        }
    }
}

/// `p` with `key` set to `sub`: the first entry so keyed gets the new value,
/// or a new entry is appended; with `sub` absent, every entry so keyed goes.
pub open spec fn splice_entries(p: Seq<(ValueView, ValueView)>, key: Seq<u8>, sub: Option<ValueView>) -> Seq<(ValueView, ValueView)> {
    match sub {
        None => without_key(p, key),
        Some(x) => match find_key(p, key) {
            Some(j) => p.update(j, (p[j].0, x)),
            None => p.push((ValueView::Bytes(key), x)),
        },
    }
}

/// `root` with the splice done in the entries `keys` lead to; unchanged
/// where they lead to no dict.
pub open spec fn splice_at(root: Seq<(ValueView, ValueView)>, keys: Seq<Seq<u8>>, key: Seq<u8>, sub: Option<ValueView>) -> Seq<(ValueView, ValueView)>
    decreases keys.len(), 0nat,
{
    if keys.len() == 0 {
        splice_entries(root, key, sub)
    } else {
        match find_key(root, keys[0]) {
            None => root,
            Some(j) => match splice_value(root[j].1, keys.drop_first(), key, sub) {
                Some(nv) => root.update(j, (root[j].0, nv)),
                None => root,
            },
        }
    }
}

/// `v` with the splice done in the dict it holds (itself, or the first dict
/// of a tuple); `None` where it holds none.
pub open spec fn splice_value(v: ValueView, keys: Seq<Seq<u8>>, key: Seq<u8>, sub: Option<ValueView>) -> Option<ValueView>
    decreases keys.len(), 1nat,
{
    match v {
        ValueView::Dict(d) => Some(ValueView::Dict(splice_at(d, keys, key, sub))),
        ValueView::Tuple(items) => match first_dict_from(items, 0) {
            Some(t) => if 0 <= t < items.len() && items[t] is Dict {
                Some(ValueView::Tuple(items.update(t, ValueView::Dict(splice_at(items[t]->Dict_0, keys, key, sub)))))
            } else {
                None
            },
            None => None,
        },
        _ => None,
    }
}

/// Every extracted category spliced into `root`, in order.
pub open spec fn apply_all(root: Seq<(ValueView, ValueView)>, ex: Seq<(Category, Option<ValueView>)>) -> Seq<(ValueView, ValueView)>
    decreases ex.len(),
{
    if ex.len() == 0 {
        root
    } else {
        let prev = apply_all(root, ex.drop_last());
        let (c, sub) = ex.last();
        let kp = spec_key_path(c);
        splice_at(prev, kp.drop_last(), kp.last(), sub)
    }
}

/// A document with the extracted categories spliced in (only a dict root
/// takes them).
pub open spec fn spec_spliced(w: ValueView, ex: Seq<(Category, Option<ValueView>)>) -> ValueView {
    match w {
        ValueView::Dict(root) => ValueView::Dict(apply_all(root, ex)),
        _ => w,
    }
}

/// The target after the splice: inlined, spliced, and reshared.
pub open spec fn spec_apply_to_tree(target: ValueView, ex: Seq<(Category, Option<ValueView>)>) -> Option<ValueView> {
    match spec_inline(target) {
        Some(w) => spec_reshare(spec_spliced(w, ex)),
        None => None,
    }
}

/// Whether applying is defined: both inlinings end (no reference cycle),
/// and the shared nodes fit the slot numbering.
pub open spec fn can_apply(target: ValueView, ex: Seq<(Category, Option<ValueView>)>) -> bool {
    &&& spec_inline(target) is Some
    &&& spec_inline(spec_spliced(spec_inline(target)->Some_0, ex)) is Some
    &&& tally(spec_inline(spec_spliced(spec_inline(target)->Some_0, ex))->Some_0).len() < u32::MAX
}

/// Entries of `p` not keyed by `key`, as copies.
fn without_key_exec(p: &Vec<(Value, Value)>, key: &[u8]) -> (r: Vec<(Value, Value)>)
    ensures
        model_pairs(r@) == without_key(model_pairs(p@), key@),
{
    let ghost m = model_pairs(p@);
    proof {
        lemma_model_pairs(p@);
    }
    let mut out: Vec<(Value, Value)> = Vec::new();
    let mut i: usize = 0;
    assert(model_pairs(out@) =~= without_key(m.subrange(0, 0), key@));
    while i < p.len()
        invariant
            i <= p.len(),
            m == model_pairs(p@),
            m.len() == p@.len(),
            forall|j: int| 0 <= j < p@.len() ==> #[trigger] m[j] == (model(p@[j].0), model(p@[j].1)),
            model_pairs(out@) == without_key(m.subrange(0, i as int), key@),
        decreases p.len() - i,
    {
        let ghost t = m.subrange(0, i + 1);
        assert(t.drop_last() =~= m.subrange(0, i as int));
        assert(t.last() == m[i as int]);
        if !is_bytes(&p[i].0, key) {
            let k = clone_value(&p[i].0);
            let v = clone_value(&p[i].1);
            let ghost prev = out@;
            out.push((k, v));
            assert(out@.subrange(0, out@.len() - 1) =~= prev);
        }
        i = i + 1;
    }
    assert(m.subrange(0, p.len() as int) =~= m);
    out
}

proof fn lemma_pairs_update_same(s: Seq<(Value, Value)>, j: int, x: (Value, Value))
    requires
        0 <= j < s.len(),
        model(x.0) == model(s[j].0),
        model(x.1) == model(s[j].1),
    ensures
        model_pairs(s.update(j, x)) == model_pairs(s),
{
    lemma_model_pairs(s);
    lemma_model_pairs(s.update(j, x));
    assert(model_pairs(s.update(j, x)) =~= model_pairs(s));
}

proof fn lemma_pairs_update(s: Seq<(Value, Value)>, j: int, x: (Value, Value))
    requires
        0 <= j < s.len(),
    ensures
        model_pairs(s.update(j, x)) == model_pairs(s).update(j, (model(x.0), model(x.1))),
{
    lemma_model_pairs(s);
    lemma_model_pairs(s.update(j, x));
    assert(model_pairs(s.update(j, x)) =~= model_pairs(s).update(j, (model(x.0), model(x.1))));
}

/// The byte keys `keys[k..end]`.
pub open spec fn key_views(keys: Seq<&[u8]>, k: int, end: int) -> Seq<Seq<u8>> {
    keys.subrange(k, end).map_values(|x: &[u8]| x@)
}

/// Splice into the entries `keys[k..end]` lead to.
fn splice_into(
    entries: &mut Vec<(Value, Value)>,
    keys: &Vec<&[u8]>,
    k: usize,
    end: usize,
    key: &[u8],
    sub: &Option<Value>,
)
    requires
        k <= end <= keys@.len(),
    ensures
        model_pairs(final(entries)@) == splice_at(
            model_pairs(old(entries)@),
            key_views(keys@, k as int, end as int),
            key@,
            opt_view(*sub),
        ),
    decreases end - k, 0nat,
{
    let ghost kv = key_views(keys@, k as int, end as int);
    proof {
        lemma_model_pairs(entries@);
    }
    if k == end {
        assert(kv =~= Seq::<Seq<u8>>::empty());
        match sub {
            None => {
                let out = without_key_exec(entries, key);
                *entries = out;
            },
            Some(x) => match find_key_exec(entries, key) {
                Some(j) => {
                    let kj = clone_value(&entries[j].0);
                    let ghost before = entries@;
                    entries.set(j, (kj, clone_value(x)));
                    proof {
                        lemma_pairs_update(before, j as int, entries@[j as int]);
                    }
                },
                None => {
                    let ghost before = entries@;
                    let kb = vstd::slice::slice_to_vec(key);
                    let xc = clone_value(x);
                    let kv = Value::Bytes(kb);
                    assert(kv@ == ValueView::Bytes(key@));
                    let ghost pair = (kv, xc);
                    entries.push((kv, xc));
                    assert(entries@.subrange(0, entries@.len() - 1) =~= before);
                    assert(entries@[entries@.len() - 1] == pair);
                    assert(model_pairs(entries@) == model_pairs(before).push((ValueView::Bytes(key@), x@)));
                },
            },
        }
        return;
    }
    assert(kv[0] == keys@[k as int]@);
    assert(kv.drop_first() =~= key_views(keys@, k + 1, end as int));
    match find_key_exec(entries, keys[k]) {
        None => {},
        Some(j) => {
            let ghost before = entries@;
            let ok = splice_value_exec(&mut entries[j].1, keys, k + 1, end, key, sub);
            proof {
                if ok {
                    lemma_pairs_update(before, j as int, entries@[j as int]);
                } else {
                    lemma_pairs_update_same(before, j as int, entries@[j as int]);
                }
            }
        },
    }
}

/// Splice in the dict `v` holds; false (and no change) where it holds none.
fn splice_value_exec(
    v: &mut Value,
    keys: &Vec<&[u8]>,
    k: usize,
    end: usize,
    key: &[u8],
    sub: &Option<Value>,
) -> (r: bool)
    requires
        k <= end <= keys@.len(),
    ensures
        match splice_value(
            old(v)@,
            key_views(keys@, k as int, end as int),
            key@,
            opt_view(*sub),
        ) {
            Some(nv) => r && final(v)@ == nv,
            None => !r && final(v)@ == old(v)@,
        },
    decreases end - k, 2nat,
{
    match v {
        Value::Dict(d) => {
            splice_into(d, keys, k, end, key, sub);
            true
        },
        Value::Tuple(items) => match first_dict_exec(items) {
            Some(t) => {
                proof {
                    lemma_model_seq(items@);
                    lemma_first_dict_from(model_seq(items@), 0);
                }
                let ghost before = items@;
                let ok = splice_dict_item(&mut items[t], keys, k, end, key, sub);
                proof {
                    crate::path::lemma_model_seq_update(before, t as int, items@[t as int]);
                    assert(before.update(t as int, items@[t as int]) =~= items@);
                }
                ok
            },
            None => false,
        },
        _ => false,
    }
}

/// Splice in `v`, which is a dict.
fn splice_dict_item(
    v: &mut Value,
    keys: &Vec<&[u8]>,
    k: usize,
    end: usize,
    key: &[u8],
    sub: &Option<Value>,
) -> (r: bool)
    requires
        k <= end <= keys@.len(),
        old(v)@ is Dict,
    ensures
        r,
        final(v)@ == ValueView::Dict(
            splice_at(
                old(v)@->Dict_0,
                key_views(keys@, k as int, end as int),
                key@,
                opt_view(*sub),
            ),
        ),
    decreases end - k, 1nat,
{
    match v {
        Value::Dict(d) => {
            splice_into(d, keys, k, end, key, sub);
            true
        },
        _ => true,
    }
}

/// Inline the target's sharing, then replace (or insert) each category's
/// subtree, or remove it for a `None`; a missing intermediate parent dict
/// skips that category. The result is reshared so the saved file is not the
/// fully inlined blob.
pub fn apply_to_tree(target: &mut Value, extracted: &[(Category, Option<Value>)])
    requires
        can_apply(old(target)@, extracted_view(extracted@)),
    ensures
        spec_apply_to_tree(old(target)@, extracted_view(extracted@)) == Some(final(target)@),
{
    let ghost exv = extracted_view(extracted@);
    let w = crate::reshare::inline(target);
    let ghost w0 = w@;
    let spliced = match w {
        Value::Dict(root0) => {
            let mut root = root0;
            let ghost m0 = model_pairs(root@);
            let mut i: usize = 0;
            assert(exv.subrange(0, 0) =~= Seq::<(Category, Option<ValueView>)>::empty());
            while i < extracted.len()
                invariant
                    i <= extracted.len(),
                    exv == extracted_view(extracted@),
                    model_pairs(root@) == apply_all(m0, exv.subrange(0, i as int)),
                decreases extracted.len() - i,
            {
                let cat = extracted[i].0;
                let keys = cat.key_path();
                let ghost kp = spec_key_path(cat);
                assert(key_views(keys@, 0, keys@.len() - 1) =~= kp.drop_last());
                assert(kp.last() == keys@[keys@.len() - 1]@);
                let last = keys[keys.len() - 1];
                splice_into(&mut root, &keys, 0, keys.len() - 1, last, &extracted[i].1);
                proof {
                    let t = exv.subrange(0, i + 1);
                    assert(t.drop_last() =~= exv.subrange(0, i as int));
                    assert(t.last() == exv[i as int]);
                }
                i = i + 1;
            }
            assert(exv.subrange(0, extracted.len() as int) =~= exv);
            Value::Dict(root)
        },
        other => other,
    };
    assert(spliced@ == spec_spliced(w0, exv));
    *target = reshare(&spliced);
}

} // verus!
