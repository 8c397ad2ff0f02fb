//! What applying a pack leaves alone: every section is optional, and a pack
//! changes only the container keys of the sections it carries.

use vstd::prelude::*;

use crate::batch::{find_key, find_key_from, lemma_find_key_from, spec_is_bytes};
use crate::container::{not_bytes_key, Pairs};
use crate::overview_pack::{pack_get, PackView};
use crate::overview_presets::{lemma_tabs_ready_keeps, not_saved_key, presets_key, tabs_new_key, tabs_old_key};
use crate::overview_states::{overview_bool_names, payload_set, Slot};
use crate::overview_tabs::{kb, tabs_at, tabs_ready, with_tabs};
use crate::container::{list_inner, list_replaced, lemma_list_replaced};
use crate::overview_tabs::{int_values, lemma_find_key_update_value, lemma_names_differ, tabs_of};
use crate::overview_pack::{ints_of, strs_of};
use crate::overview_states::{lemma_sorted_set, sorted_set};
use crate::pack_apply::{
    list_value, claim_upto, count_empty, fresh_tabs, int_items, keep_in, list_build, list_sections, live_section,
    not_in, pack_applied, pack_build, repointed, settings_fold, staged, tabs_applied, template_of,
    writes_applied,
};
use crate::value::ValueView;
use crate::overview_tabs::overview_of;
use crate::pack_apply::{spec_apply_pack, PackFailure};
use crate::reshare::spec_inline;

verus! {

/// The value under the bytes key `key`: that of the first entry so keyed.
pub open spec fn value_under(ov: Pairs, key: Seq<u8>) -> Option<ValueView> {
    match find_key(ov, key) {
        Some(j) => Some(ov[j].1),
        None => None,
    }
}

pub open spec fn mapping_key() -> Seq<u8> {
    kb("tabsByWindowInstanceID"@)
}

/// The overview keys pack `p` may write: those of the sections it carries.
pub open spec fn pack_touches(p: PackView, key: Seq<u8>) -> bool {
    ||| exists|i: int| 0 <= i < 6 && pack_get(p, #[trigger] list_sections()[i].0) is Some && key == kb(list_sections()[i].1)
    ||| pack_get(p, "stateColorsNameList"@) is Some && key == kb("stateColors"@)
    ||| pack_get(p, "stateBlinks"@) is Some && key == kb("stateBlinks"@)
    ||| pack_get(p, "shipLabelOrder"@) is Some && pack_get(p, "shipLabels"@) is Some && key == kb("shipLabels"@)
    ||| pack_get(p, "userSettings"@) is Some && exists|name: Seq<char>| #[trigger] overview_bool_names().contains(name) && key == kb(name)
    ||| live_section(p, "presets"@) is Some && (key == presets_key() || key == not_saved_key())
    ||| live_section(p, "tabSetup"@) is Some && (key == tabs_new_key() || key == tabs_old_key() || key == mapping_key())
}

proof fn lemma_find_key_from_push(e: Pairs, x: (ValueView, ValueView), key: Seq<u8>, i: int)
    requires
        0 <= i <= e.len(),
    ensures
        find_key_from(e.push(x), key, i) == match find_key_from(e, key, i) {
            Some(j) => Some(j),
            None => if spec_is_bytes(x.0, key) {
                Some(e.len() as int)
            } else {
                None
            },
        },
    decreases e.len() - i,
{
    if i < e.len() {
        assert(e.push(x)[i] == e[i]);
        lemma_find_key_from_push(e, x, key, i + 1);
    } else {
        assert(e.push(x)[i] == x);
        assert(find_key_from(e.push(x), key, i + 1) is None);
        assert(find_key_from(e, key, i) is None);
    }
}

proof fn lemma_value_under_push(e: Pairs, x: (ValueView, ValueView), key: Seq<u8>)
    ensures
        value_under(e.push(x), key) == match value_under(e, key) {
            Some(v) => Some(v),
            None => if spec_is_bytes(x.0, key) {
                Some(x.1)
            } else {
                None
            },
        },
{
    lemma_find_key_from_push(e, x, key, 0);
    lemma_find_key_from(e, key, 0);
}

proof fn lemma_value_under_update(e: Pairs, j: int, x: ValueView, key: Seq<u8>)
    requires
        0 <= j < e.len(),
        !spec_is_bytes(e[j].0, key),
    ensures
        value_under(e.update(j, (e[j].0, x)), key) == value_under(e, key),
{
    lemma_find_key_update_value(e, j, x, key);
    lemma_find_key_from(e, key, 0);
}

proof fn lemma_value_under_payload_set(ov: Pairs, k: Seq<u8>, x: ValueView, s: Slot, wrap_bare: bool, key: Seq<u8>)
    requires
        k != key,
    ensures
        value_under(payload_set(ov, k, x, s, wrap_bare), key) == value_under(ov, key),
{
    lemma_find_key_from(ov, k, 0);
    match find_key(ov, k) {
        Some(j) => {
            let v = payload_set(ov, k, x, s, wrap_bare)[j].1;
            assert(payload_set(ov, k, x, s, wrap_bare) == ov.update(j, (ov[j].0, v)));
            lemma_value_under_update(ov, j, v, key);
        },
        None => {
            lemma_value_under_push(ov, (ValueView::Bytes(k), crate::container::stamped(x)), key);
        },
    }
}

proof fn lemma_value_under_filter(s: Pairs, nk: Seq<u8>, key: Seq<u8>)
    requires
        nk != key,
    ensures
        value_under(s.filter(not_bytes_key(nk)), key) == value_under(s, key),
    decreases s.len(),
{
    let pred = not_bytes_key(nk);
    if s.len() == 0 {
        crate::container::lemma_filter_empty(s, pred);
        assert(value_under(s, key) is None);
        assert(value_under(Seq::<(ValueView, ValueView)>::empty(), key) is None);
    } else {
        let dl = s.drop_last();
        let x = s.last();
        assert(s =~= dl.push(x));
        dl.lemma_filter_push(x, pred);
        lemma_value_under_filter(dl, nk, key);
        lemma_value_under_push(dl, x, key);
        if pred(x) {
            lemma_value_under_push(dl.filter(pred), x, key);
        }
    }
}

proof fn lemma_writes_keep(ov: Pairs, ws: Seq<(Seq<u8>, ValueView)>, key: Seq<u8>)
    requires
        forall|i: int| 0 <= i < ws.len() ==> (#[trigger] ws[i]).0 != key,
    ensures
        value_under(writes_applied(ov, ws), key) == value_under(ov, key),
    decreases ws.len(),
{
    if ws.len() > 0 {
        let dl = ws.drop_last();
        assert forall|i: int| 0 <= i < dl.len() implies (#[trigger] dl[i]).0 != key by {
            assert(dl[i] == ws[i]);
        }
        lemma_writes_keep(ov, dl, key);
        assert(ws.last() == ws[ws.len() - 1]);
        lemma_value_under_payload_set(writes_applied(ov, dl), ws.last().0, ws.last().1, Slot::NotStamp, true, key);
    }
}

/// `key` is that of one of the first `n` list sections the pack carries.
pub open spec fn list_key(p: PackView, n: int, key: Seq<u8>) -> bool {
    exists|k: int| 0 <= k < n && pack_get(p, #[trigger] list_sections()[k].0) is Some && key == kb(list_sections()[k].1)
}

/// `key` is that of a known boolean setting.
pub open spec fn setting_key(key: Seq<u8>) -> bool {
    exists|name: Seq<char>| #[trigger] overview_bool_names().contains(name) && key == kb(name)
}

proof fn lemma_list_build_keys(p: PackView, n: int)
    requires
        n <= 6,
    ensures
        forall|i: int| 0 <= i < list_build(p, n).writes.len() ==> list_key(p, n, (#[trigger] list_build(p, n).writes[i]).0),
    decreases n,
{
    if n <= 0 {
        assert(list_build(p, n).writes.len() == 0);
    } else {
        lemma_list_build_keys(p, n - 1);
        let b = list_build(p, n - 1);
        let sec = list_sections()[n - 1];
        let w = list_build(p, n).writes;
        match pack_get(p, sec.0) {
            Some(node) => {
                assert(w == b.writes.push((kb(sec.1), crate::pack_apply::list_value(n - 1, node))));
            },
            None => {
                assert(w == b.writes);
            },
        }
        assert forall|i: int| 0 <= i < w.len() implies list_key(p, n, (#[trigger] w[i]).0) by {
            if i < b.writes.len() {
                assert(w[i] == b.writes[i]);
                assert(list_key(p, n - 1, b.writes[i].0));
                let k = choose|k: int|
                    0 <= k < n - 1 && pack_get(p, #[trigger] list_sections()[k].0) is Some && b.writes[i].0 == kb(
                        list_sections()[k].1,
                    );
                assert(0 <= k < n && pack_get(p, list_sections()[k].0) is Some && w[i].0 == kb(list_sections()[k].1));
            } else {
                assert(pack_get(p, list_sections()[n - 1].0) is Some && w[i].0 == kb(list_sections()[n - 1].1));
            }
        }
    }
}

proof fn lemma_settings_keys(ps: Seq<(crate::overview_pack::NodeView, crate::overview_pack::NodeView)>)
    ensures
        forall|i: int| 0 <= i < settings_fold(ps).0.len() ==> setting_key((#[trigger] settings_fold(ps).0[i]).0),
    decreases ps.len(),
{
    if ps.len() == 0 {
        assert(settings_fold(ps).0.len() == 0);
    } else {
        lemma_settings_keys(ps.drop_last());
        let prev = settings_fold(ps.drop_last()).0;
        let w = settings_fold(ps).0;
        assert forall|i: int| 0 <= i < w.len() implies setting_key((#[trigger] w[i]).0) by {
            if i < prev.len() {
                assert(w[i] == prev[i]);
                assert(setting_key(prev[i].0));
            } else {
                let name = crate::overview_pack::str_of(ps.last().0)->Some_0;
                assert(overview_bool_names().contains(name) && w[i].0 == kb(name));
            }
        }
    }
}

/// Every write of a pack's build is under a key the pack touches.
proof fn lemma_build_keys(p: PackView)
    requires
        pack_build(p) is Ok,
    ensures
        forall|i: int|
            0 <= i < pack_build(p)->Ok_0.writes.len() ==> pack_touches(p, (#[trigger] pack_build(p)->Ok_0.writes[i]).0),
{
    lemma_list_build_keys(p, 6);
    let b1 = list_build(p, 6);
    let ws = pack_build(p)->Ok_0.writes;
    assert forall|i: int| 0 <= i < ws.len() implies pack_touches(p, (#[trigger] ws[i]).0) by {
        if i < b1.writes.len() {
            assert(ws[i] == b1.writes[i]);
            assert(list_key(p, 6, b1.writes[i].0));
        } else {
            match pack_get(p, "userSettings"@) {
                Some(node) => {
                    let sf = settings_fold(crate::overview_pack::pairs_of(node)).0;
                    lemma_settings_keys(crate::overview_pack::pairs_of(node));
                    if i >= ws.len() - sf.len() {
                        let t = i - (ws.len() - sf.len());
                        assert(ws[i] == sf[t]);
                        assert(setting_key(sf[t].0));
                    }
                },
                None => {},
            }
        }
    }
}

/// Setting up tabs changes only the tab dict and the window mapping.
proof fn lemma_tabs_applied_keeps(ov: Pairs, node: crate::overview_pack::NodeView, key: Seq<u8>)
    requires
        key != tabs_new_key(),
        key != tabs_old_key(),
        key != mapping_key(),
    ensures
        value_under(tabs_applied(ov, node).0, key) == value_under(ov, key),
{
    lemma_tabs_ready_keeps(ov, key);
    let r = tabs_ready(ov);
    let ta = tabs_at(ov);
    lemma_find_key_from(ov, key, 0);
    assert(value_under(r, key) == value_under(ov, key));
    let fresh = fresh_tabs(template_of(crate::overview_tabs::tabs_of(ov)), crate::overview_pack::pairs_of(node)).0;
    let ov1 = with_tabs(ov, fresh);
    let x = crate::container::dict_replaced(r[ta].1, fresh);
    assert(ov1 == r.update(ta, (r[ta].0, x)));
    lemma_value_under_update(r, ta, x, key);
    lemma_find_key_from(ov1, mapping_key(), 0);
    if let Some(j) = find_key(ov1, mapping_key()) {
        let y = tabs_applied(ov, node).0[j].1;
        if crate::container::list_inner(ov1[j].1) is Some {
            assert(tabs_applied(ov, node).0 == ov1.update(j, (ov1[j].0, y)));
            lemma_value_under_update(ov1, j, y, key);
        }
    }
}

/// Applying a pack leaves the value under every overview key the pack does
/// not touch exactly as it was: each section is optional, and one the pack
/// omits is never written, cleared or minted.
pub proof fn lemma_pack_leaves_other_keys(p: PackView, ov: Pairs, key: Seq<u8>)
    requires
        pack_build(p) is Ok,
        !pack_touches(p, key),
    ensures
        value_under(pack_applied(p, pack_build(p)->Ok_0, ov).0, key) == value_under(ov, key),
{
    let b = pack_build(p)->Ok_0;
    lemma_build_keys(p);
    assert forall|i: int| 0 <= i < b.writes.len() implies (#[trigger] b.writes[i]).0 != key by {
        assert(pack_touches(p, b.writes[i].0));
    }
    lemma_writes_keep(ov, b.writes, key);
    let ov1 = writes_applied(ov, b.writes);
    match live_section(p, "presets"@) {
        Some(node) => {
            let x = ValueView::Dict(crate::pack_apply::preset_entries(crate::overview_pack::pairs_of(node)));
            lemma_value_under_payload_set(ov1, presets_key(), x, Slot::NotStamp, true, key);
            lemma_value_under_filter(payload_set(ov1, presets_key(), x, Slot::NotStamp, true), not_saved_key(), key);
        },
        None => {},
    }
    assert(value_under(staged(p, b, ov), key) == value_under(ov, key));
    match live_section(p, "tabSetup"@) {
        Some(node) => {
            lemma_tabs_applied_keeps(staged(p, b, ov), node, key);
        },
        None => {},
    }
}

/// The tab indices a pack's `tabSetup` defines, in the pack's order.
pub open spec fn pack_indices(ov: Pairs, node: crate::overview_pack::NodeView) -> Seq<i64> {
    fresh_tabs(template_of(tabs_of(ov)), crate::overview_pack::pairs_of(node)).1
}

proof fn lemma_int_items_of_ints(s: Seq<i64>)
    ensures
        int_items(int_values(s)) == s,
    decreases s.len(),
{
    if s.len() > 0 {
        lemma_int_items_of_ints(s.drop_last());
        assert(int_values(s).drop_last() =~= int_values(s.drop_last()));
    }
}

proof fn lemma_int_items_from(l: Seq<ValueView>, i: i64)
    requires
        int_items(l).contains(i),
    ensures
        l.contains(ValueView::Int(i)),
    decreases l.len(),
{
    let r = int_items(l.drop_last());
    if crate::container::int_of(l.last()) == Some(i) {
        assert(l[l.len() - 1] == ValueView::Int(i));
    } else {
        if crate::container::int_of(l.last()) is Some {
            let k = choose|k: int| 0 <= k < r.push(crate::container::int_of(l.last())->Some_0).len() && r.push(crate::container::int_of(l.last())->Some_0)[k] == i;
            assert(r[k] == i);
        }
        assert(r.contains(i));
        lemma_int_items_from(l.drop_last(), i);
        let k = choose|k: int| 0 <= k < l.drop_last().len() && l.drop_last()[k] == ValueView::Int(i);
        assert(l[k] == ValueView::Int(i));
    }
}

proof fn lemma_claim_window(gs: Seq<ValueView>, ix: Seq<i64>, n: int, k: int)
    requires
        1 <= k < n <= gs.len(),
    ensures
        claim_upto(gs, ix, n).0.len() == gs.len(),
        claim_upto(gs, ix, n).0[k] == match list_inner(gs[k]) {
            Some(l) => list_replaced(gs[k], l.filter(keep_in(ix))),
            None => gs[k],
        },
        list_inner(gs[k]) matches Some(l) ==> forall|i: i64|
            #[trigger] int_items(l.filter(keep_in(ix))).contains(i) ==> claim_upto(gs, ix, n).1.contains(i),
    decreases n,
{
    if n - 1 > k {
        lemma_claim_window(gs, ix, n - 1, k);
        let (g, c) = claim_upto(gs, ix, n - 1);
        if let Some(l) = list_inner(gs[n - 1]) {
            let add = int_items(l.filter(keep_in(ix)));
            if let Some(lk) = list_inner(gs[k]) {
                assert forall|i: i64| #[trigger] int_items(lk.filter(keep_in(ix))).contains(i) implies (c + add).contains(i) by {
                    let m = choose|m: int| 0 <= m < c.len() && c[m] == i;
                    assert((c + add)[m] == i);
                }
            }
        }
    } else {
        crate::pack_apply::lemma_claim_upto(gs, ix, n - 1);
        let (g, c) = claim_upto(gs, ix, n - 1);
        if let Some(l) = list_inner(gs[k]) {
            let add = int_items(l.filter(keep_in(ix)));
            assert forall|i: i64| #[trigger] add.contains(i) implies (c + add).contains(i) by {
                let m = choose|m: int| 0 <= m < add.len() && add[m] == i;
                assert((c + add)[c.len() + m] == i);
            }
        }
    }
}

/// Re-pointing the windows at a pack's tab indices: each secondary window
/// keeps, in its own order and inside its own wrapper, only the indices the
/// pack defines; window 0 gets, in the pack's order, exactly the indices no
/// secondary window kept. So no index is listed by two windows, and every
/// listed index is one the pack defines.
pub proof fn lemma_repointed_windows(gs: Seq<ValueView>, ix: Seq<i64>)
    requires
        gs.len() >= 1,
    ensures
        repointed(gs, ix).len() == gs.len(),
        forall|k: int| 1 <= k < gs.len() ==> #[trigger] repointed(gs, ix)[k] == match list_inner(gs[k]) {
            Some(l) => list_replaced(gs[k], l.filter(keep_in(ix))),
            None => gs[k],
        },
        list_inner(gs[0]) is Some ==> list_inner(repointed(gs, ix)[0]) == Some(
            int_values(ix.filter(not_in(claim_upto(gs, ix, gs.len() as int).1))),
        ),
        list_inner(gs[0]) is None ==> repointed(gs, ix)[0] == gs[0],
        forall|k: int, i: i64|
            0 <= k < gs.len() && list_inner(repointed(gs, ix)[k]) is Some
                && #[trigger] int_items(list_inner(repointed(gs, ix)[k])->Some_0).contains(i) ==> ix.contains(i),
        forall|k: int, i: i64|
            1 <= k < gs.len() && list_inner(gs[0]) is Some && list_inner(repointed(gs, ix)[k]) is Some
                && #[trigger] int_items(list_inner(repointed(gs, ix)[k])->Some_0).contains(i) ==> !int_items(list_inner(repointed(gs, ix)[0])->Some_0).contains(i),
{
    let n = gs.len() as int;
    let (g1, claimed) = claim_upto(gs, ix, n);
    crate::pack_apply::lemma_claim_upto(gs, ix, n);
    let r = repointed(gs, ix);
    let w0 = ix.filter(not_in(claimed));
    assert forall|k: int| 1 <= k < n implies #[trigger] r[k] == match list_inner(gs[k]) {
        Some(l) => list_replaced(gs[k], l.filter(keep_in(ix))),
        None => gs[k],
    } by {
        lemma_claim_window(gs, ix, n, k);
    }
    if list_inner(gs[0]) is Some {
        lemma_list_replaced(gs[0], int_values(w0), int_values(w0));
        lemma_int_items_of_ints(w0);
    }
    assert forall|k: int, i: i64|
        0 <= k < n && list_inner(r[k]) is Some && #[trigger] int_items(list_inner(r[k])->Some_0).contains(i) implies ix.contains(i) by {
        let l = list_inner(r[k])->Some_0;
        if k == 0 {
            if list_inner(gs[0]) is Some {
                ix.lemma_filter_contains_rev(not_in(claimed), i);
            }
        } else {
            lemma_claim_window(gs, ix, n, k);
            if let Some(lk) = list_inner(gs[k]) {
                lemma_list_replaced(gs[k], lk.filter(keep_in(ix)), lk.filter(keep_in(ix)));
                lemma_int_items_from(l, i);
                lk.lemma_filter_contains_rev(keep_in(ix), ValueView::Int(i));
            }
        }
    }
    assert forall|k: int, i: i64|
        1 <= k < n && list_inner(gs[0]) is Some && list_inner(r[k]) is Some
            && #[trigger] int_items(list_inner(r[k])->Some_0).contains(i) implies !int_items(list_inner(r[0])->Some_0).contains(i) by {
        lemma_claim_window(gs, ix, n, k);
        let l = list_inner(r[k])->Some_0;
        if let Some(lk) = list_inner(gs[k]) {
            lemma_list_replaced(gs[k], lk.filter(keep_in(ix)), lk.filter(keep_in(ix)));
            assert(claimed.contains(i));
            if w0.contains(i) {
                ix.lemma_filter_contains_rev(not_in(claimed), i);
            }
        }
    }
}

/// What setting up tabs does to the window mapping: where the account has
/// one, it is re-pointed at the pack's tab indices (as
/// [`lemma_repointed_windows`] states) with as many windows as before, and the
/// count returned is that of the windows left with no tab; where it has none,
/// none is minted and the count is 0.
pub proof fn lemma_tabs_mapping(ov: Pairs, node: crate::overview_pack::NodeView)
    ensures
        match value_under(ov, mapping_key()) {
            Some(m) => match list_inner(m) {
                Some(gs) => {
                    &&& value_under(tabs_applied(ov, node).0, mapping_key()) == Some(
                        list_replaced(m, repointed(gs, pack_indices(ov, node))),
                    )
                    &&& list_inner(list_replaced(m, repointed(gs, pack_indices(ov, node)))) == Some(
                        repointed(gs, pack_indices(ov, node)),
                    )
                    &&& repointed(gs, pack_indices(ov, node)).len() == gs.len()
                    &&& tabs_applied(ov, node).1 == count_empty(repointed(gs, pack_indices(ov, node)))
                },
                None => true,
            },
            None => {
                &&& value_under(tabs_applied(ov, node).0, mapping_key()) is None
                &&& tabs_applied(ov, node).1 == 0
            },
        },
{
    lemma_names_differ();
    let key = mapping_key();
    lemma_tabs_ready_keeps(ov, key);
    let r = tabs_ready(ov);
    let ta = tabs_at(ov);
    lemma_find_key_from(ov, key, 0);
    assert(value_under(r, key) == value_under(ov, key));
    let fresh = fresh_tabs(template_of(tabs_of(ov)), crate::overview_pack::pairs_of(node)).0;
    let ov1 = with_tabs(ov, fresh);
    let x = crate::container::dict_replaced(r[ta].1, fresh);
    assert(ov1 == r.update(ta, (r[ta].0, x)));
    lemma_value_under_update(r, ta, x, key);
    lemma_find_key_from(ov1, key, 0);
    let ix = pack_indices(ov, node);
    if let Some(j) = find_key(ov1, key) {
        if let Some(gs) = list_inner(ov1[j].1) {
            let g2 = repointed(gs, ix);
            let y = list_replaced(ov1[j].1, g2);
            assert(tabs_applied(ov, node).0 == ov1.update(j, (ov1[j].0, y)));
            lemma_find_key_update_value(ov1, j, y, key);
            lemma_list_replaced(ov1[j].1, g2, g2);
            if gs.len() >= 1 {
                lemma_repointed_windows(gs, ix);
            } else {
                assert(claim_upto(gs, ix, 0).0 == gs);
            }
            assert(value_under(tabs_applied(ov, node).0, key) == Some(y));
        }
    }
}

proof fn lemma_list_build_has(p: PackView, n: int, i: int)
    requires
        0 <= i < n <= 6,
        pack_get(p, list_sections()[i].0) is Some,
    ensures
        list_build(p, n).writes.contains(
            (kb(list_sections()[i].1), list_value(i, pack_get(p, list_sections()[i].0)->Some_0)),
        ),
        list_build(p, n).applied.contains(list_sections()[i].0),
    decreases n,
{
    let w = (kb(list_sections()[i].1), list_value(i, pack_get(p, list_sections()[i].0)->Some_0));
    let b = list_build(p, n - 1);
    if n - 1 == i {
        assert(list_build(p, n).writes[b.writes.len() as int] == w);
        assert(list_build(p, n).applied[b.applied.len() as int] == list_sections()[i].0);
    } else {
        lemma_list_build_has(p, n - 1, i);
        let k = choose|k: int| 0 <= k < b.writes.len() && b.writes[k] == w;
        let m = choose|m: int| 0 <= m < b.applied.len() && b.applied[m] == list_sections()[i].0;
        if pack_get(p, list_sections()[n - 1].0) is Some {
            assert(list_build(p, n).writes[k] == w);
            assert(list_build(p, n).applied[m] == list_sections()[i].0);
        }
    }
}

/// A list section the pack carries is applied and written under its
/// `overview` key: the two enabled-state lists strictly ascending and holding
/// exactly the pack's ids, the two order lists in the pack's own order, and
/// the two column lists as byte strings in the pack's order.
pub proof fn lemma_list_section_written(p: PackView, i: int)
    requires
        pack_build(p) is Ok,
        0 <= i < 6,
        pack_get(p, list_sections()[i].0) is Some,
    ensures
        pack_build(p)->Ok_0.applied.contains(list_sections()[i].0),
        pack_build(p)->Ok_0.writes.contains(
            (kb(list_sections()[i].1), list_value(i, pack_get(p, list_sections()[i].0)->Some_0)),
        ),
        (i == 0 || i == 2) ==> {
            let ids = ints_of(pack_get(p, list_sections()[i].0)->Some_0);
            &&& list_value(i, pack_get(p, list_sections()[i].0)->Some_0) == ValueView::List(int_values(sorted_set(ids)))
            &&& forall|a: int, c: int| 0 <= a < c < sorted_set(ids).len() ==> sorted_set(ids)[a] < sorted_set(ids)[c]
            &&& forall|x: i64| sorted_set(ids).contains(x) <==> ids.contains(x)
        },
        (i == 1 || i == 3) ==> list_value(i, pack_get(p, list_sections()[i].0)->Some_0) == ValueView::List(
            int_values(ints_of(pack_get(p, list_sections()[i].0)->Some_0)),
        ),
        i >= 4 ==> list_value(i, pack_get(p, list_sections()[i].0)->Some_0) == ValueView::List(
            strs_of(pack_get(p, list_sections()[i].0)->Some_0).map_values(|s: Seq<char>| ValueView::Bytes(kb(s))),
        ),
{
    let node = pack_get(p, list_sections()[i].0)->Some_0;
    let w = (kb(list_sections()[i].1), list_value(i, node));
    let name = list_sections()[i].0;
    lemma_list_build_has(p, 6, i);
    lemma_sorted_set(ints_of(node));
    let b1 = list_build(p, 6);
    let b = pack_build(p)->Ok_0;
    let k = choose|k: int| 0 <= k < b1.writes.len() && b1.writes[k] == w;
    let m = choose|m: int| 0 <= m < b1.applied.len() && b1.applied[m] == name;
    assert(b.writes[k] == w);
    assert(b.applied[m] == name);
}

/// The value a pack write leaves under its key, given the value there
/// before: an existing `(timestamp, payload)` wrapper keeps its timestamp and
/// takes the new payload, a bare value is replaced by the new one wrapped,
/// and an absent key is minted wrapped with a zero timestamp.
pub open spec fn written_value(before: Option<ValueView>, x: ValueView) -> ValueView {
    match before {
        Some(ValueView::Tuple(items)) => match crate::overview_states::first_slot_from(
            items,
            crate::overview_states::slot_pred(Slot::NotStamp),
            0,
        ) {
            Some(t) => ValueView::Tuple(items.update(t, x)),
            None => ValueView::Tuple(items.push(x)),
        },
        _ => crate::container::stamped(x),
    }
}

proof fn lemma_value_under_payload_set_same(ov: Pairs, k: Seq<u8>, x: ValueView)
    ensures
        value_under(payload_set(ov, k, x, Slot::NotStamp, true), k) == Some(written_value(value_under(ov, k), x)),
{
    lemma_find_key_from(ov, k, 0);
    match find_key(ov, k) {
        Some(j) => {
            let v = payload_set(ov, k, x, Slot::NotStamp, true)[j].1;
            lemma_find_key_update_value(ov, j, v, k);
        },
        None => {
            lemma_value_under_push(ov, (ValueView::Bytes(k), crate::container::stamped(x)), k);
            assert(spec_is_bytes(ValueView::Bytes(k), k));
        },
    }
}

proof fn lemma_list_keys_differ(i: int)
    requires
        0 <= i < 6,
    ensures
        forall|j: int| 0 <= j < 6 && j != i ==> kb(#[trigger] list_sections()[j].1) != kb(list_sections()[i].1),
        kb(list_sections()[i].1) != kb("stateColors"@),
        kb(list_sections()[i].1) != kb("stateBlinks"@),
        kb(list_sections()[i].1) != kb("shipLabels"@),
        forall|name: Seq<char>| #[trigger] overview_bool_names().contains(name) ==> kb(name) != kb(list_sections()[i].1),
        kb(list_sections()[i].1) != presets_key(),
        kb(list_sections()[i].1) != not_saved_key(),
        kb(list_sections()[i].1) != tabs_new_key(),
        kb(list_sections()[i].1) != tabs_old_key(),
        kb(list_sections()[i].1) != mapping_key(),
{
    reveal_strlit("backgroundStates2");
    reveal_strlit("backgroundOrder2");
    reveal_strlit("flagStates2");
    reveal_strlit("flagOrder2");
    reveal_strlit("overviewColumnOrder");
    reveal_strlit("overviewColumns");
    reveal_strlit("stateColors");
    reveal_strlit("stateBlinks");
    reveal_strlit("shipLabels");
    reveal_strlit("applyToStructures");
    reveal_strlit("applyToOtherObjects");
    reveal_strlit("useSmallColorTags");
    reveal_strlit("useSmallText");
    reveal_strlit("overviewBroadcastsToTop");
    reveal_strlit("hideCorpTicker");
    reveal_strlit("overviewProfilePresets");
    reveal_strlit("overviewProfilePresets_notSaved");
    reveal_strlit("tabsettings");
    reveal_strlit("tabsettings_new");
    reveal_strlit("tabsByWindowInstanceID");
    let all = seq![
        "backgroundStates2"@, "backgroundOrder2"@, "flagStates2"@, "flagOrder2"@, "overviewColumnOrder"@,
        "overviewColumns"@, "stateColors"@, "stateBlinks"@, "shipLabels"@, "applyToStructures"@,
        "applyToOtherObjects"@, "useSmallColorTags"@, "useSmallText"@, "overviewBroadcastsToTop"@,
        "hideCorpTicker"@, "overviewProfilePresets"@, "overviewProfilePresets_notSaved"@, "tabsettings"@,
        "tabsettings_new"@, "tabsByWindowInstanceID"@,
    ];
    assert forall|a: int| 0 <= a < all.len() implies vstd::utf8::decode_utf8(kb(#[trigger] all[a])) == all[a] by {
        vstd::utf8::encode_utf8_decode_utf8(all[a]);
    }
    assert(all[0] == "backgroundStates2"@ && all[1] == "backgroundOrder2"@ && all[2] == "flagStates2"@);
    assert(all[3] == "flagOrder2"@ && all[4] == "overviewColumnOrder"@ && all[5] == "overviewColumns"@);
    assert(all[6] == "stateColors"@ && all[7] == "stateBlinks"@ && all[8] == "shipLabels"@);
    assert(all[9] == "applyToStructures"@ && all[10] == "applyToOtherObjects"@ && all[11] == "useSmallColorTags"@);
    assert(all[12] == "useSmallText"@ && all[13] == "overviewBroadcastsToTop"@ && all[14] == "hideCorpTicker"@);
    assert(all[15] == "overviewProfilePresets"@ && all[16] == "overviewProfilePresets_notSaved"@);
    assert(all[17] == "tabsettings"@ && all[18] == "tabsettings_new"@ && all[19] == "tabsByWindowInstanceID"@);
    assert forall|name: Seq<char>| #[trigger] overview_bool_names().contains(name) implies kb(name) != kb(
        list_sections()[i].1,
    ) by {
        let q = choose|q: int| 0 <= q < overview_bool_names().len() && overview_bool_names()[q] == name;
        assert(overview_bool_names()[q] == all[9 + q]);
    }
}

proof fn lemma_list_build_value(p: PackView, ov: Pairs, i: int, n: int)
    requires
        0 <= i < 6,
        0 <= n <= 6,
        pack_get(p, list_sections()[i].0) is Some,
    ensures
        value_under(writes_applied(ov, list_build(p, n).writes), kb(list_sections()[i].1)) == if n > i {
            Some(written_value(value_under(ov, kb(list_sections()[i].1)), list_value(i, pack_get(p, list_sections()[i].0)->Some_0)))
        } else {
            value_under(ov, kb(list_sections()[i].1))
        },
    decreases n,
{
    if n > 0 {
        lemma_list_build_value(p, ov, i, n - 1);
        lemma_list_keys_differ(i);
        let key = kb(list_sections()[i].1);
        let w = list_build(p, n - 1).writes;
        let sec = list_sections()[n - 1];
        if let Some(node) = pack_get(p, sec.0) {
            let e = (kb(sec.1), list_value(n - 1, node));
            assert(list_build(p, n).writes.drop_last() =~= w);
            let prev = writes_applied(ov, w);
            if n - 1 == i {
                lemma_value_under_payload_set_same(prev, key, e.1);
            } else {
                assert(kb(list_sections()[n - 1].1) != key);
                lemma_value_under_payload_set(prev, e.0, e.1, Slot::NotStamp, true, key);
            }
        }
    }
}

proof fn lemma_writes_then(ov: Pairs, a: Seq<(Seq<u8>, ValueView)>, b: Seq<(Seq<u8>, ValueView)>, key: Seq<u8>)
    requires
        forall|q: int| 0 <= q < b.len() ==> (#[trigger] b[q]).0 != key,
    ensures
        value_under(writes_applied(ov, a + b), key) == value_under(writes_applied(ov, a), key),
    decreases b.len(),
{
    if b.len() == 0 {
        assert(a + b =~= a);
    } else {
        let bl = b.drop_last();
        assert((a + b).drop_last() =~= a + bl);
        assert((a + b).last() == b[b.len() - 1]);
        assert forall|q: int| 0 <= q < bl.len() implies (#[trigger] bl[q]).0 != key by {
            assert(bl[q] == b[q]);
        }
        lemma_writes_then(ov, a, bl, key);
        lemma_value_under_payload_set(writes_applied(ov, a + bl), b[b.len() - 1].0, b[b.len() - 1].1, Slot::NotStamp, true, key);
    }
}

/// What a list section of an applied pack leaves in the overview: under its
/// container key, the section's list value (see
/// [`lemma_list_section_written`]) written into the wrapper that was there,
/// keeping its timestamp, or into a fresh zero-stamped one. Nothing else the
/// pack applies writes that key.
pub proof fn lemma_list_section_stored(p: PackView, ov: Pairs, i: int)
    requires
        pack_build(p) is Ok,
        0 <= i < 6,
        pack_get(p, list_sections()[i].0) is Some,
    ensures
        value_under(pack_applied(p, pack_build(p)->Ok_0, ov).0, kb(list_sections()[i].1)) == Some(
            written_value(
                value_under(ov, kb(list_sections()[i].1)),
                list_value(i, pack_get(p, list_sections()[i].0)->Some_0),
            ),
        ),
{
    let key = kb(list_sections()[i].1);
    let want = Some(written_value(value_under(ov, key), list_value(i, pack_get(p, list_sections()[i].0)->Some_0)));
    lemma_list_keys_differ(i);
    lemma_list_build_value(p, ov, i, 6);
    let b1 = list_build(p, 6);
    let b = pack_build(p)->Ok_0;
    // The writes after the list sections are under other keys.
    let tail = b.writes.subrange(b1.writes.len() as int, b.writes.len() as int);
    assert(b1.writes.len() <= b.writes.len());
    assert(b.writes.subrange(0, b1.writes.len() as int) =~= b1.writes);
    assert(b.writes =~= b1.writes + tail);
    match pack_get(p, "userSettings"@) {
        Some(node) => lemma_settings_keys(crate::overview_pack::pairs_of(node)),
        None => {},
    }
    assert forall|q: int| 0 <= q < tail.len() implies (#[trigger] tail[q]).0 != key by {
        let idx = b1.writes.len() + q;
        assert(tail[q] == b.writes[idx]);
        match pack_get(p, "userSettings"@) {
            Some(node) => {
                let sf = settings_fold(crate::overview_pack::pairs_of(node)).0;
                if idx >= b.writes.len() - sf.len() {
                    let t = idx - (b.writes.len() - sf.len());
                    assert(b.writes[idx] == sf[t]);
                    assert(setting_key(sf[t].0));
                    let name = choose|name: Seq<char>| #[trigger] overview_bool_names().contains(name) && sf[t].0 == kb(name);
                }
            },
            None => {},
        }
    }
    lemma_writes_then(ov, b1.writes, tail, key);
    let ov1 = writes_applied(ov, b.writes);
    assert(value_under(ov1, key) == want);
    match live_section(p, "presets"@) {
        Some(node) => {
            let x = ValueView::Dict(crate::pack_apply::preset_entries(crate::overview_pack::pairs_of(node)));
            lemma_value_under_payload_set(ov1, presets_key(), x, Slot::NotStamp, true, key);
            lemma_value_under_filter(payload_set(ov1, presets_key(), x, Slot::NotStamp, true), not_saved_key(), key);
        },
        None => {},
    }
    assert(value_under(staged(p, b, ov), key) == want);
    match live_section(p, "tabSetup"@) {
        Some(node) => {
            lemma_tabs_applied_keeps(staged(p, b, ov), node, key);
        },
        None => {},
    }
}

/// A pack applied to a document with no overview container is refused with
/// `NoOverview`, leaving the document's values as they were (only its
/// sharing is inlined); with one, the build's outcome is the result. A
/// build failure is reported first, the document untouched.
pub proof fn lemma_no_overview_refused(w: ValueView, p: PackView)
    requires
        spec_inline(w) is Some,
    ensures
        pack_build(p) is Err ==> spec_apply_pack(w, p).0 == w && spec_apply_pack(w, p).1 == Err::<
            crate::pack_apply::ReportView,
            PackFailure,
        >(pack_build(p)->Err_0),
        pack_build(p) is Ok ==> ((spec_apply_pack(w, p).1 == Err::<crate::pack_apply::ReportView, PackFailure>(
            PackFailure::NoOverview,
        )) <==> overview_of(spec_inline(w)->Some_0) is None),
        pack_build(p) is Ok && overview_of(spec_inline(w)->Some_0) is None ==> spec_apply_pack(w, p).0 == spec_inline(
            w,
        )->Some_0,
{
}

proof fn lemma_list_build_applied(p: PackView, n: int)
    requires
        0 <= n <= 6,
    ensures
        forall|i: int|
            0 <= i < list_build(p, n).applied.len() ==> exists|k: int|
                0 <= k < n && #[trigger] list_build(p, n).applied[i] == list_sections()[k].0,
    decreases n,
{
    if n > 0 {
        lemma_list_build_applied(p, n - 1);
        let b = list_build(p, n - 1);
        let a = list_build(p, n).applied;
        assert forall|i: int| 0 <= i < a.len() implies exists|k: int| 0 <= k < n && #[trigger] a[i] == list_sections()[k].0 by {
            if i < b.applied.len() {
                if pack_get(p, list_sections()[n - 1].0) is Some {
                    assert(a[i] == b.applied[i]);
                }
                let k = choose|k: int| 0 <= k < n - 1 && #[trigger] b.applied[i] == list_sections()[k].0;
                assert(a[i] == list_sections()[k].0);
            } else {
                assert(a[i] == list_sections()[n - 1].0);
            }
        }
    }
}

/// An empty `presets` section is skipped with a warning: the report does
/// not list `presets` as applied, and names the empty section among its
/// warnings; the pack's other sections still apply.
pub proof fn lemma_empty_presets_skipped(p: PackView, ov: Pairs)
    requires
        pack_build(p) is Ok,
        pack_get(p, "presets"@) == Some(crate::overview_pack::NodeView::List(Seq::empty())),
    ensures
        !pack_applied(p, pack_build(p)->Ok_0, ov).1.applied.contains("presets"@),
        pack_applied(p, pack_build(p)->Ok_0, ov).1.warnings.contains(crate::pack_apply::empty_presets_warning()),
        live_section(p, "presets"@) is None,
{
    reveal_strlit("presets");
    reveal_strlit("backgroundStates");
    reveal_strlit("backgroundOrder");
    reveal_strlit("flagStates");
    reveal_strlit("flagOrder");
    reveal_strlit("columnOrder");
    reveal_strlit("overviewColumns");
    reveal_strlit("stateColorsNameList");
    reveal_strlit("stateBlinks");
    reveal_strlit("shipLabels");
    reveal_strlit("userSettings");
    reveal_strlit("tabSetup");
    let b = pack_build(p)->Ok_0;
    let b1 = list_build(p, 6);
    lemma_list_build_applied(p, 6);
    let r = pack_applied(p, b, ov).1;
    let extra = seq!["stateColorsNameList"@, "stateBlinks"@, "shipLabels"@, "userSettings"@, "tabSetup"@];
    assert forall|i: int| 0 <= i < r.applied.len() implies r.applied[i] != "presets"@ by {
        if i < b1.applied.len() {
            assert(r.applied[i] == b1.applied[i]);
            let k = choose|k: int| 0 <= k < 6 && #[trigger] b1.applied[i] == list_sections()[k].0;
            assert(list_sections()[k].0 != "presets"@);
        } else {
            assert(r.applied[i] == extra[0] || r.applied[i] == extra[1] || r.applied[i] == extra[2] || r.applied[i]
                == extra[3] || r.applied[i] == extra[4]);
        }
    }
    let ew = crate::pack_apply::empty_warnings(p);
    let ws = b.warnings + ew;
    assert(ew[0] == crate::pack_apply::empty_presets_warning());
    assert(ws[b.warnings.len() as int] == crate::pack_apply::empty_presets_warning());
    if let Some(node) = live_section(p, "tabSetup"@) {
        let n = tabs_applied(staged(p, b, ov), node).1;
        if n > 0 {
            assert(r.warnings[b.warnings.len() as int] == ws[b.warnings.len() as int]);
        }
    }
}

} // verus!
