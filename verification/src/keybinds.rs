//! The keybinding table of a user file: `cmd -> customCmds -> (timestamp,
//! dict)`, mapping a command name (bytes) to `None` (unbound) or a tuple of
//! Windows virtual-key codes. The timestamp wrapper is on `customCmds`, never
//! on a binding: a binding is a bare tuple of integers. Reads work on the
//! inlined document.

use vstd::prelude::*;
use vstd::slice::slice_to_vec;

use crate::autofill::child_value;
use crate::batch::{dict_inner, find_key, find_key_exec, lemma_find_key_from, spec_is_bytes};
use crate::container::{dict_replaced, lemma_dict_replaced, swap_entry_dict, Pairs};
use crate::overview_tabs::{int_values, int_values_exec, kb, lemma_find_key_update_value};
use crate::path::lemma_model_pairs_update;
use crate::reshare::spec_inline;
use crate::text::{lossy_text, utf8_lossy};
use crate::value::{lemma_model_pairs, lemma_model_seq, model, model_pairs, model_seq, Value, ValueView};

verus! {

broadcast use vstd::std_specs::vec::group_vec_axioms;

/// The Ctrl modifier's virtual-key code.
pub const MOD_CTRL: i64 = 17;

/// The Alt modifier's virtual-key code.
pub const MOD_ALT: i64 = 18;

/// The Shift modifier's virtual-key code.
pub const MOD_SHIFT: i64 = 16;

/// One command's binding.
pub struct KeybindEntry {
    pub command: String,
    /// `None` when unbound; otherwise the codes as stored.
    pub keys: Option<Vec<i64>>,
    /// The stored value is neither `None` nor a tuple of integers: shown as
    /// unbound, and left as it is unless the user rebinds the row.
    pub malformed: bool,
}

/// The table as the UI shows it.
pub struct Keybinds {
    pub entries: Vec<KeybindEntry>,
    /// False when there is no file, no table, or the table is empty.
    pub available: bool,
}

/// Why a binding was refused.
#[derive(Debug, PartialEq, Eq)]
pub enum KeybindError {
    /// No `cmd -> customCmds` in this file.
    NoTable,
    /// The table has no such command: the editor never mints rows.
    UnknownCommand,
    /// No code that is not a modifier.
    NoKey,
    /// More than one code that is not a modifier.
    MultipleKeys,
    /// A modifier given twice.
    DuplicateModifier,
}

/// An entry, by view: the command, its codes, and whether it is malformed.
pub open spec fn entry_view(e: KeybindEntry) -> (Seq<char>, Option<Seq<i64>>, bool) {
    (
        e.command@,
        match e.keys {
            Some(k) => Some(k@),
            None => None,
        },
        e.malformed,
    )
}

pub open spec fn entries_view(s: Seq<KeybindEntry>) -> Seq<(Seq<char>, Option<Seq<i64>>, bool)> {
    s.map_values(|e: KeybindEntry| entry_view(e))
}

/// The text of a command key: bytes read as UTF-8, text as it is.
pub open spec fn key_text(k: ValueView) -> Option<Seq<char>> {
    match k {
        ValueView::Bytes(b) => Some(utf8_lossy(b)),
        ValueView::Str(s) => Some(s),
        ValueView::StrUcs2(s) => Some(s),
        _ => None,
    }
}

/// The integers of a tuple's items, when every item is one.
pub open spec fn all_ints(items: Seq<ValueView>) -> Option<Seq<i64>>
    decreases items.len(),
{
    if items.len() == 0 {
        Some(Seq::empty())
    } else {
        match (all_ints(items.drop_last()), items.last()) {
            (Some(r), ValueView::Int(i)) => Some(r.push(i)),
            _ => None,
        }
    }
}

/// A stored binding: `None` is unbound; a non-empty tuple of integers is
/// its codes; anything else is malformed.
pub open spec fn read_binding(v: ValueView) -> (Option<Seq<i64>>, bool) {
    match v {
        ValueView::Nil => (None, false),
        ValueView::Tuple(items) => match all_ints(items) {
            Some(codes) => if codes.len() == 0 {
                (None, true)
            } else {
                (Some(codes), false)
            },
            None => (None, true),
        },
        _ => (None, true),
    }
}

/// The table under `cmd -> customCmds` (each bare or wrapped).
pub open spec fn table_of(w: ValueView) -> Option<Pairs> {
    match w {
        ValueView::Dict(root) => match child_value(root, "cmd"@) {
            Some(cmd) => match dict_inner(cmd) {
                Some(c) => match child_value(c, "customCmds"@) {
                    Some(t) => dict_inner(t),
                    None => None,
                },
                None => None,
            },
            None => None,
        },
        _ => None,
    }
}

/// The rows of a table: each entry keyed by text, with its binding read.
pub open spec fn rows(t: Pairs) -> Seq<(Seq<char>, Option<Seq<i64>>, bool)>
    decreases t.len(),
{
    if t.len() == 0 {
        Seq::empty()
    } else {
        let r = rows(t.drop_last());
        match key_text(t.last().0) {
            Some(c) => r.push((c, read_binding(t.last().1).0, read_binding(t.last().1).1)),
            None => r,
        }
    }
}

/// The keybindings of a user document (inlined), when there is one.
pub open spec fn spec_project_keybinds(w: Option<ValueView>) -> Seq<(Seq<char>, Option<Seq<i64>>, bool)> {
    match w {
        Some(w) => match table_of(w) {
            Some(t) => rows(t),
            None => Seq::empty(),
        },
        None => Seq::empty(),
    }
}

pub(crate) fn key_string(k: &Value) -> (r: Option<String>)
    ensures
        match r {
            Some(s) => key_text(k@) == Some(s@),
            None => key_text(k@) is None,
        },
{
    match k {
        Value::Bytes(b) => Some(lossy_text(b.as_slice())),
        Value::Str(s) => Some(s.clone()),
        Value::StrUcs2(s) => Some(s.clone()),
        _ => None,
    }
}

fn read_binding_exec(v: &Value) -> (r: (Option<Vec<i64>>, bool))
    ensures
        (
            match r.0 {
                Some(k) => Some(k@),
                None => None,
            },
            r.1,
        ) == read_binding(v@),
{
    match v {
        Value::Nil => (None, false),
        Value::Tuple(items) => {
            let ghost m = model_seq(items@);
            proof {
                lemma_model_seq(items@);
            }
            let mut codes: Vec<i64> = Vec::new();
            let mut i: usize = 0;
            assert(m.take(0) =~= Seq::<ValueView>::empty());
            while i < items.len()
                invariant
                    i <= items.len(),
                    m == model_seq(items@),
                    v@ == ValueView::Tuple(m),
                    m.len() == items@.len(),
                    forall|j: int| 0 <= j < items@.len() ==> #[trigger] m[j] == items@[j]@,
                    all_ints(m.take(i as int)) == Some(codes@),
                decreases items.len() - i,
            {
                assert(m.take(i + 1).drop_last() =~= m.take(i as int));
                assert(m.take(i + 1).last() == m[i as int]);
                match &items[i] {
                    Value::Int(x) => codes.push(*x),
                    _ => {
                        proof {
                            assert(!(m[i as int] is Int));
                            assert(all_ints(m.take(i + 1)) is None);
                            lemma_all_ints_prefix(m, i as int + 1);
                        }
                        return (None, true);
                    },
                }
                i = i + 1;
            }
            assert(m.take(m.len() as int) =~= m);
            if codes.len() == 0 {
                (None, true)
            } else {
                (Some(codes), false)
            }
        },
        _ => (None, true),
    }
}

/// A failed prefix fails the whole sequence.
proof fn lemma_all_ints_prefix(m: Seq<ValueView>, n: int)
    requires
        0 <= n <= m.len(),
        all_ints(m.take(n)) is None,
    ensures
        all_ints(m) is None,
    decreases m.len() - n,
{
    if n < m.len() {
        assert(m.take(n + 1).drop_last() =~= m.take(n));
        lemma_all_ints_prefix(m, n + 1);
    } else {
        assert(m.take(n) =~= m);
    }
}

fn table_exec(w: &Value) -> (r: Option<&Vec<(Value, Value)>>)
    ensures
        match r {
            Some(t) => table_of(w@) == Some(model_pairs(t@)),
            None => table_of(w@) is None,
        },
{
    let root = match w {
        Value::Dict(root) => root,
        _ => return None,
    };
    let cmd = match crate::autofill::child_value_exec(root, "cmd") {
        Some(cmd) => cmd,
        None => return None,
    };
    let c = match crate::batch::dict_inner_exec(cmd) {
        Some(c) => c,
        None => return None,
    };
    let t = match crate::autofill::child_value_exec(c, "customCmds") {
        Some(t) => t,
        None => return None,
    };
    crate::batch::dict_inner_exec(t)
}

/// The keybinding table of a user file, in the file's order, as
/// [`spec_project_keybinds`] states it; `available` when it has a row.
pub fn project_keybinds(user: Option<&Value>) -> (r: Keybinds)
    requires
        user matches Some(u) ==> spec_inline(u@) is Some,
    ensures
        entries_view(r.entries@) == spec_project_keybinds(
            match user {
                Some(u) => Some(spec_inline(u@)->Some_0),
                None => None,
            },
        ),
        r.available == (r.entries@.len() > 0),
{
    let mut entries: Vec<KeybindEntry> = Vec::new();
    assert(entries_view(entries@) =~= Seq::<(Seq<char>, Option<Seq<i64>>, bool)>::empty());
    let u = match user {
        Some(u) => u,
        None => return Keybinds { entries, available: false },
    };
    let w = crate::reshare::inline(u);
    let t = match table_exec(&w) {
        Some(t) => t,
        None => return Keybinds { entries, available: false },
    };
    let ghost m = model_pairs(t@);
    proof {
        lemma_model_pairs(t@);
    }
    let mut i: usize = 0;
    assert(m.take(0) =~= Seq::<(ValueView, ValueView)>::empty());
    while i < t.len()
        invariant
            i <= t.len(),
            m == model_pairs(t@),
            m.len() == t@.len(),
            forall|j: int| 0 <= j < t@.len() ==> #[trigger] m[j] == (t@[j].0@, t@[j].1@),
            entries_view(entries@) == rows(m.take(i as int)),
        decreases t.len() - i,
    {
        assert(m.take(i + 1).drop_last() =~= m.take(i as int));
        assert(m.take(i + 1).last() == m[i as int]);
        match key_string(&t[i].0) {
            Some(command) => {
                let (keys, malformed) = read_binding_exec(&t[i].1);
                let e = KeybindEntry { command, keys, malformed };
                let ghost before = entries@;
                entries.push(e);
                proof {
                    assert(entries_view(entries@) =~= entries_view(before).push(entry_view(e)));
                }
            },
            None => {},
        }
        i = i + 1;
    }
    assert(m.take(m.len() as int) =~= m);
    let available = entries.len() > 0;
    Keybinds { entries, available }
}

// ---------------------------------------------------------------------------
// Binding.
// ---------------------------------------------------------------------------

/// The modifiers, in the order the client writes them: Ctrl, Alt, Shift.
pub open spec fn modifiers() -> Seq<i64> {
    seq![MOD_CTRL, MOD_ALT, MOD_SHIFT]
}

pub open spec fn is_modifier() -> spec_fn(i64) -> bool {
    |c: i64| modifiers().contains(c)
}

pub open spec fn not_modifier() -> spec_fn(i64) -> bool {
    |c: i64| !modifiers().contains(c)
}

/// Whether `s` holds some value twice.
pub open spec fn has_repeat(s: Seq<i64>) -> bool {
    exists|i: int, j: int| 0 <= i < j < s.len() && s[i] == s[j]
}

/// A combination in the client's canonical form: the modifiers it holds in
/// the order Ctrl, Alt, Shift, then exactly one other code. A repeated
/// modifier, no other code, or more than one other code is refused.
pub open spec fn spec_canonical(keys: Seq<i64>) -> Result<Seq<i64>, KeybindError> {
    let mods = keys.filter(is_modifier());
    let rest = keys.filter(not_modifier());
    if has_repeat(mods) {
        Err(KeybindError::DuplicateModifier)
    } else if rest.len() == 0 {
        Err(KeybindError::NoKey)
    } else if rest.len() > 1 {
        Err(KeybindError::MultipleKeys)
    } else {
        Ok(modifiers().filter(|m: i64| mods.contains(m)).push(rest[0]))
    }
}

fn is_modifier_exec(c: i64) -> (r: bool)
    ensures
        r == modifiers().contains(c),
{
    let r = c == MOD_CTRL || c == MOD_ALT || c == MOD_SHIFT;
    proof {
        if r {
            if c == MOD_CTRL {
                assert(modifiers()[0] == c);
            } else if c == MOD_ALT {
                assert(modifiers()[1] == c);
            } else {
                assert(modifiers()[2] == c);
            }
        }
    }
    r
}

fn contains_i64(s: &Vec<i64>, x: i64) -> (r: bool)
    ensures
        r == s@.contains(x),
{
    let mut i: usize = 0;
    while i < s.len()
        invariant
            i <= s.len(),
            forall|j: int| 0 <= j < i ==> s@[j] != x,
        decreases s.len() - i,
    {
        if s[i] == x {
            assert(s@[i as int] == x);
            return true;
        }
        i = i + 1;
    }
    false
}

fn canonical(keys: &Vec<i64>) -> (r: Result<Vec<i64>, KeybindError>)
    ensures
        match r {
            Ok(c) => spec_canonical(keys@) == Ok::<Seq<i64>, KeybindError>(c@),
            Err(e) => spec_canonical(keys@) == Err::<Seq<i64>, KeybindError>(e),
        },
{
    let mut mods: Vec<i64> = Vec::new();
    let mut rest: Vec<i64> = Vec::new();
    let mut i: usize = 0;
    proof {
        crate::container::lemma_filter_empty(keys@.take(0), is_modifier());
        crate::container::lemma_filter_empty(keys@.take(0), not_modifier());
    }
    while i < keys.len()
        invariant
            i <= keys.len(),
            mods@ == keys@.take(i as int).filter(is_modifier()),
            rest@ == keys@.take(i as int).filter(not_modifier()),
        decreases keys.len() - i,
    {
        proof {
            crate::container::lemma_filter_step(keys@, i as int, is_modifier());
            crate::container::lemma_filter_step(keys@, i as int, not_modifier());
        }
        if is_modifier_exec(keys[i]) {
            mods.push(keys[i]);
        } else {
            rest.push(keys[i]);
        }
        i = i + 1;
    }
    assert(keys@.take(keys@.len() as int) =~= keys@);
    let mut a: usize = 0;
    while a < mods.len()
        invariant
            a <= mods@.len(),
            mods@ == keys@.filter(is_modifier()),
            forall|x: int, y: int| 0 <= x < y < mods@.len() && x < a ==> mods@[x] != mods@[y],
        decreases mods@.len() - a,
    {
        let mut b: usize = a + 1;
        while b < mods.len()
            invariant
                a < b <= mods@.len(),
                mods@ == keys@.filter(is_modifier()),
                forall|x: int, y: int| 0 <= x < y < mods@.len() && x < a ==> mods@[x] != mods@[y],
                forall|y: int| a < y < b ==> mods@[a as int] != mods@[y],
            decreases mods@.len() - b,
        {
            if mods[a] == mods[b] {
                proof {
                    assert(has_repeat(mods@));
                }
                return Err(KeybindError::DuplicateModifier);
            }
            b = b + 1;
        }
        a = a + 1;
    }
    assert(!has_repeat(mods@));
    if rest.len() == 0 {
        return Err(KeybindError::NoKey);
    }
    if rest.len() > 1 {
        return Err(KeybindError::MultipleKeys);
    }
    let order: Vec<i64> = vec![MOD_CTRL, MOD_ALT, MOD_SHIFT];
    assert(order@ == modifiers());
    let ghost keep = |m: i64| mods@.contains(m);
    let mut out: Vec<i64> = Vec::new();
    let mut k: usize = 0;
    proof {
        crate::container::lemma_filter_empty(order@.take(0), keep);
    }
    while k < 3
        invariant
            k <= 3,
            order@ == modifiers(),
            keep == (|m: i64| mods@.contains(m)),
            out@ == order@.take(k as int).filter(keep),
            mods@ == keys@.filter(is_modifier()),
        decreases 3 - k,
    {
        proof {
            crate::container::lemma_filter_step(order@, k as int, keep);
        }
        if contains_i64(&mods, order[k]) {
            out.push(order[k]);
        }
        k = k + 1;
    }
    assert(order@.take(3) =~= order@);
    out.push(rest[0]);
    Ok(out)
}

/// The document with its keybinding table replaced by `t`, each wrapper
/// kept (where [`table_of`] finds one).
pub open spec fn with_table(w: ValueView, t: Pairs) -> ValueView {
    let root = w->Dict_0;
    let j = find_key(root, kb("cmd"@))->Some_0;
    let c = dict_inner(root[j].1)->Some_0;
    let k = find_key(c, kb("customCmds"@))->Some_0;
    ValueView::Dict(
        root.update(j, (root[j].0, dict_replaced(root[j].1, c.update(k, (c[k].0, dict_replaced(c[k].1, t)))))),
    )
}

proof fn lemma_with_table(w: ValueView, t1: Pairs, t2: Pairs)
    requires
        table_of(w) is Some,
    ensures
        table_of(with_table(w, t1)) == Some(t1),
        with_table(with_table(w, t1), t2) == with_table(w, t2),
        with_table(w, table_of(w)->Some_0) == w,
{
    let root = w->Dict_0;
    let j = find_key(root, kb("cmd"@))->Some_0;
    let c = dict_inner(root[j].1)->Some_0;
    let k = find_key(c, kb("customCmds"@))->Some_0;
    lemma_find_key_from(root, kb("cmd"@), 0);
    lemma_find_key_from(c, kb("customCmds"@), 0);
    lemma_dict_replaced(c[k].1, t1, t2);
    let c1 = c.update(k, (c[k].0, dict_replaced(c[k].1, t1)));
    lemma_find_key_update_value(c, k, dict_replaced(c[k].1, t1), kb("customCmds"@));
    lemma_dict_replaced(root[j].1, c1, c.update(k, (c[k].0, dict_replaced(c[k].1, t2))));
    lemma_find_key_update_value(root, j, dict_replaced(root[j].1, c1), kb("cmd"@));
    let c2 = c1.update(k, (c1[k].0, dict_replaced(c1[k].1, t2)));
    assert(c2 =~= c.update(k, (c[k].0, dict_replaced(c[k].1, t2))));
    let r1 = root.update(j, (root[j].0, dict_replaced(root[j].1, c1)));
    assert(r1.update(j, (r1[j].0, dict_replaced(r1[j].1, c2))) =~= root.update(
        j,
        (root[j].0, dict_replaced(root[j].1, c2)),
    ));
    assert(c.update(k, (c[k].0, dict_replaced(c[k].1, dict_inner(c[k].1)->Some_0))) =~= c);
    lemma_dict_replaced(root[j].1, c, c);
    assert(root.update(j, (root[j].0, dict_replaced(root[j].1, c))) =~= root);
}

/// Swap the keybinding table of a document with `t`; nothing changes when
/// there is no table.
fn swap_table(w: &mut Value, t: &mut Vec<(Value, Value)>) -> (found: bool)
    ensures
        found == table_of(old(w)@) is Some,
        found ==> table_of(old(w)@) == Some(model_pairs(final(t)@)) && final(w)@ == with_table(
            old(w)@,
            model_pairs(old(t)@),
        ),
        !found ==> final(w)@ == old(w)@ && final(t)@ == old(t)@,
{
    let ghost tin = model_pairs(t@);
    let root = match w {
        Value::Dict(root) => root,
        _ => return false,
    };
    proof {
        lemma_model_pairs(root@);
    }
    let ghost r0 = model_pairs(root@);
    assert(old(w)@ == ValueView::Dict(r0));
    let j = match find_key_exec(root, "cmd".as_bytes()) {
        Some(j) => j,
        None => return false,
    };
    let mut cmd: Vec<(Value, Value)> = Vec::new();
    assert(model_pairs(cmd@) =~= Seq::<(ValueView, ValueView)>::empty());
    if !swap_entry_dict(root, j, &mut cmd) {
        return false;
    }
    proof {
        lemma_model_pairs(cmd@);
    }
    let ghost c0 = model_pairs(cmd@);
    let k = match find_key_exec(&cmd, "customCmds".as_bytes()) {
        Some(k) => k,
        None => {
            swap_entry_dict(root, j, &mut cmd);
            proof {
                lemma_dict_replaced(r0[j as int].1, Seq::empty(), c0);
                assert(model_pairs(root@) =~= r0);
            }
            return false;
        },
    };
    if !swap_entry_dict(&mut cmd, k, t) {
        swap_entry_dict(root, j, &mut cmd);
        proof {
            lemma_dict_replaced(r0[j as int].1, Seq::empty(), c0);
            assert(model_pairs(root@) =~= r0);
        }
        return false;
    }
    let ghost c1 = model_pairs(cmd@);
    swap_entry_dict(root, j, &mut cmd);
    proof {
        lemma_dict_replaced(r0[j as int].1, Seq::empty(), c1);
        assert(find_key(r0, kb("cmd"@)) == Some(j as int));
        assert(find_key(c0, kb("customCmds"@)) == Some(k as int));
        assert(c0 == dict_inner(r0[j as int].1)->Some_0);
        assert(c1 == c0.update(k as int, (c0[k as int].0, dict_replaced(c0[k as int].1, tin))));
        assert(model_pairs(root@) == r0.update(j as int, (r0[j as int].0, dict_replaced(r0[j as int].1, c1))));
    }
    true
}

/// The value a binding is stored as: a bare tuple of its codes, or `None`.
pub open spec fn binding_value(c: Option<Seq<i64>>) -> ValueView {
    match c {
        Some(c) => ValueView::Tuple(int_values(c)),
        None => ValueView::Nil,
    }
}

/// The table with every other command that holds `want` unbound.
pub open spec fn steal(t: Pairs, command: Seq<char>, want: ValueView) -> Pairs {
    t.map_values(
        |e: (ValueView, ValueView)|
            if !spec_is_bytes(e.0, kb(command)) && e.1 == want {
                (e.0, ValueView::Nil)
            } else {
                e
            },
    )
}

/// The commands that lose `want` to `command`, in order (those keyed by
/// bytes).
pub open spec fn stolen(t: Pairs, command: Seq<char>, want: ValueView) -> Seq<Seq<char>>
    decreases t.len(),
{
    if t.len() == 0 {
        Seq::empty()
    } else {
        let r = stolen(t.drop_last(), command, want);
        let e = t.last();
        if !spec_is_bytes(e.0, kb(command)) && e.1 == want {
            match e.0 {
                ValueView::Bytes(n) => r.push(utf8_lossy(n)),
                _ => r,
            }
        } else {
            r
        }
    }
}

/// Binding `command` to `keys` (unbinding it with `None`): the combination
/// is checked and put in canonical form before anything changes; then the
/// document is inlined, a missing table or command is refused, any other
/// command holding the same combination loses it (the client never stores
/// one twice), and the command's own entry is set. The table's timestamp
/// is kept, and a binding is never wrapped.
pub open spec fn spec_set_keybind(v: ValueView, command: Seq<char>, keys: Option<Seq<i64>>) -> (
    ValueView,
    Result<Seq<Seq<char>>, KeybindError>,
) {
    let canon: Result<Option<Seq<i64>>, KeybindError> = match keys {
        Some(k) => match spec_canonical(k) {
            Ok(c) => Ok(Some(c)),
            Err(e) => Err(e),
        },
        None => Ok(None),
    };
    match canon {
        Err(e) => (v, Err(e)),
        Ok(c) => {
            let w = spec_inline(v)->Some_0;
            match table_of(w) {
                None => (w, Err(KeybindError::NoTable)),
                Some(t) => match find_key(t, kb(command)) {
                    None => (w, Err(KeybindError::UnknownCommand)),
                    Some(j) => {
                        let t1 = if c is Some {
                            steal(t, command, binding_value(c))
                        } else {
                            t
                        };
                        let names = if c is Some {
                            stolen(t, command, binding_value(c))
                        } else {
                            Seq::empty()
                        };
                        (with_table(w, t1.update(j, (t1[j].0, binding_value(c)))), Ok(names))
                    },
                },
            }
        },
    }
}

/// A binding's outcome, by view.
pub open spec fn bind_outcome(r: Result<Vec<String>, KeybindError>) -> Result<Seq<Seq<char>>, KeybindError> {
    match r {
        Ok(names) => Ok(names@.map_values(|s: String| s@)),
        Err(e) => Err(e),
    }
}

fn is_binding(v: &Value, c: &Vec<i64>) -> (r: bool)
    ensures
        r == (v@ == ValueView::Tuple(int_values(c@))),
{
    match v {
        Value::Tuple(items) => {
            proof {
                lemma_model_seq(items@);
            }
            if items.len() != c.len() {
                return false;
            }
            let mut i: usize = 0;
            while i < items.len()
                invariant
                    i <= items@.len(),
                    items@.len() == c@.len(),
                    v@ == ValueView::Tuple(model_seq(items@)),
                    model_seq(items@).len() == items@.len(),
                    forall|j: int| 0 <= j < items@.len() ==> #[trigger] model_seq(items@)[j] == items@[j]@,
                    forall|j: int| 0 <= j < i ==> model_seq(items@)[j] == ValueView::Int(c@[j]),
                decreases items@.len() - i,
            {
                match &items[i] {
                    Value::Int(x) => {
                        if *x != c[i] {
                            proof {
                                assert(int_values(c@)[i as int] == ValueView::Int(c@[i as int]));
                                assert(model_seq(items@)[i as int] != int_values(c@)[i as int]);
                            }
                            return false;
                        }
                    },
                    _ => {
                        proof {
                            assert(int_values(c@)[i as int] == ValueView::Int(c@[i as int]));
                            assert(model_seq(items@)[i as int] != int_values(c@)[i as int]);
                        }
                        return false;
                    },
                }
                i = i + 1;
            }
            assert(model_seq(items@) =~= int_values(c@));
            true
        },
        _ => false,
    }
}

fn binding_exec(c: &Option<Vec<i64>>) -> (r: Value)
    ensures
        r@ == binding_value(
            match c {
                Some(k) => Some(k@),
                None => None,
            },
        ),
{
    match c {
        Some(k) => Value::Tuple(int_values_exec(k.as_slice())),
        None => Value::Nil,
    }
}

/// Bind `command` to `keys`, or unbind it with `None`, as
/// [`spec_set_keybind`] states it; returns the commands whose binding was
/// taken.
pub fn set_keybind(user: &mut Value, command: &str, keys: Option<Vec<i64>>) -> (r: Result<Vec<String>, KeybindError>)
    requires
        spec_inline(old(user)@) is Some,
    ensures
        (final(user)@, bind_outcome(r)) == spec_set_keybind(
            old(user)@,
            command@,
            match keys {
                Some(k) => Some(k@),
                None => None,
            },
        ),
{
    let canon = match keys {
        Some(k) => match canonical(&k) {
            Ok(c) => Some(c),
            Err(e) => return Err(e),
        },
        None => None,
    };
    let ghost cv = match &canon {
        Some(c) => Some(c@),
        None => None,
    };
    let w = crate::reshare::inline(user);
    *user = w;
    let ghost w0 = user@;
    let mut t: Vec<(Value, Value)> = Vec::new();
    assert(model_pairs(t@) =~= Seq::<(ValueView, ValueView)>::empty());
    if !swap_table(user, &mut t) {
        return Err(KeybindError::NoTable);
    }
    let ghost t0 = model_pairs(t@);
    proof {
        lemma_with_table(w0, Seq::empty(), t0);
        lemma_model_pairs(t@);
    }
    if find_key_exec(&t, command.as_bytes()).is_none() {
        swap_table(user, &mut t);
        return Err(KeybindError::UnknownCommand);
    }
    let mut names: Vec<String> = Vec::new();
    let ghost want = binding_value(cv);
    match &canon {
        Some(c) => {
            let mut i: usize = 0;
            assert(t0.take(0) =~= Seq::<(ValueView, ValueView)>::empty());
            assert(names@.map_values(|s: String| s@) =~= Seq::<Seq<char>>::empty());
            while i < t.len()
                invariant
                    i <= t@.len(),
                    t0.len() == t@.len(),
                    want == ValueView::Tuple(int_values(c@)),
                    model_pairs(t@).len() == t@.len(),
                    forall|k: int| 0 <= k < t@.len() ==> #[trigger] model_pairs(t@)[k] == (t@[k].0@, t@[k].1@),
                    forall|k: int| 0 <= k < i ==> #[trigger] model_pairs(t@)[k] == steal(t0, command@, want)[k],
                    forall|k: int| i <= k < t@.len() ==> #[trigger] model_pairs(t@)[k] == t0[k],
                    names@.map_values(|s: String| s@) == stolen(t0.take(i as int), command@, want),
                decreases t@.len() - i,
            {
                assert(t0.take(i + 1).drop_last() =~= t0.take(i as int));
                assert(t0.take(i + 1).last() == t0[i as int]);
                let ghost before = t@;
                let ghost nb = names@;
                let ghost e = t0[i as int];
                assert(model_pairs(t@)[i as int] == e);
                assert(t@[i as int].0@ == e.0 && t@[i as int].1@ == e.1);
                let hit = !crate::batch::is_bytes(&t[i].0, command.as_bytes()) && is_binding(&t[i].1, c);
                assert(hit == (!spec_is_bytes(e.0, kb(command@)) && e.1 == want));
                if hit {
                    match &t[i].0 {
                        Value::Bytes(n) => {
                            names.push(lossy_text(n.as_slice()));
                            proof {
                                assert(e.0 == ValueView::Bytes(n@));
                                assert(names@.map_values(|s: String| s@) =~= nb.map_values(|s: String| s@).push(
                                    utf8_lossy(n@),
                                ));
                            }
                        },
                        _ => {
                            assert(!(e.0 is Bytes));
                        },
                    }
                    let mut x = Value::Nil;
                    std::mem::swap(&mut t[i].1, &mut x);
                    proof {
                        lemma_model_pairs_update(before, i as int, t@[i as int]);
                        assert(before.update(i as int, t@[i as int]) =~= t@);
                        lemma_model_pairs(t@);
                    }
                }
                proof {
                    assert(steal(t0, command@, want)[i as int] == model_pairs(t@)[i as int]);
                    assert(names@.map_values(|s: String| s@) == stolen(t0.take(i + 1), command@, want));
                }
                i = i + 1;
            }
            assert(t0.take(t0.len() as int) =~= t0);
            proof {
                assert(model_pairs(t@) =~= steal(t0, command@, want));
            }
        },
        None => {
            assert(names@.map_values(|s: String| s@) =~= Seq::<Seq<char>>::empty());
        },
    }
    let ghost t1 = model_pairs(t@);
    assert(t1 == if cv is Some {
        steal(t0, command@, want)
    } else {
        t0
    });
    proof {
        lemma_model_pairs(t@);
        crate::overview_tabs::lemma_find_key_same_keys(t0, t1, kb(command@), 0);
    }
    let j = match find_key_exec(&t, command.as_bytes()) {
        Some(j) => j,
        None => return Err(KeybindError::UnknownCommand),
    };
    let ghost before = t@;
    let mut x = binding_exec(&canon);
    std::mem::swap(&mut t[j].1, &mut x);
    proof {
        lemma_model_pairs_update(before, j as int, t@[j as int]);
        assert(before.update(j as int, t@[j as int]) =~= t@);
    }
    let ghost t2 = model_pairs(t@);
    assert(t2 == t1.update(j as int, (t1[j as int].0, binding_value(cv))));
    swap_table(user, &mut t);
    proof {
        lemma_with_table(w0, Seq::empty(), t2);
    }
    assert(user@ == with_table(w0, t2));
    Ok(names)
}

// ---------------------------------------------------------------------------
// Laws.
// ---------------------------------------------------------------------------

/// A combination is never held twice: after a binding succeeds, the table
/// gives the command the canonical form of `keys`, and every entry holding
/// that combination is keyed by the command itself.
pub proof fn lemma_binding_is_exclusive(v: ValueView, command: Seq<char>, keys: Seq<i64>)
    requires
        spec_inline(v) is Some,
        spec_set_keybind(v, command, Some(keys)).1 is Ok,
    ensures
        ({
            let w = spec_set_keybind(v, command, Some(keys)).0;
            let want = binding_value(Some(spec_canonical(keys)->Ok_0));
            &&& table_of(w) is Some
            &&& find_key(table_of(w)->Some_0, kb(command)) matches Some(j) && table_of(w)->Some_0[j].1 == want
            &&& forall|i: int|
                0 <= i < table_of(w)->Some_0.len() && #[trigger] table_of(w)->Some_0[i].1 == want
                    ==> spec_is_bytes(table_of(w)->Some_0[i].0, kb(command))
        }),
{
    let c = spec_canonical(keys)->Ok_0;
    let want = binding_value(Some(c));
    let w0 = spec_inline(v)->Some_0;
    let t0 = table_of(w0)->Some_0;
    let j = find_key(t0, kb(command))->Some_0;
    let t1 = steal(t0, command, want);
    let t2 = t1.update(j, (t1[j].0, want));
    lemma_with_table(w0, t2, t2);
    lemma_find_key_from(t0, kb(command), 0);
    assert forall|k: int| 0 <= k < t0.len() implies #[trigger] t0[k].0 == t2[k].0 by {}
    crate::overview_tabs::lemma_find_key_same_keys(t0, t2, kb(command), 0);
    assert forall|i: int| 0 <= i < t2.len() && #[trigger] t2[i].1 == want implies spec_is_bytes(t2[i].0, kb(command)) by {
        if i != j {
            assert(t2[i] == t1[i]);
        }
    }
}

/// A refused binding changes nothing: an invalid combination leaves the
/// document exactly as it was, and a missing table or command leaves only
/// its sharing inlined.
pub proof fn lemma_refused_binding_changes_nothing(v: ValueView, command: Seq<char>, keys: Option<Seq<i64>>)
    requires
        spec_inline(v) is Some,
        spec_set_keybind(v, command, keys).1 is Err,
    ensures
        spec_set_keybind(v, command, keys).0 == v || spec_set_keybind(v, command, keys).0 == spec_inline(v)->Some_0,
        (keys matches Some(k) && spec_canonical(k) is Err) ==> spec_set_keybind(v, command, keys).0 == v,
{
}

proof fn lemma_filter_count(s: Seq<i64>, p: spec_fn(i64) -> bool, x: i64)
    ensures
        s.filter(p).to_multiset().count(x) == if p(x) {
            s.to_multiset().count(x)
        } else {
            0
        },
    decreases s.len(),
{
    broadcast use vstd::multiset::group_multiset_axioms;
    if s.len() == 0 {
        assert(s.filter(p) =~= Seq::<i64>::empty());
        s.to_multiset_ensures();
        s.filter(p).to_multiset_ensures();
    } else {
        let d = s.drop_last();
        let e = s.last();
        assert(s =~= d.push(e));
        d.lemma_filter_push(e, p);
        lemma_filter_count(d, p, x);
        d.to_multiset_ensures();
        d.filter(p).to_multiset_ensures();
    }
}

proof fn lemma_repeat_by_count(s: Seq<i64>)
    ensures
        has_repeat(s) <==> !(forall|x: i64| s.to_multiset().contains(x) ==> s.to_multiset().count(x) == 1),
{
    if has_repeat(s) {
        if forall|x: i64| s.to_multiset().contains(x) ==> s.to_multiset().count(x) == 1 {
            s.lemma_multiset_has_no_duplicates_conv();
            let (i, j) = choose|i: int, j: int| 0 <= i < j < s.len() && s[i] == s[j];
        }
    } else {
        assert(s.no_duplicates()) by {
            assert forall|i: int, j: int| 0 <= i < s.len() && 0 <= j < s.len() && i != j implies s[i] != s[j] by {
                if i < j {
                    assert(!(s[i] == s[j]));
                } else {
                    assert(!(s[j] == s[i]));
                }
            }
        }
        s.lemma_multiset_has_no_duplicates();
    }
}

/// The order keys are given in does not matter: two lists holding the same
/// codes the same number of times have the same canonical form, or are
/// refused alike.
pub proof fn lemma_canonical_ignores_order(a: Seq<i64>, b: Seq<i64>)
    requires
        a.to_multiset() == b.to_multiset(),
    ensures
        spec_canonical(a) == spec_canonical(b),
{
    broadcast use vstd::multiset::group_multiset_axioms;
    let ma = a.filter(is_modifier());
    let mb = b.filter(is_modifier());
    let ra = a.filter(not_modifier());
    let rb = b.filter(not_modifier());
    assert(ma.to_multiset() =~= mb.to_multiset()) by {
        assert forall|x: i64| ma.to_multiset().count(x) == mb.to_multiset().count(x) by {
            lemma_filter_count(a, is_modifier(), x);
            lemma_filter_count(b, is_modifier(), x);
        }
    }
    assert(ra.to_multiset() =~= rb.to_multiset()) by {
        assert forall|x: i64| ra.to_multiset().count(x) == rb.to_multiset().count(x) by {
            lemma_filter_count(a, not_modifier(), x);
            lemma_filter_count(b, not_modifier(), x);
        }
    }
    lemma_repeat_by_count(ma);
    lemma_repeat_by_count(mb);
    ra.to_multiset_ensures();
    rb.to_multiset_ensures();
    ma.to_multiset_ensures();
    mb.to_multiset_ensures();
    if ra.len() == 1 {
        assert(ra.contains(ra[0]));
        vstd::seq_lib::to_multiset_contains(ra, ra[0]);
        vstd::seq_lib::to_multiset_contains(rb, ra[0]);
        assert(rb.contains(ra[0]));
        let k = choose|k: int| 0 <= k < rb.len() && rb[k] == ra[0];
        assert(k == 0);
    }
    assert forall|m: i64| ma.contains(m) == mb.contains(m) by {
        vstd::seq_lib::to_multiset_contains(ma, m);
        vstd::seq_lib::to_multiset_contains(mb, m);
    }
    assert((|m: i64| ma.contains(m)) =~= (|m: i64| mb.contains(m)));
}

} // verus!
