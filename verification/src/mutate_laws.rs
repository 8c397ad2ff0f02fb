//! Laws of the raw editor: a scalar edit keeps the node's wire kind and
//! only scalar kinds are editable; the error cases of removal and insertion.

use vstd::prelude::*;

use crate::mutate::{
    kind_of, spec_apply, spec_contains_shared, spec_set_scalar, Mutation, MutateErrorView, NewValue,
};
use crate::path::{spec_resolve, Step};
use crate::value::ValueView;

verus! {

/// The node kinds a scalar edit accepts.
pub open spec fn is_scalar(n: ValueView) -> bool {
    n is Bool || n is Int || n is Float || n is Str || n is StrUcs2 || n is Bytes || n is Long || n is StrTable
}

/// The wire kind of a node: two nodes of the same variant.
pub open spec fn same_kind(a: ValueView, b: ValueView) -> bool {
    kind_of(a) == kind_of(b)
}

/// A scalar edit keeps the node's wire kind; a node that is not a scalar
/// is refused with its kind named; a float edit stores only a finite
/// double; a string-table edit stays in `1..=255`.
pub proof fn lemma_set_scalar_keeps_kind(n: ValueView, text: Seq<char>, f: Result<u64, Seq<char>>)
    ensures
        spec_set_scalar(n, text, f) matches Ok(m) ==> same_kind(n, m),
        !is_scalar(n) ==> spec_set_scalar(n, text, f) == Err::<ValueView, MutateErrorView>(
            MutateErrorView::NotScalar(kind_of(n)),
        ),
        spec_set_scalar(n, text, f) matches Ok(ValueView::Float(b)) ==> crate::mutate::finite_bits(b),
        spec_set_scalar(n, text, f) matches Ok(ValueView::StrTable(i)) ==> 1 <= i,
{
    if n is StrTable {
        let t = crate::parse::trim(text);
        lemma_digits_range(t, 0, false, 0, 255);
        if t.len() > 0 {
            lemma_digits_range(t.drop_first(), 0, false, 0, 255);
            lemma_digits_range(t.drop_first(), 0, true, 0, 255);
        }
    }
}

/// A decimal read into `lo..=hi` stays in it.
pub proof fn lemma_digits_range(s: Seq<char>, acc: int, neg: bool, lo: int, hi: int)
    requires
        lo <= acc <= hi,
    ensures
        crate::parse::digits_from(s, acc, neg, lo, hi) matches Ok(x) ==> lo <= x <= hi,
    decreases s.len(),
{
    if s.len() > 0 {
        if let Some(d) = crate::parse::dec_digit(s[0]) {
            let next = if neg { acc * 10 - d } else { acc * 10 + d };
            if lo <= next <= hi {
                lemma_digits_range(s.drop_first(), next, neg, lo, hi);
            }
        }
    }
}

/// Removal refuses an empty path, and a dict entry or sequence item whose
/// subtree holds a shared store.
pub proof fn lemma_remove_refusals(root: ValueView, path: Vec<Step>)
    ensures
        path@.len() == 0 ==> spec_apply(root, Mutation::RemoveEntry { path }) == Err::<ValueView, MutateErrorView>(
            MutateErrorView::NotRemovable,
        ),
        path@.len() > 0 ==> ({
            let parent = path@.drop_last();
            match (spec_resolve(root, parent), path@.last()) {
                (Some(ValueView::List(items)), Step::List(i)) => i < items.len() && spec_contains_shared(
                    items[i as int],
                ) ==> spec_apply(root, Mutation::RemoveEntry { path }) == Err::<ValueView, MutateErrorView>(
                    MutateErrorView::SharedSubtree,
                ),
                (Some(ValueView::Dict(e)), Step::DictValue(i)) => i < e.len() && (spec_contains_shared(
                    e[i as int].0,
                ) || spec_contains_shared(e[i as int].1)) ==> spec_apply(root, Mutation::RemoveEntry { path })
                    == Err::<ValueView, MutateErrorView>(MutateErrorView::SharedSubtree),
                _ => true,
            }
        }),
{
}

/// Inserting into a list past its end is refused with the index named.
pub proof fn lemma_insert_past_end(root: ValueView, parent: Vec<Step>, index: usize, value: NewValue)
    requires
        spec_resolve(root, parent@) matches Some(ValueView::List(items)) && index > items.len(),
        crate::mutate::spec_build(value) is Ok,
    ensures
        spec_apply(root, Mutation::InsertListItem { parent, index, value }) == Err::<ValueView, MutateErrorView>(
            MutateErrorView::BadIndex(index),
        ),
{
}

/// An integer edit stores the number its decimal text writes: for every
/// `i64` value `n`, setting an integer node to the decimal text of `n` gives
/// `n`, whatever the node held before.
pub proof fn lemma_int_edit_stores_number(old: i64, n: i64, f: Result<u64, Seq<char>>)
    ensures
        spec_set_scalar(ValueView::Int(old), crate::parse::decimal_text(n as int), f) == Ok::<
            ValueView,
            MutateErrorView,
        >(ValueView::Int(n)),
{
    let t = crate::parse::decimal_text(n as int);
    crate::surface_laws::lemma_decimal_parses(n as int);
    assert(t.len() > 0) by {
        if n < 0 {
        } else {
            assert(crate::parse::digits_text(n as nat).len() > 0);
        }
    }
    assert('0' <= t[0] <= '9' || t[0] == '-');
    assert('0' <= t[t.len() - 1] <= '9' || t[t.len() - 1] == '-');
    assert(!crate::parse::is_ws(t[0]));
    assert(!crate::parse::is_ws(t.last()));
    assert(crate::parse::lead_ws(t) == 0);
    assert(t.skip(0) =~= t);
    assert(crate::parse::trail_ws(t) == 0);
    assert(t.take(t.len() as int) =~= t);
    assert(crate::parse::trim(t) =~= t);
}

} // verus!
