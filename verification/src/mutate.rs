//! The raw editor's mutation set. Deliberately small:
//! - scalar edits keep the node's wire kind (no kind changes);
//! - removal is dict entries and sequence (list/tuple) items, and refuses
//!   subtrees containing `Shared` stores;
//! - inserts go into dicts (appended, wire order) and sequences.
//!
//! Tuples are mutable as sequences because real settings entries (a chat
//! channel, an overview tab) are tuples. The wire format encodes any arity.

use vstd::prelude::*;
use vstd::slice::slice_to_vec;
use vstd::string::StringExecFns;
use vstd::utf8::*;

use crate::parse::{
    chars_of, decimal, decimal_text, parse_decimal, parse_decimal_exec, parse_hex, spec_parse_hex, trim,
    trim_chars, IntError,
};
use crate::path::{lemma_model_pairs_update, lemma_model_seq_update, spec_replace, spec_resolve, Step};
use crate::value::{lemma_model_pairs, lemma_model_seq, model, model_pairs, model_seq, Value, ValueView};

verus! {

broadcast use vstd::std_specs::vec::group_vec_axioms;

/// One requested edit of a document tree.
pub enum Mutation {
    /// Replace the scalar at `path`, keeping its kind. `as_float` is `text`
    /// read as a finite double (its bit pattern), or why it is not one; it is
    /// consulted only when the node is a float.
    SetScalar { path: Vec<Step>, text: String, as_float: Result<u64, String> },
    RemoveEntry { path: Vec<Step> },
    InsertDictEntry { parent: Vec<Step>, key: NewValue, value: NewValue },
    InsertListItem { parent: Vec<Step>, index: usize, value: NewValue },
}

/// A value to insert, as the editor describes it.
pub enum NewValue {
    Nil,
    Bool(bool),
    /// Decimal text.
    Int(String),
    /// A finite double's bit pattern, or why the text typed is not one.
    Float(Result<u64, String>),
    Str(String),
    StrUcs2(String),
    /// Raw bytes as hex digits (e.g. "6f76657276696577" = b"overview").
    BytesHex(String),
    EmptyDict,
    EmptyList,
    EmptyTuple,
}

/// Why a mutation was refused. A refused mutation leaves the tree as it was.
#[derive(Debug, Clone, PartialEq, Eq)]
pub enum MutateError {
    BadPath,
    NotScalar(&'static str),
    Parse(String),
    /// A `Parse` failure in the key half of an insert.
    ParseKey(String),
    /// Removal refused: the subtree contains a `Shared` store whose slot the
    /// encoder needs (and refs elsewhere may point at).
    SharedSubtree,
    NotRemovable,
    NotAContainer(&'static str),
    BadIndex(usize),
}

/// [`MutateError`] with its texts as character sequences.
pub enum MutateErrorView {
    BadPath,
    NotScalar(&'static str),
    Parse(Seq<char>),
    ParseKey(Seq<char>),
    SharedSubtree,
    NotRemovable,
    NotAContainer(&'static str),
    BadIndex(usize),
}

impl View for MutateError {
    type V = MutateErrorView;

    open spec fn view(&self) -> MutateErrorView {
        match self {
            MutateError::BadPath => MutateErrorView::BadPath,
            MutateError::NotScalar(k) => MutateErrorView::NotScalar(*k),
            MutateError::Parse(s) => MutateErrorView::Parse(s@),
            MutateError::ParseKey(s) => MutateErrorView::ParseKey(s@),
            MutateError::SharedSubtree => MutateErrorView::SharedSubtree,
            MutateError::NotRemovable => MutateErrorView::NotRemovable,
            MutateError::NotAContainer(k) => MutateErrorView::NotAContainer(*k),
            MutateError::BadIndex(i) => MutateErrorView::BadIndex(*i),
        }
    }
}

/// The sentence the user is shown for a refused mutation.
pub open spec fn mutate_error_text(e: MutateErrorView) -> Seq<char> {
    match e {
        MutateErrorView::BadPath => "no such node"@,
        MutateErrorView::NotScalar(kind) => "not an editable scalar: "@ + kind@,
        MutateErrorView::Parse(detail) => detail,
        MutateErrorView::ParseKey(detail) => detail,
        MutateErrorView::SharedSubtree => "contains a shared object that other entries point at — removing it would break them"@,
        MutateErrorView::NotRemovable => "this node cannot be removed"@,
        MutateErrorView::NotAContainer(kind) => "not a container: "@ + kind@,
        MutateErrorView::BadIndex(i) => "index out of range: "@ + decimal_text(i as int),
    }
}

impl MutateError {
    /// The sentence the user is shown: it reads as a sentence, never as the
    /// name of a variant.
    pub fn message(&self) -> (r: String)
        ensures
            r@ == mutate_error_text(self@),
    {
        match self {
            MutateError::BadPath => String::from_str("no such node"),
            MutateError::NotScalar(kind) => {
                let mut s = String::from_str("not an editable scalar: ");
                s.append(kind);
                s
            },
            MutateError::Parse(detail) => detail.clone(),
            MutateError::ParseKey(detail) => detail.clone(),
            MutateError::SharedSubtree => String::from_str(
                "contains a shared object that other entries point at — removing it would break them",
            ),
            MutateError::NotRemovable => String::from_str("this node cannot be removed"),
            MutateError::NotAContainer(kind) => {
                let mut s = String::from_str("not a container: ");
                s.append(kind);
                s
            },
            MutateError::BadIndex(i) => {
                let mut s = String::from_str("index out of range: ");
                s.append(decimal(*i as i128).as_str());
                s
            },
        }
    }
}

/// The outcome of an edit: the new node, or why there is none.
pub type EditResult = Result<ValueView, MutateErrorView>;

/// Kind name of a node as the editor reports it.
pub open spec fn kind_of(v: ValueView) -> &'static str {
    match v {
        ValueView::Nil => "none",
        ValueView::Bool(_) => "bool",
        ValueView::Int(_) => "int",
        ValueView::Long(_) => "long",
        ValueView::Float(_) => "float",
        ValueView::Bytes(_) => "bytes",
        ValueView::Str(_) => "str",
        ValueView::StrUcs2(_) => "str_ucs2",
        ValueView::StrTable(_) => "str_table",
        ValueView::Tuple(_) => "tuple",
        ValueView::List(_) => "list",
        ValueView::Dict(_) => "dict",
        ValueView::Stream(_) => "stream",
        ValueView::Global(_) => "global",
        ValueView::Instance { .. } => "instance",
        ValueView::Reduce { .. } => "reduce",
        ValueView::Shared { .. } => "shared",
        ValueView::Ref(_) => "ref",
    }
}

/// Kind name of a node as the editor reports it.
pub fn projection_kind(v: &Value) -> (r: &'static str)
    ensures
        r == kind_of(v@),
{
    match v {
        Value::Nil => "none",
        Value::Bool(_) => "bool",
        Value::Int(_) => "int",
        Value::Long(_) => "long",
        Value::Float(_) => "float",
        Value::Bytes(_) => "bytes",
        Value::Str(_) => "str",
        Value::StrUcs2(_) => "str_ucs2",
        Value::StrTable(_) => "str_table",
        Value::Tuple(_) => "tuple",
        Value::List(_) => "list",
        Value::Dict(_) => "dict",
        Value::Stream(_) => "stream",
        Value::Global(_) => "global",
        Value::Instance { .. } => "instance",
        Value::Reduce { .. } => "reduce",
        Value::Shared { .. } => "shared",
        Value::Ref(_) => "ref",
    }
}

/// An edit applied at one node.
enum Op<'a> {
    SetScalar(&'a str, &'a Result<u64, String>),
    Push(Value, Value),
    Insert(usize, Value),
    Remove(Step),
    Replace(Value),
}

/// The float a caller read, with its error as characters.
pub open spec fn float_view(f: Result<u64, String>) -> Result<u64, Seq<char>> {
    match f {
        Ok(b) => Ok(b),
        Err(m) => Err(m@),
    }
}

/// The node `op` turns `n` into.
spec fn spec_op(n: ValueView, op: Op) -> EditResult {
    match op {
        Op::SetScalar(text, f) => spec_set_scalar(n, text@, float_view(*f)),
        Op::Push(k, v) => match n {
            ValueView::Dict(e) => Ok(ValueView::Dict(e.push((k@, v@)))),
            _ => Err(MutateErrorView::NotAContainer(kind_of(n))),
        },
        Op::Insert(i, v) => spec_insert(n, i, v@),
        Op::Remove(s) => spec_remove(n, s),
        Op::Replace(v) => Ok(v@),
    }
}

/// Whether any node of the subtree is a `Shared` store.
pub open spec fn spec_contains_shared(v: ValueView) -> bool
    decreases v, 1nat,
{
    match v {
        ValueView::Shared { .. } => true,
        ValueView::Tuple(items) => seq_has_shared(items),
        ValueView::List(items) => seq_has_shared(items),
        ValueView::Dict(e) => pairs_have_shared(e),
        ValueView::Stream(inner) => spec_contains_shared(*inner),
        ValueView::Instance { class, state } => spec_contains_shared(*class) || spec_contains_shared(*state),
        ValueView::Reduce { ctor, items, pairs } => spec_contains_shared(*ctor) || seq_has_shared(items)
            || pairs_have_shared(pairs),
        _ => false,
    }
}

/// Whether any node of any subtree in `s` is a `Shared` store.
pub open spec fn seq_has_shared(s: Seq<ValueView>) -> bool
    decreases s, 0nat,
{
    exists|i: int| 0 <= i < s.len() && spec_contains_shared(#[trigger] s[i])
}

/// Whether any node of any key or value in `s` is a `Shared` store.
pub open spec fn pairs_have_shared(s: Seq<(ValueView, ValueView)>) -> bool
    decreases s, 0nat,
{
    exists|i: int| 0 <= i < s.len() && (spec_contains_shared((#[trigger] s[i]).0) || spec_contains_shared(s[i].1))
}

/// Inserting `v` at `i` of a list or tuple.
pub open spec fn spec_insert(n: ValueView, i: usize, v: ValueView) -> EditResult {
    match n {
        ValueView::List(items) => if i > items.len() {
            Err(MutateErrorView::BadIndex(i))
        } else {
            Ok(ValueView::List(items.insert(i as int, v)))
        },
        ValueView::Tuple(items) => if i > items.len() {
            Err(MutateErrorView::BadIndex(i))
        } else {
            Ok(ValueView::Tuple(items.insert(i as int, v)))
        },
        _ => Err(MutateErrorView::NotAContainer(kind_of(n))),
    }
}

/// Removing the child that `s` names from its parent `n`.
pub open spec fn spec_remove(n: ValueView, s: Step) -> EditResult {
    match s {
        Step::DictKey(i) | Step::DictValue(i) => match n {
            ValueView::Dict(e) => if i >= e.len() {
                Err(MutateErrorView::BadPath)
            } else if spec_contains_shared(e[i as int].0) || spec_contains_shared(e[i as int].1) {
                Err(MutateErrorView::SharedSubtree)
            } else {
                Ok(ValueView::Dict(e.remove(i as int)))
            },
            _ => Err(MutateErrorView::BadPath),
        },
        Step::List(i) | Step::Tuple(i) => match n {
            ValueView::List(items) => if i >= items.len() {
                Err(MutateErrorView::BadPath)
            } else if spec_contains_shared(items[i as int]) {
                Err(MutateErrorView::SharedSubtree)
            } else {
                Ok(ValueView::List(items.remove(i as int)))
            },
            ValueView::Tuple(items) => if i >= items.len() {
                Err(MutateErrorView::BadPath)
            } else if spec_contains_shared(items[i as int]) {
                Err(MutateErrorView::SharedSubtree)
            } else {
                Ok(ValueView::Tuple(items.remove(i as int)))
            },
            _ => Err(MutateErrorView::BadPath),
        },
        _ => Err(MutateErrorView::NotRemovable),
    }
}

/// The message of a failed integer parse, as `ParseIntError` displays it.
pub open spec fn int_error_text(e: IntError) -> Seq<char> {
    match e {
        IntError::Empty => "cannot parse integer from empty string"@,
        IntError::InvalidDigit => "invalid digit found in string"@,
        IntError::PosOverflow => "number too large to fit in target type"@,
        IntError::NegOverflow => "number too small to fit in target type"@,
    }
}

fn int_error_message(e: IntError) -> (r: &'static str)
    ensures
        r@ == int_error_text(e),
{
    match e {
        IntError::Empty => "cannot parse integer from empty string",
        IntError::InvalidDigit => "invalid digit found in string",
        IntError::PosOverflow => "number too large to fit in target type",
        IntError::NegOverflow => "number too small to fit in target type",
    }
}

/// The detail of a parse failure: what went wrong, then the text as typed,
/// quoted and escaped the way `{:?}` prints a string.
pub open spec fn parse_detail(what: Seq<char>, text: Seq<char>) -> Seq<char> {
    what + ": "@ + crate::parse::debug_quoted(text)
}

fn describe_failure(what: &str, text: &str) -> (r: String)
    ensures
        r@ == parse_detail(what@, text@),
{
    let mut s = String::from_str(what);
    s.append(": ");
    s.append(crate::parse::quoted(text).as_str());
    s
}

/// The double with bit pattern `b` is finite: its exponent bits are not all
/// ones (which would make it an infinity or a NaN).
pub open spec fn finite_bits(b: u64) -> bool {
    (b >> 52u64) & 0x7FFu64 != 0x7FFu64
}

/// Whether the double with bit pattern `b` is finite.
pub fn is_finite_bits(b: u64) -> (r: bool)
    ensures
        r == finite_bits(b),
{
    (b >> 52u64) & 0x7FFu64 != 0x7FFu64
}

/// Whether `t` starts with `hex:`.
pub open spec fn has_hex_prefix(t: Seq<char>) -> bool {
    t.len() >= 4 && t[0] == 'h' && t[1] == 'e' && t[2] == 'x' && t[3] == ':'
}

/// A signed 64-bit integer typed as decimal text.
pub open spec fn spec_parse_i64(t: Seq<char>) -> Result<int, IntError> {
    parse_decimal(trim(t), true, i64::MIN as int, i64::MAX as int)
}

/// The node an edit of scalar `n` to `text` gives, keeping its kind:
/// int is decimal i64 (surrounding whitespace ignored); float is the
/// caller's reading `f`; str/str_ucs2 take the text as is; bytes take
/// `hex:`-prefixed hex, else the text's UTF-8 bytes; long takes hex with an
/// optional `hex:` prefix; str_table takes an index 1..=255; bool takes
/// true/True/false/False.
pub open spec fn spec_set_scalar(n: ValueView, text: Seq<char>, f: Result<u64, Seq<char>>) -> EditResult {
    match n {
        ValueView::Bool(_) => if text == seq!['t', 'r', 'u', 'e'] || text == seq!['T', 'r', 'u', 'e'] {
            Ok(ValueView::Bool(true))
        } else if text == seq!['f', 'a', 'l', 's', 'e'] || text == seq!['F', 'a', 'l', 's', 'e'] {
            Ok(ValueView::Bool(false))
        } else {
            Err(MutateErrorView::Parse(parse_detail("expected true/false"@, text)))
        },
        ValueView::Int(_) => match spec_parse_i64(text) {
            Ok(v) => Ok(ValueView::Int(v as i64)),
            Err(e) => Err(MutateErrorView::Parse(parse_detail(int_error_text(e), text))),
        },
        ValueView::Float(_) => match f {
            Ok(b) => if finite_bits(b) {
                Ok(ValueView::Float(b))
            } else {
                Err(MutateErrorView::Parse(parse_detail("must be finite"@, text)))
            },
            Err(m) => Err(MutateErrorView::Parse(m)),
        },
        ValueView::Str(_) => Ok(ValueView::Str(text)),
        ValueView::StrUcs2(_) => Ok(ValueView::StrUcs2(text)),
        ValueView::Bytes(_) => if has_hex_prefix(text) {
            match spec_parse_hex(text.skip(4)) {
                Some(b) => Ok(ValueView::Bytes(b)),
                None => Err(MutateErrorView::Parse(parse_detail("bad hex"@, text))),
            }
        } else {
            Ok(ValueView::Bytes(encode_utf8(text)))
        },
        ValueView::Long(_) => match spec_parse_hex(if has_hex_prefix(text) { text.skip(4) } else { text }) {
            Some(b) => Ok(ValueView::Long(b)),
            None => Err(MutateErrorView::Parse(parse_detail("long edits take hex bytes"@, text))),
        },
        ValueView::StrTable(_) => match parse_decimal(trim(text), false, 0, 255) {
            Ok(v) => if v == 0 {
                Err(MutateErrorView::Parse(parse_detail("table index 1-255"@, text)))
            } else {
                Ok(ValueView::StrTable(v as u8))
            },
            Err(_) => Err(MutateErrorView::Parse(parse_detail("table index 1-255"@, text))),
        },
        _ => Err(MutateErrorView::NotScalar(kind_of(n))),
    }
}

/// The value a [`NewValue`] describes.
pub open spec fn spec_build(nv: NewValue) -> EditResult {
    match nv {
        NewValue::Nil => Ok(ValueView::Nil),
        NewValue::Bool(b) => Ok(ValueView::Bool(b)),
        NewValue::Int(t) => match spec_parse_i64(t@) {
            Ok(v) => Ok(ValueView::Int(v as i64)),
            Err(e) => Err(MutateErrorView::Parse(parse_detail(int_error_text(e), t@))),
        },
        NewValue::Float(f) => match f {
            Ok(b) => if finite_bits(b) {
                Ok(ValueView::Float(b))
            } else {
                Err(MutateErrorView::Parse("must be finite"@))
            },
            Err(m) => Err(MutateErrorView::Parse(m@)),
        },
        NewValue::Str(t) => Ok(ValueView::Str(t@)),
        NewValue::StrUcs2(t) => Ok(ValueView::StrUcs2(t@)),
        NewValue::BytesHex(h) => match spec_parse_hex(h@) {
            Some(b) => Ok(ValueView::Bytes(b)),
            None => Err(MutateErrorView::Parse(parse_detail("bad hex"@, h@))),
        },
        NewValue::EmptyDict => Ok(ValueView::Dict(Seq::empty())),
        NewValue::EmptyList => Ok(ValueView::List(Seq::empty())),
        NewValue::EmptyTuple => Ok(ValueView::Tuple(Seq::empty())),
    }
}

/// `f` applied to the node at `path`, and the tree with that node replaced.
pub open spec fn at_path(root: ValueView, path: Seq<Step>, f: spec_fn(ValueView) -> EditResult) -> EditResult {
    match spec_resolve(root, path) {
        None => Err(MutateErrorView::BadPath),
        Some(n) => match f(n) {
            Ok(n2) => Ok(spec_replace(root, path, n2)),
            Err(e) => Err(e),
        },
    }
}

/// Whether removal may address a child by this step.
pub open spec fn removable(s: Step) -> bool {
    s is DictKey || s is DictValue || s is List || s is Tuple
}

/// The tree a mutation gives, or why it is refused.
pub open spec fn spec_apply(root: ValueView, m: Mutation) -> EditResult {
    match m {
        Mutation::SetScalar { path, text, as_float } => at_path(
            root,
            path@,
            |n: ValueView| spec_set_scalar(n, text@, float_view(as_float)),
        ),
        Mutation::RemoveEntry { path } => if path@.len() == 0 || !removable(path@.last()) {
            Err(MutateErrorView::NotRemovable)
        } else {
            at_path(root, path@.drop_last(), |n: ValueView| spec_remove(n, path@.last()))
        },
        Mutation::InsertDictEntry { parent, key, value } => match spec_build(key) {
            Err(MutateErrorView::Parse(d)) => Err(MutateErrorView::ParseKey(d)),
            Err(e) => Err(e),
            Ok(k) => match spec_build(value) {
                Err(e) => Err(e),
                Ok(v) => at_path(
                    root,
                    parent@,
                    |n: ValueView|
                        match n {
                            ValueView::Dict(e) => Ok(ValueView::Dict(e.push((k, v)))),
                            _ => Err(MutateErrorView::NotAContainer(kind_of(n))),
                        },
                ),
            },
        },
        Mutation::InsertListItem { parent, index, value } => match spec_build(value) {
            Err(e) => Err(e),
            Ok(v) => at_path(root, parent@, |n: ValueView| spec_insert(n, index, v)),
        },
    }
}

/// Apply `op` to the node at `path[k..end]` below `node`.
fn edit_at(node: &mut Value, path: &[Step], k: usize, end: usize, op: Op) -> (r: Result<(), MutateError>)
    requires
        k <= end <= path@.len(),
    ensures
        match spec_resolve(old(node)@, path@.subrange(k as int, end as int)) {
            None => r == Err::<(), MutateError>(MutateError::BadPath) && final(node)@ == old(node)@,
            Some(n) => match spec_op(n, op) {
                Ok(n2) => r is Ok && final(node)@ == spec_replace(
                    old(node)@,
                    path@.subrange(k as int, end as int),
                    n2,
                ),
                Err(e) => r matches Err(x) && x@ == e && final(node)@ == old(node)@,
            },
        },
    decreases end - k,
{
    if k == end {
        assert(path@.subrange(k as int, end as int) =~= Seq::<Step>::empty());
        return apply_here(node, op);
    }
    let s = path[k];
    assert(path@.subrange(k as int, end as int).drop_first() =~= path@.subrange(k + 1, end as int));
    assert(path@.subrange(k as int, end as int)[0] == s);
    match s {
        Step::Tuple(i) => match node {
            Value::Tuple(items) => {
                proof {
                    lemma_model_seq(items@);
                }
                if i < items.len() {
                    let ghost before = items@;
                    let r = edit_at(&mut items[i], path, k + 1, end, op);
                    proof {
                        lemma_model_seq_update(before, i as int, items@[i as int]);
                        assert(before.update(i as int, items@[i as int]) =~= items@);
                        if r is Err {
                            assert(model_seq(before).update(i as int, model_seq(before)[i as int]) =~= model_seq(before));
                        }
                    }
                    r
                } else {
                    Err(MutateError::BadPath)
                }
            },
            _ => Err(MutateError::BadPath),
        },
        Step::List(i) => match node {
            Value::List(items) => {
                proof {
                    lemma_model_seq(items@);
                }
                if i < items.len() {
                    let ghost before = items@;
                    let r = edit_at(&mut items[i], path, k + 1, end, op);
                    proof {
                        lemma_model_seq_update(before, i as int, items@[i as int]);
                        assert(before.update(i as int, items@[i as int]) =~= items@);
                        if r is Err {
                            assert(model_seq(before).update(i as int, model_seq(before)[i as int]) =~= model_seq(before));
                        }
                    }
                    r
                } else {
                    Err(MutateError::BadPath)
                }
            },
            _ => Err(MutateError::BadPath),
        },
        Step::DictKey(i) => match node {
            Value::Dict(entries) => {
                proof {
                    lemma_model_pairs(entries@);
                }
                if i < entries.len() {
                    let ghost before = entries@;
                    let r = edit_at(&mut entries[i].0, path, k + 1, end, op);
                    proof {
                        lemma_model_pairs_update(before, i as int, entries@[i as int]);
                        assert(before.update(i as int, entries@[i as int]) =~= entries@);
                        if r is Err {
                            assert(model_pairs(before).update(i as int, model_pairs(before)[i as int]) =~= model_pairs(before));
                        }
                    }
                    r
                } else {
                    Err(MutateError::BadPath)
                }
            },
            _ => Err(MutateError::BadPath),
        },
        Step::DictValue(i) => match node {
            Value::Dict(entries) => {
                proof {
                    lemma_model_pairs(entries@);
                }
                if i < entries.len() {
                    let ghost before = entries@;
                    let r = edit_at(&mut entries[i].1, path, k + 1, end, op);
                    proof {
                        lemma_model_pairs_update(before, i as int, entries@[i as int]);
                        assert(before.update(i as int, entries@[i as int]) =~= entries@);
                        if r is Err {
                            assert(model_pairs(before).update(i as int, model_pairs(before)[i as int]) =~= model_pairs(before));
                        }
                    }
                    r
                } else {
                    Err(MutateError::BadPath)
                }
            },
            _ => Err(MutateError::BadPath),
        },
        Step::InstanceClass => match node {
            Value::Instance { class, .. } => edit_at(&mut **class, path, k + 1, end, op),
            _ => Err(MutateError::BadPath),
        },
        Step::InstanceState => match node {
            Value::Instance { state, .. } => edit_at(&mut **state, path, k + 1, end, op),
            _ => Err(MutateError::BadPath),
        },
        Step::ReduceCtor => match node {
            Value::Reduce { ctor, .. } => edit_at(&mut **ctor, path, k + 1, end, op),
            _ => Err(MutateError::BadPath),
        },
        Step::ReduceItem(i) => match node {
            Value::Reduce { items, .. } => {
                proof {
                    lemma_model_seq(items@);
                }
                if i < items.len() {
                    let ghost before = items@;
                    let r = edit_at(&mut items[i], path, k + 1, end, op);
                    proof {
                        lemma_model_seq_update(before, i as int, items@[i as int]);
                        assert(before.update(i as int, items@[i as int]) =~= items@);
                        if r is Err {
                            assert(model_seq(before).update(i as int, model_seq(before)[i as int]) =~= model_seq(before));
                        }
                    }
                    r
                } else {
                    Err(MutateError::BadPath)
                }
            },
            _ => Err(MutateError::BadPath),
        },
        Step::ReducePairKey(i) => match node {
            Value::Reduce { pairs, .. } => {
                proof {
                    lemma_model_pairs(pairs@);
                }
                if i < pairs.len() {
                    let ghost before = pairs@;
                    let r = edit_at(&mut pairs[i].0, path, k + 1, end, op);
                    proof {
                        lemma_model_pairs_update(before, i as int, pairs@[i as int]);
                        assert(before.update(i as int, pairs@[i as int]) =~= pairs@);
                        if r is Err {
                            assert(model_pairs(before).update(i as int, model_pairs(before)[i as int]) =~= model_pairs(before));
                        }
                    }
                    r
                } else {
                    Err(MutateError::BadPath)
                }
            },
            _ => Err(MutateError::BadPath),
        },
        Step::ReducePairValue(i) => match node {
            Value::Reduce { pairs, .. } => {
                proof {
                    lemma_model_pairs(pairs@);
                }
                if i < pairs.len() {
                    let ghost before = pairs@;
                    let r = edit_at(&mut pairs[i].1, path, k + 1, end, op);
                    proof {
                        lemma_model_pairs_update(before, i as int, pairs@[i as int]);
                        assert(before.update(i as int, pairs@[i as int]) =~= pairs@);
                        if r is Err {
                            assert(model_pairs(before).update(i as int, model_pairs(before)[i as int]) =~= model_pairs(before));
                        }
                    }
                    r
                } else {
                    Err(MutateError::BadPath)
                }
            },
            _ => Err(MutateError::BadPath),
        },
        Step::SharedInner => match node {
            Value::Shared { value, .. } => edit_at(&mut **value, path, k + 1, end, op),
            _ => Err(MutateError::BadPath),
        },
        Step::StreamInner => match node {
            Value::Stream(inner) => edit_at(&mut **inner, path, k + 1, end, op),
            _ => Err(MutateError::BadPath),
        },
    }
}

/// Apply `op` to `node` itself.
fn apply_here(node: &mut Value, op: Op) -> (r: Result<(), MutateError>)
    ensures
        match spec_op(old(node)@, op) {
            Ok(n2) => r is Ok && final(node)@ == n2,
            Err(e) => r matches Err(x) && x@ == e && final(node)@ == old(node)@,
        },
{
    match op {
        Op::SetScalar(text, f) => set_scalar(node, text, f),
        Op::Push(k, v) => match node {
            Value::Dict(entries) => {
                let ghost before = entries@;
                entries.push((k, v));
                proof {
                    assert(entries@.subrange(0, entries@.len() - 1) =~= before);
                    assert(entries@[entries@.len() - 1] == (k, v));
                    assert(model_pairs(entries@) == model_pairs(before).push((model(k), model(v))));
                }
                Ok(())
            },
            other => Err(MutateError::NotAContainer(projection_kind(other))),
        },
        Op::Insert(i, v) => match node {
            Value::List(items) => {
                proof {
                    lemma_model_seq(items@);
                }
                if i > items.len() {
                    return Err(MutateError::BadIndex(i));
                }
                let ghost before = items@;
                let ghost mv = v@;
                items.insert(i, v);
                proof {
                    lemma_model_seq_insert(before, i as int, items@[i as int]);
                }
                Ok(())
            },
            Value::Tuple(items) => {
                proof {
                    lemma_model_seq(items@);
                }
                if i > items.len() {
                    return Err(MutateError::BadIndex(i));
                }
                let ghost before = items@;
                items.insert(i, v);
                proof {
                    lemma_model_seq_insert(before, i as int, items@[i as int]);
                }
                Ok(())
            },
            other => Err(MutateError::NotAContainer(projection_kind(other))),
        },
        Op::Remove(s) => remove_child(node, s),
        Op::Replace(v) => {
            *node = v;
            Ok(())
        },
    }
}

proof fn lemma_model_seq_insert(s: Seq<Value>, i: int, x: Value)
    requires
        0 <= i <= s.len(),
    ensures
        model_seq(s.insert(i, x)) == model_seq(s).insert(i, model(x)),
{
    lemma_model_seq(s);
    lemma_model_seq(s.insert(i, x));
    assert(model_seq(s.insert(i, x)) =~= model_seq(s).insert(i, model(x)));
}

proof fn lemma_model_seq_remove(s: Seq<Value>, i: int)
    requires
        0 <= i < s.len(),
    ensures
        model_seq(s.remove(i)) == model_seq(s).remove(i),
{
    lemma_model_seq(s);
    lemma_model_seq(s.remove(i));
    assert(model_seq(s.remove(i)) =~= model_seq(s).remove(i));
}

proof fn lemma_model_pairs_remove(s: Seq<(Value, Value)>, i: int)
    requires
        0 <= i < s.len(),
    ensures
        model_pairs(s.remove(i)) == model_pairs(s).remove(i),
{
    lemma_model_pairs(s);
    lemma_model_pairs(s.remove(i));
    assert(model_pairs(s.remove(i)) =~= model_pairs(s).remove(i));
}

/// True if any node in the subtree is a `Shared` store. Removing such a
/// subtree would orphan its slot or dangle refs elsewhere, so removal is
/// blocked at the mutation layer.
pub fn subtree_contains_shared(v: &Value) -> (r: bool)
    ensures
        r == spec_contains_shared(v@),
    decreases v,
{
    match v {
        Value::Shared { .. } => true,
        Value::Tuple(items) => {
            proof {
                lemma_model_seq(items@);
            }
            let r = any_shared(items);
            assert(r == spec_contains_shared(v@));
            r
        },
        Value::List(items) => {
            proof {
                lemma_model_seq(items@);
            }
            let r = any_shared(items);
            assert(r == spec_contains_shared(v@));
            r
        },
        Value::Dict(entries) => {
            proof {
                lemma_model_pairs(entries@);
            }
            let r = any_shared_pair(entries);
            assert(r == spec_contains_shared(v@));
            r
        },
        Value::Stream(inner) => {
            let r = subtree_contains_shared(inner);
            assert(r == spec_contains_shared(v@));
            r
        },
        Value::Instance { class, state } => {
            let r = subtree_contains_shared(class) || subtree_contains_shared(state);
            assert(r == spec_contains_shared(v@));
            r
        },
        Value::Reduce { ctor, items, pairs } => {
            proof {
                lemma_model_seq(items@);
                lemma_model_pairs(pairs@);
            }
            let r = subtree_contains_shared(ctor) || any_shared(items) || any_shared_pair(pairs);
            assert(r == spec_contains_shared(v@));
            r
        },
        _ => false,
    }
}

fn any_shared(items: &Vec<Value>) -> (r: bool)
    ensures
        r == seq_has_shared(model_seq(items@)),
    decreases items,
{
    proof {
        lemma_model_seq(items@);
    }
    let mut i: usize = 0;
    while i < items.len()
        invariant
            i <= items.len(),
            model_seq(items@).len() == items@.len(),
            forall|j: int| 0 <= j < items@.len() ==> #[trigger] model_seq(items@)[j] == model(items@[j]),
            forall|j: int| 0 <= j < i ==> !spec_contains_shared(#[trigger] model_seq(items@)[j]),
        decreases items.len() - i,
    {
        if subtree_contains_shared(&items[i]) {
            assert(spec_contains_shared(model_seq(items@)[i as int]));
            return true;
        }
        i = i + 1;
    }
    false
}

fn any_shared_pair(entries: &Vec<(Value, Value)>) -> (r: bool)
    ensures
        r == pairs_have_shared(model_pairs(entries@)),
    decreases entries,
{
    proof {
        lemma_model_pairs(entries@);
    }
    let mut i: usize = 0;
    while i < entries.len()
        invariant
            i <= entries.len(),
            model_pairs(entries@).len() == entries@.len(),
            forall|j: int|
                0 <= j < entries@.len() ==> #[trigger] model_pairs(entries@)[j] == (
                    model(entries@[j].0),
                    model(entries@[j].1),
                ),
            forall|j: int|
                0 <= j < i ==> !spec_contains_shared(#[trigger] model_pairs(entries@)[j].0)
                    && !spec_contains_shared(model_pairs(entries@)[j].1),
        decreases entries.len() - i,
    {
        if subtree_contains_shared(&entries[i].0) || subtree_contains_shared(&entries[i].1) {
            assert(model_pairs(entries@)[i as int] == (model(entries@[i as int].0), model(entries@[i as int].1)));
            assert(spec_contains_shared(model_pairs(entries@)[i as int].0) || spec_contains_shared(
                model_pairs(entries@)[i as int].1,
            ));
            return true;
        }
        i = i + 1;
    }
    false
}

/// Remove the child that `s` names from `node`.
fn remove_child(node: &mut Value, s: Step) -> (r: Result<(), MutateError>)
    ensures
        match spec_remove(old(node)@, s) {
            Ok(n2) => r is Ok && final(node)@ == n2,
            Err(e) => r matches Err(x) && x@ == e && final(node)@ == old(node)@,
        },
{
    match s {
        Step::DictKey(i) | Step::DictValue(i) => match node {
            Value::Dict(entries) => {
                proof {
                    lemma_model_pairs(entries@);
                }
                if i >= entries.len() {
                    return Err(MutateError::BadPath);
                }
                if subtree_contains_shared(&entries[i].0) || subtree_contains_shared(&entries[i].1) {
                    return Err(MutateError::SharedSubtree);
                }
                let ghost before = entries@;
                entries.remove(i);
                proof {
                    lemma_model_pairs_remove(before, i as int);
                }
                Ok(())
            },
            _ => Err(MutateError::BadPath),
        },
        Step::List(i) | Step::Tuple(i) => match node {
            Value::List(items) => {
                proof {
                    lemma_model_seq(items@);
                }
                if i >= items.len() {
                    return Err(MutateError::BadPath);
                }
                if subtree_contains_shared(&items[i]) {
                    return Err(MutateError::SharedSubtree);
                }
                let ghost before = items@;
                items.remove(i);
                proof {
                    lemma_model_seq_remove(before, i as int);
                }
                Ok(())
            },
            Value::Tuple(items) => {
                proof {
                    lemma_model_seq(items@);
                }
                if i >= items.len() {
                    return Err(MutateError::BadPath);
                }
                if subtree_contains_shared(&items[i]) {
                    return Err(MutateError::SharedSubtree);
                }
                let ghost before = items@;
                items.remove(i);
                proof {
                    lemma_model_seq_remove(before, i as int);
                }
                Ok(())
            },
            _ => Err(MutateError::BadPath),
        },
        _ => Err(MutateError::NotRemovable),
    }
}

/// `v[n..]`.
fn skip_chars(v: &Vec<char>, n: usize) -> (r: Vec<char>)
    requires
        n <= v.len(),
    ensures
        r@ == v@.skip(n as int),
{
    let mut out: Vec<char> = Vec::new();
    let mut i: usize = n;
    while i < v.len()
        invariant
            n <= i <= v.len(),
            out@ == v@.subrange(n as int, i as int),
        decreases v.len() - i,
    {
        out.push(v[i]);
        i = i + 1;
    }
    assert(out@ =~= v@.skip(n as int));
    out
}

/// Whether `t` is exactly the characters of `w`.
fn chars_are(t: &Vec<char>, w: &[char]) -> (r: bool)
    ensures
        r == (t@ == w@),
{
    if t.len() != w.len() {
        return false;
    }
    let mut i: usize = 0;
    while i < t.len()
        invariant
            i <= t.len(),
            t.len() == w.len(),
            forall|j: int| 0 <= j < i ==> t@[j] == w@[j],
        decreases t.len() - i,
    {
        if t[i] != w[i] {
            return false;
        }
        i = i + 1;
    }
    assert(t@ =~= w@);
    true
}

/// A signed 64-bit integer typed as decimal text.
fn parse_i64(t: &Vec<char>) -> (r: Result<i64, IntError>)
    ensures
        match r {
            Ok(v) => spec_parse_i64(t@) == Ok::<int, IntError>(v as int),
            Err(e) => spec_parse_i64(t@) == Err::<int, IntError>(e),
        },
{
    let trimmed = trim_chars(t);
    match parse_decimal_exec(&trimmed, true, i64::MIN as i128, i64::MAX as i128) {
        Ok(v) => Ok(v as i64),
        Err(e) => Err(e),
    }
}

/// Edit a scalar in place, keeping its wire kind.
fn set_scalar(node: &mut Value, text: &str, f: &Result<u64, String>) -> (r: Result<(), MutateError>)
    ensures
        match spec_set_scalar(old(node)@, text@, float_view(*f)) {
            Ok(n2) => r is Ok && final(node)@ == n2,
            Err(e) => r matches Err(x) && x@ == e && final(node)@ == old(node)@,
        },
{
    let t = chars_of(text);
    match node {
        Value::Bool(b) => {
            if chars_are(&t, &['t', 'r', 'u', 'e']) || chars_are(&t, &['T', 'r', 'u', 'e']) {
                *b = true;
            } else if chars_are(&t, &['f', 'a', 'l', 's', 'e']) || chars_are(&t, &['F', 'a', 'l', 's', 'e']) {
                *b = false;
            } else {
                return Err(MutateError::Parse(describe_failure("expected true/false", text)));
            }
            Ok(())
        },
        Value::Int(i) => match parse_i64(&t) {
            Ok(v) => {
                *i = v;
                Ok(())
            },
            Err(e) => Err(MutateError::Parse(describe_failure(int_error_message(e), text))),
        },
        Value::Float(x) => match f {
            Ok(bits) => if is_finite_bits(*bits) {
                *x = *bits;
                Ok(())
            } else {
                Err(MutateError::Parse(describe_failure("must be finite", text)))
            },
            Err(m) => Err(MutateError::Parse(m.clone())),
        },
        Value::Str(s) => {
            *s = text.to_owned();
            Ok(())
        },
        Value::StrUcs2(s) => {
            *s = text.to_owned();
            Ok(())
        },
        Value::Bytes(b) => {
            if t.len() >= 4 && t[0] == 'h' && t[1] == 'e' && t[2] == 'x' && t[3] == ':' {
                match parse_hex(&skip_chars(&t, 4)) {
                    Some(h) => {
                        *b = h;
                        Ok(())
                    },
                    None => Err(MutateError::Parse(describe_failure("bad hex", text))),
                }
            } else {
                *b = slice_to_vec(text.as_bytes());
                Ok(())
            }
        },
        Value::Long(b) => {
            let h = if t.len() >= 4 && t[0] == 'h' && t[1] == 'e' && t[2] == 'x' && t[3] == ':' {
                skip_chars(&t, 4)
            } else {
                skip_chars(&t, 0)
            };
            proof {
                assert(t@.skip(0) =~= t@);
            }
            match parse_hex(&h) {
                Some(bytes) => {
                    *b = bytes;
                    Ok(())
                },
                None => Err(MutateError::Parse(describe_failure("long edits take hex bytes", text))),
            }
        },
        Value::StrTable(idx) => {
            let trimmed = trim_chars(&t);
            match parse_decimal_exec(&trimmed, false, 0, 255) {
                Ok(v) => {
                    if v == 0 {
                        return Err(MutateError::Parse(describe_failure("table index 1-255", text)));
                    }
                    *idx = v as u8;
                    Ok(())
                },
                Err(_) => Err(MutateError::Parse(describe_failure("table index 1-255", text))),
            }
        },
        other => Err(MutateError::NotScalar(projection_kind(other))),
    }
}

/// The value a [`NewValue`] describes.
fn build_value(nv: &NewValue) -> (r: Result<Value, MutateError>)
    ensures
        match spec_build(*nv) {
            Ok(v) => r matches Ok(x) && x@ == v,
            Err(e) => r matches Err(x) && x@ == e,
        },
{
    match nv {
        NewValue::Nil => Ok(Value::Nil),
        NewValue::Bool(b) => Ok(Value::Bool(*b)),
        NewValue::Int(t) => match parse_i64(&chars_of(t.as_str())) {
            Ok(v) => Ok(Value::Int(v)),
            Err(e) => Err(MutateError::Parse(describe_failure(int_error_message(e), t.as_str()))),
        },
        NewValue::Float(f) => match f {
            Ok(bits) => if is_finite_bits(*bits) {
                Ok(Value::Float(*bits))
            } else {
                Err(MutateError::Parse(String::from_str("must be finite")))
            },
            Err(m) => Err(MutateError::Parse(m.clone())),
        },
        NewValue::Str(t) => Ok(Value::Str(t.clone())),
        NewValue::StrUcs2(t) => Ok(Value::StrUcs2(t.clone())),
        NewValue::BytesHex(h) => match parse_hex(&chars_of(h.as_str())) {
            Some(b) => Ok(Value::Bytes(b)),
            None => Err(MutateError::Parse(describe_failure("bad hex", h.as_str()))),
        },
        NewValue::EmptyDict => {
            let e: Vec<(Value, Value)> = Vec::new();
            assert(model_pairs(e@) =~= Seq::<(ValueView, ValueView)>::empty());
            Ok(Value::Dict(e))
        },
        NewValue::EmptyList => {
            let e: Vec<Value> = Vec::new();
            assert(model_seq(e@) =~= Seq::<ValueView>::empty());
            Ok(Value::List(e))
        },
        NewValue::EmptyTuple => {
            let e: Vec<Value> = Vec::new();
            assert(model_seq(e@) =~= Seq::<ValueView>::empty());
            Ok(Value::Tuple(e))
        },
    }
}

/// Apply one mutation to the tree. A refused mutation changes nothing.
pub fn apply(root: &mut Value, m: &Mutation) -> (r: Result<(), MutateError>)
    ensures
        match spec_apply(old(root)@, *m) {
            Ok(n) => r is Ok && final(root)@ == n,
            Err(e) => r matches Err(x) && x@ == e && final(root)@ == old(root)@,
        },
{
    match m {
        Mutation::SetScalar { path, text, as_float } => {
            assert(path@.subrange(0, path@.len() as int) =~= path@);
            edit_at(root, path.as_slice(), 0, path.len(), Op::SetScalar(text.as_str(), as_float))
        },
        Mutation::RemoveEntry { path } => {
            if path.len() == 0 {
                return Err(MutateError::NotRemovable);
            }
            let last = path[path.len() - 1];
            match last {
                Step::DictKey(_) | Step::DictValue(_) | Step::List(_) | Step::Tuple(_) => {},
                _ => {
                    return Err(MutateError::NotRemovable);
                },
            }
            assert(path@.subrange(0, path@.len() - 1) =~= path@.drop_last());
            edit_at(root, path.as_slice(), 0, path.len() - 1, Op::Remove(last))
        },
        Mutation::InsertDictEntry { parent, key, value } => {
            let k = match build_value(key) {
                Ok(k) => k,
                Err(MutateError::Parse(d)) => {
                    return Err(MutateError::ParseKey(d));
                },
                Err(e) => {
                    return Err(e);
                },
            };
            let v = match build_value(value) {
                Ok(v) => v,
                Err(e) => {
                    return Err(e);
                },
            };
            assert(parent@.subrange(0, parent@.len() as int) =~= parent@);
            edit_at(root, parent.as_slice(), 0, parent.len(), Op::Push(k, v))
        },
        Mutation::InsertListItem { parent, index, value } => {
            let v = match build_value(value) {
                Ok(v) => v,
                Err(e) => {
                    return Err(e);
                },
            };
            assert(parent@.subrange(0, parent@.len() as int) =~= parent@);
            edit_at(root, parent.as_slice(), 0, parent.len(), Op::Insert(*index, v))
        },
    }
}

/// Replace the node at `path` with `v`; nothing changes when there is no
/// such node.
pub(crate) fn replace_at(root: &mut Value, path: &[Step], v: Value) -> (found: bool)
    ensures
        found == spec_resolve(old(root)@, path@) is Some,
        found ==> final(root)@ == spec_replace(old(root)@, path@, v@),
        !found ==> final(root)@ == old(root)@,
{
    assert(path@.subrange(0, path@.len() as int) =~= path@);
    edit_at(root, path, 0, path.len(), Op::Replace(v)).is_ok()
}

} // verus!
