//! The decoded tree and its mathematical model.

use vstd::prelude::*;

verus! {

broadcast use vstd::std_specs::vec::group_vec_axioms;

/// One node of a decoded blue-marshal stream. Every variant records the wire
/// form it came from, so that re-encoding reproduces the stream exactly.
#[derive(Debug, PartialEq)]
pub enum Value {
    Nil,
    Bool(bool),
    /// Encoded canonically by magnitude: -1/0/1, then the narrowest of
    /// INT8/INT16/INT32/INT64.
    Int(i64),
    /// LONG payload: raw little-endian two's-complement bytes.
    Long(Vec<u8>),
    /// A double, held as its IEEE-754 bit pattern (`f64::to_bits`). The all-zero
    /// pattern is encoded as FLOAT0, anything else as FLOAT.
    Float(u64),
    /// Byte string, encoded by length: STRING0, STRING1, else BUFFER.
    Bytes(Vec<u8>),
    /// Text stored as UTF8.
    Str(String),
    /// Text stored in the UCS-2 family (UNICODE0 / UNICODE1 / UNICODE).
    StrUcs2(String),
    /// STRINGR: index 1..=255 into the fixed string table.
    StrTable(u8),
    Tuple(Vec<Value>),
    List(Vec<Value>),
    /// Entries in wire order, normalized to (key, value).
    Dict(Vec<(Value, Value)>),
    /// STREAM: the payload is a complete nested marshal stream.
    Stream(Box<Value>),
    /// GLOBAL: a dotted Python type/function name.
    Global(Vec<u8>),
    /// INSTANCE: class-name object, then exactly one state object.
    Instance { class: Box<Value>, state: Box<Value> },
    /// REDUCE: ctor tuple, then the MARK-terminated list items, then the
    /// MARK-terminated (key, value) pairs.
    Reduce { ctor: Box<Value>, items: Vec<Value>, pairs: Vec<(Value, Value)> },
    /// A SHARED_FLAG-ed store: wraps exactly the node whose opcode carried the
    /// flag; `slot` is the 1-based tail-map slot it was stored into.
    Shared { slot: u32, value: Box<Value> },
    /// REF: points at the `Shared` node with the same slot number.
    Ref(u32),
}

/// The mathematical model of a [`Value`]: the same tree, with sequences in
/// place of vectors and character sequences in place of strings.
pub enum ValueView {
    Nil,
    Bool(bool),
    Int(i64),
    Long(Seq<u8>),
    Float(u64),
    Bytes(Seq<u8>),
    Str(Seq<char>),
    StrUcs2(Seq<char>),
    StrTable(u8),
    Tuple(Seq<ValueView>),
    List(Seq<ValueView>),
    Dict(Seq<(ValueView, ValueView)>),
    Stream(Box<ValueView>),
    Global(Seq<u8>),
    Instance { class: Box<ValueView>, state: Box<ValueView> },
    Reduce { ctor: Box<ValueView>, items: Seq<ValueView>, pairs: Seq<(ValueView, ValueView)> },
    Shared { slot: u32, value: Box<ValueView> },
    Ref(u32),
}

/// The model of one value.
pub open spec fn model(v: Value) -> ValueView
    decreases v,
{
    match v {
        Value::Nil => ValueView::Nil,
        Value::Bool(b) => ValueView::Bool(b),
        Value::Int(i) => ValueView::Int(i),
        Value::Long(b) => ValueView::Long(b@),
        Value::Float(f) => ValueView::Float(f),
        Value::Bytes(b) => ValueView::Bytes(b@),
        Value::Str(s) => ValueView::Str(s@),
        Value::StrUcs2(s) => ValueView::StrUcs2(s@),
        Value::StrTable(i) => ValueView::StrTable(i),
        Value::Tuple(items) => ValueView::Tuple(model_seq(items@)),
        Value::List(items) => ValueView::List(model_seq(items@)),
        Value::Dict(entries) => ValueView::Dict(model_pairs(entries@)),
        Value::Stream(inner) => ValueView::Stream(Box::new(model(*inner))),
        Value::Global(b) => ValueView::Global(b@),
        Value::Instance { class, state } => ValueView::Instance {
            class: Box::new(model(*class)),
            state: Box::new(model(*state)),
        },
        Value::Reduce { ctor, items, pairs } => ValueView::Reduce {
            ctor: Box::new(model(*ctor)),
            items: model_seq(items@),
            pairs: model_pairs(pairs@),
        },
        Value::Shared { slot, value } => ValueView::Shared { slot, value: Box::new(model(*value)) },
        Value::Ref(slot) => ValueView::Ref(slot),
    }
}

/// The model of a sequence of values, element by element.
pub open spec fn model_seq(s: Seq<Value>) -> Seq<ValueView>
    decreases s,
{
    if s.len() == 0 {
        Seq::empty()
    } else {
        model_seq(s.subrange(0, s.len() - 1)).push(model(s[s.len() - 1]))
    }
}

/// The model of a sequence of (key, value) pairs, element by element.
pub open spec fn model_pairs(s: Seq<(Value, Value)>) -> Seq<(ValueView, ValueView)>
    decreases s,
{
    if s.len() == 0 {
        Seq::empty()
    } else {
        let last = s[s.len() - 1];
        model_pairs(s.subrange(0, s.len() - 1)).push((model(last.0), model(last.1)))
    }
}

impl View for Value {
    type V = ValueView;

    open spec fn view(&self) -> ValueView {
        model(*self)
    }
}

pub proof fn lemma_model_seq(s: Seq<Value>)
    ensures
        model_seq(s).len() == s.len(),
        forall|i: int| 0 <= i < s.len() ==> #[trigger] model_seq(s)[i] == model(s[i]),
    decreases s.len(),
{
    if s.len() > 0 {
        lemma_model_seq(s.subrange(0, s.len() - 1));
    }
}

pub proof fn lemma_model_pairs(s: Seq<(Value, Value)>)
    ensures
        model_pairs(s).len() == s.len(),
        forall|i: int|
            0 <= i < s.len() ==> #[trigger] model_pairs(s)[i] == (model(s[i].0), model(s[i].1)),
    decreases s.len(),
{
    if s.len() > 0 {
        lemma_model_pairs(s.subrange(0, s.len() - 1));
    }
}

/// Kind name of a model node, as the error messages of the codec name it.
pub open spec fn kind_name(v: ValueView) -> &'static str {
    match v {
        ValueView::Nil => "none",
        ValueView::Bool(_) => "bool",
        ValueView::Int(_) => "int",
        ValueView::Long(_) => "long",
        ValueView::Float(_) => "float",
        ValueView::Bytes(_) => "bytes",
        ValueView::Str(_) => "str",
        ValueView::StrUcs2(_) => "str-ucs2",
        ValueView::StrTable(_) => "str-table",
        ValueView::Tuple(_) => "tuple",
        ValueView::List(_) => "list",
        ValueView::Dict(_) => "dict",
        ValueView::Stream(_) => "stream",
        ValueView::Global(_) => "global",
        ValueView::Instance { .. } => "instance",
        ValueView::Reduce { .. } => "reduce",
        ValueView::Shared { .. } => "shared",
        ValueView::Ref(_) => "ref",
    }
}

/// The node a `Shared` wrapper stores (the node itself otherwise).
pub open spec fn spec_unshared(v: ValueView) -> ValueView {
    match v {
        ValueView::Shared { value, .. } => *value,
        other => other,
    }
}

impl Value {
    /// Peel a `Shared` wrapper (if any) to reach the stored node. Does not
    /// resolve `Ref`.
    pub fn unshared(&self) -> (r: &Value)
        ensures
            r@ == spec_unshared(self@),
    {
        match self {
            Value::Shared { value, .. } => value,
            other => other,
        }
    }
}

} // verus!
