//! Encoder for a blue-marshal stream: the inverse of [`crate::decode`].
//!
//! The wire format is stated by the spec functions of this module
//! ([`spec_encode`] and the functions it is built from); [`encode`] is proved
//! to produce exactly those bytes and errors.

use vstd::bytes::*;
use std::collections::HashSet;
use vstd::prelude::*;
use vstd::utf8::*;

use crate::error::{EncodeError, EncodeErrorKind};
use crate::opcodes::{
    BUFFER, DICT, FALSE, FLOAT, FLOAT0, GLOBAL, INSTANCE, INT16, INT32, INT64, INT8, LIST, LIST0,
    LIST1, LONG, MARK, MAX_DEPTH, MINUSONE, NONE, ONE, PROTOCOL, REDUCE, REF, SHARED_FLAG, STREAM,
    STRING0, STRING1, STRINGR, TRUE, TUPLE, TUPLE0, TUPLE1, TUPLE2, UNICODE, UNICODE0, UNICODE1, UTF8,
    ZERO,
};
use crate::text::{utf16_encode, utf16_le_bytes, utf16_units};
use crate::value::{
    kind_name, lemma_model_pairs, lemma_model_seq, model, model_pairs, model_seq, Value, ValueView,
};

verus! {

broadcast use vstd::std_specs::hash::group_hash_axioms;

/// Encoder bookkeeping: the tail-map slots claimed so far (encounter order)
/// and the slots whose `Shared` node has completed (the valid `Ref` targets).
pub struct EncState {
    pub map: Seq<u32>,
    pub stored: Set<u32>,
}

pub open spec fn enc_start() -> EncState {
    EncState { map: Seq::empty(), stored: Set::empty() }
}

/// An opcode byte, with SHARED_FLAG set when `shared`.
pub open spec fn op_byte(op: u8, shared: bool) -> u8 {
    if shared {
        op | SHARED_FLAG
    } else {
        op
    }
}

/// Blue length encoding, always minimal: 0..=254 as one byte, larger values
/// as 0xFF followed by a little-endian i32.
pub open spec fn len_bytes(n: nat) -> Result<Seq<u8>, EncodeErrorKind> {
    if n < 255 {
        Ok(seq![n as u8])
    } else if n <= i32::MAX {
        Ok(seq![0xFFu8] + spec_u32_to_le_bytes(n as u32))
    } else {
        Err(EncodeErrorKind::TooLong(n as usize))
    }
}

/// Canonical integer encoding: MINUSONE/ZERO/ONE, then the narrowest of
/// INT8/INT16/INT32/INT64.
pub open spec fn int_bytes(n: i64) -> Seq<u8> {
    if n == -1 {
        seq![MINUSONE]
    } else if n == 0 {
        seq![ZERO]
    } else if n == 1 {
        seq![ONE]
    } else if -128 <= n <= 127 {
        seq![INT8, n as u8]
    } else if -32768 <= n <= 32767 {
        seq![INT16] + spec_u16_to_le_bytes(n as u16)
    } else if i32::MIN <= n <= i32::MAX {
        seq![INT32] + spec_u32_to_le_bytes(n as u32)
    } else {
        seq![INT64] + spec_u64_to_le_bytes(n as u64)
    }
}

/// Whether SHARED_FLAG may be emitted on this node: exactly when the opcode
/// chosen for it is one the decoder stores.
pub open spec fn storable(v: ValueView) -> bool {
    match v {
        ValueView::Long(_) | ValueView::List(_) | ValueView::Dict(_) | ValueView::Stream(_)
        | ValueView::Global(_) | ValueView::Instance { .. } | ValueView::Reduce { .. } => true,
        ValueView::Bytes(b) => b.len() >= 2,
        ValueView::Tuple(items) => items.len() > 0,
        _ => false,
    }
}

/// `prefix` followed by the length encoding of `n` and then `tail`.
pub open spec fn with_len(prefix: Seq<u8>, n: nat, tail: Seq<u8>) -> Result<Seq<u8>, EncodeErrorKind> {
    match len_bytes(n) {
        Ok(l) => Ok(prefix + l + tail),
        Err(e) => Err(e),
    }
}

/// A leaf: no state change.
pub open spec fn leaf(
    st: EncState,
    r: Result<Seq<u8>, EncodeErrorKind>,
) -> Result<(EncState, Seq<u8>), EncodeErrorKind> {
    match r {
        Ok(b) => Ok((st, b)),
        Err(e) => Err(e),
    }
}

/// `head` followed by the output of `rest`.
pub open spec fn after(
    head: Result<Seq<u8>, EncodeErrorKind>,
    rest: Result<(EncState, Seq<u8>), EncodeErrorKind>,
) -> Result<(EncState, Seq<u8>), EncodeErrorKind> {
    match head {
        Err(e) => Err(e),
        Ok(h) => match rest {
            Ok((st, b)) => Ok((st, h + b)),
            Err(e) => Err(e),
        },
    }
}

/// Encoding of one node at nesting depth `depth`: claims the tail-map slot of
/// a `Shared` wrapper at encounter time and marks it stored on completion.
pub open spec fn enc(v: ValueView, st: EncState, depth: nat) -> Result<(EncState, Seq<u8>), EncodeErrorKind>
    decreases v, 1nat,
{
    if depth >= MAX_DEPTH {
        Err(EncodeErrorKind::TooDeep)
    } else {
        match v {
            ValueView::Shared { slot, value } => {
                let st1 = EncState { map: st.map.push(slot), stored: st.stored };
                match enc_body(*value, st1, depth + 1, true) {
                    Ok((st2, b)) => Ok((EncState { map: st2.map, stored: st2.stored.insert(slot) }, b)),
                    Err(e) => Err(e),
                }
            },
            _ => enc_body(v, st, depth + 1, false),
        }
    }
}

/// Encoding of a sequence of nodes, in order.
pub open spec fn enc_seq(s: Seq<ValueView>, st: EncState, depth: nat) -> Result<(EncState, Seq<u8>), EncodeErrorKind>
    decreases s, 0nat,
{
    if s.len() == 0 {
        Ok((st, Seq::empty()))
    } else {
        match enc_seq(s.subrange(0, s.len() - 1), st, depth) {
            Err(e) => Err(e),
            Ok((st1, b1)) => match enc(s[s.len() - 1], st1, depth) {
                Err(e) => Err(e),
                Ok((st2, b2)) => Ok((st2, b1 + b2)),
            },
        }
    }
}

/// Encoding of (key, value) pairs, each written value first (DICT order) or
/// key first (REDUCE order).
pub open spec fn enc_pairs(s: Seq<(ValueView, ValueView)>, st: EncState, depth: nat, value_first: bool) -> Result<(EncState, Seq<u8>), EncodeErrorKind>
    decreases s, 0nat,
{
    if s.len() == 0 {
        Ok((st, Seq::empty()))
    } else {
        match enc_pairs(s.subrange(0, s.len() - 1), st, depth, value_first) {
            Err(e) => Err(e),
            Ok((st1, b1)) => {
                let (k, v) = s[s.len() - 1];
                let (first, second) = if value_first { (v, k) } else { (k, v) };
                match enc(first, st1, depth) {
                    Err(e) => Err(e),
                    Ok((st2, b2)) => match enc(second, st2, depth) {
                        Err(e) => Err(e),
                        Ok((st3, b3)) => Ok((st3, b1 + b2 + b3)),
                    },
                }
            },
        }
    }
}

/// The header of a tuple or list of `n` items.
pub open spec fn seq_header(n: nat, op0: u8, op1: u8, op2: Option<u8>, opn: u8, shared: bool) -> Result<Seq<u8>, EncodeErrorKind> {
    if n == 0 {
        Ok(seq![op_byte(op0, shared)])
    } else if n == 1 {
        Ok(seq![op_byte(op1, shared)])
    } else if n == 2 && op2 is Some {
        Ok(seq![op_byte(op2->0, shared)])
    } else {
        with_len(seq![op_byte(opn, shared)], n, Seq::empty())
    }
}

/// Encoding of one node's opcode, payload and children; `depth` is the depth
/// the node's children are encoded at.
pub open spec fn enc_body(v: ValueView, st: EncState, depth: nat, shared: bool) -> Result<(EncState, Seq<u8>), EncodeErrorKind>
    decreases v, 0nat,
{
    if shared && !storable(v) {
        Err(EncodeErrorKind::NotStorable(kind_name(v)))
    } else {
        match v {
            ValueView::Nil => Ok((st, seq![NONE])),
            ValueView::Bool(b) => Ok((st, seq![if b { TRUE } else { FALSE }])),
            ValueView::Int(n) => Ok((st, int_bytes(n))),
            ValueView::Long(b) => leaf(st, with_len(seq![op_byte(LONG, shared)], b.len(), b)),
            ValueView::Float(f) => if f == 0 {
                Ok((st, seq![FLOAT0]))
            } else {
                Ok((st, seq![FLOAT] + spec_u64_to_le_bytes(f)))
            },
            ValueView::Bytes(b) => if b.len() == 0 {
                Ok((st, seq![STRING0]))
            } else if b.len() == 1 {
                Ok((st, seq![STRING1, b[0]]))
            } else {
                leaf(st, with_len(seq![op_byte(BUFFER, shared)], b.len(), b))
            },
            ValueView::Str(s) => leaf(st, with_len(seq![UTF8], encode_utf8(s).len(), encode_utf8(s))),
            ValueView::StrUcs2(s) => {
                let u = utf16_encode(s);
                if u.len() == 0 {
                    Ok((st, seq![UNICODE0]))
                } else if u.len() == 1 {
                    Ok((st, seq![UNICODE1] + utf16_le_bytes(u)))
                } else {
                    leaf(st, with_len(seq![UNICODE], u.len(), utf16_le_bytes(u)))
                }
            },
            ValueView::StrTable(i) => if i == 0 {
                Err(EncodeErrorKind::BadTableIndex)
            } else {
                leaf(st, with_len(seq![STRINGR], i as nat, Seq::empty()))
            },
            ValueView::Tuple(items) => after(
                seq_header(items.len(), TUPLE0, TUPLE1, Some(TUPLE2), TUPLE, shared),
                enc_seq(items, st, depth),
            ),
            ValueView::List(items) => after(
                seq_header(items.len(), LIST0, LIST1, None, LIST, shared),
                enc_seq(items, st, depth),
            ),
            ValueView::Dict(entries) => after(
                with_len(seq![op_byte(DICT, shared)], entries.len(), Seq::empty()),
                enc_pairs(entries, st, depth, true),
            ),
            ValueView::Stream(inner) => match spec_encode_at(*inner, depth) {
                Err(e) => Err(e.kind),
                Ok(bytes) => leaf(st, with_len(seq![op_byte(STREAM, shared)], bytes.len(), bytes)),
            },
            ValueView::Global(name) => leaf(st, with_len(seq![op_byte(GLOBAL, shared)], name.len(), name)),
            ValueView::Instance { class, state } => match enc(*class, st, depth) {
                Err(e) => Err(e),
                Ok((st1, b1)) => match enc(*state, st1, depth) {
                    Err(e) => Err(e),
                    Ok((st2, b2)) => Ok((st2, seq![op_byte(INSTANCE, shared)] + b1 + b2)),
                },
            },
            ValueView::Reduce { ctor, items, pairs } => match enc(*ctor, st, depth) {
                Err(e) => Err(e),
                Ok((st1, b1)) => match enc_seq(items, st1, depth) {
                    Err(e) => Err(e),
                    Ok((st2, b2)) => match enc_pairs(pairs, st2, depth, false) {
                        Err(e) => Err(e),
                        Ok((st3, b3)) => Ok(
                            (st3, seq![op_byte(REDUCE, shared)] + b1 + b2 + seq![MARK] + b3 + seq![MARK]),
                        ),
                    },
                },
            },
            ValueView::Ref(slot) => if !st.stored.contains(slot) {
                Err(EncodeErrorKind::RefBeforeStore(slot))
            } else {
                leaf(st, with_len(seq![REF], slot as nat, Seq::empty()))
            },
            ValueView::Shared { .. } => Err(EncodeErrorKind::NotStorable("shared")),
        }
    }
}

/// The bytes of a successful encoding step.
pub open spec fn enc_out(r: Result<(EncState, Seq<u8>), EncodeErrorKind>) -> Seq<u8> {
    match r {
        Ok((_, b)) => b,
        Err(_) => Seq::empty(),
    }
}

/// The state after a successful encoding step.
pub open spec fn enc_st(r: Result<(EncState, Seq<u8>), EncodeErrorKind>) -> EncState {
    match r {
        Ok((st, _)) => st,
        Err(_) => enc_start(),
    }
}

/// The first tail-map slot outside `1..=count`, in map order.
pub open spec fn first_bad_slot(map: Seq<u32>, count: nat) -> Option<u32>
    decreases map.len(),
{
    if map.len() == 0 {
        None
    } else if map[0] < 1 || map[0] > count {
        Some(map[0])
    } else {
        first_bad_slot(map.drop_first(), count)
    }
}

/// The first slot of `map`, at or after entry `k`, that an earlier entry
/// already names.
pub open spec fn repeat_from(map: Seq<u32>, k: int) -> Option<u32>
    decreases map.len() - k,
{
    if k < 0 || k >= map.len() {
        None
    } else if map.take(k).contains(map[k]) {
        Some(map[k])
    } else {
        repeat_from(map, k + 1)
    }
}

/// No slot is named twice from entry `k` on.
pub proof fn lemma_repeat_from(map: Seq<u32>, k: int)
    requires
        0 <= k,
        repeat_from(map, k) is None,
    ensures
        forall|i: int, j: int| 0 <= i < j < map.len() && k <= j ==> map[i] != map[j],
    decreases map.len() - k,
{
    if k < map.len() {
        lemma_repeat_from(map, k + 1);
        assert forall|i: int, j: int| 0 <= i < j < map.len() && k <= j implies map[i] != map[j] by {
            if j == k {
                assert(map.take(k)[i] == map[i]);
            }
        }
    }
}

/// The tail map: each slot as a little-endian 32-bit word.
pub open spec fn map_bytes(map: Seq<u32>) -> Seq<u8>
    decreases map.len(),
{
    if map.len() == 0 {
        Seq::empty()
    } else {
        map_bytes(map.subrange(0, map.len() - 1)) + spec_u32_to_le_bytes(map[map.len() - 1])
    }
}

/// A complete stream for `root`, whose nodes start at nesting depth `depth`:
/// magic, shared count, body, tail map.
pub open spec fn spec_encode_at(root: ValueView, depth: nat) -> Result<Seq<u8>, EncodeError>
    decreases root, 2nat,
{
    match enc(root, enc_start(), depth) {
        Err(k) => Err(EncodeError { kind: k }),
        Ok((st, body)) => {
            let count = st.map.len();
            match first_bad_slot(st.map, count) {
                Some(slot) => Err(
                    EncodeError { kind: EncodeErrorKind::SlotOutOfRange { slot, count: count as usize } },
                ),
                None => if repeat_from(st.map, 0) is Some {
                    Err(EncodeError { kind: EncodeErrorKind::DuplicateSlot(repeat_from(st.map, 0)->Some_0) })
                } else if count > i32::MAX {
                    Err(EncodeError { kind: EncodeErrorKind::TooLong(count as usize) })
                } else {
                    Ok(seq![PROTOCOL] + spec_u32_to_le_bytes(count as u32) + body + map_bytes(st.map))
                },
            }
        },
    }
}

/// The complete stream for `root`.
pub open spec fn spec_encode(root: ValueView) -> Result<Seq<u8>, EncodeError> {
    spec_encode_at(root, 0)
}


// ---------------------------------------------------------------------------
// Lemmas on the encoder specs.
// ---------------------------------------------------------------------------

/// An error in the encoding of a prefix of a sequence is the error of the
/// whole sequence.
pub proof fn lemma_enc_seq_prefix_err(s: Seq<ValueView>, st: EncState, depth: nat, j: int)
    requires
        0 <= j <= s.len(),
        enc_seq(s.subrange(0, j), st, depth) is Err,
    ensures
        enc_seq(s, st, depth) == enc_seq(s.subrange(0, j), st, depth),
    decreases s.len() - j,
{
    if j < s.len() {
        let t = s.subrange(0, j + 1);
        assert(t.subrange(0, t.len() - 1) =~= s.subrange(0, j));
        lemma_enc_seq_prefix_err(s, st, depth, j + 1);
    } else {
        assert(s.subrange(0, j) =~= s);
    }
}

pub proof fn lemma_enc_pairs_prefix_err(
    s: Seq<(ValueView, ValueView)>,
    st: EncState,
    depth: nat,
    value_first: bool,
    j: int,
)
    requires
        0 <= j <= s.len(),
        enc_pairs(s.subrange(0, j), st, depth, value_first) is Err,
    ensures
        enc_pairs(s, st, depth, value_first) == enc_pairs(s.subrange(0, j), st, depth, value_first),
    decreases s.len() - j,
{
    if j < s.len() {
        let t = s.subrange(0, j + 1);
        assert(t.subrange(0, t.len() - 1) =~= s.subrange(0, j));
        lemma_enc_pairs_prefix_err(s, st, depth, value_first, j + 1);
    } else {
        assert(s.subrange(0, j) =~= s);
    }
}

// ---------------------------------------------------------------------------
// The executable encoder.
// ---------------------------------------------------------------------------

struct Encoder {
    out: Vec<u8>,
    map: Vec<u32>,
    stored: HashSet<u32>,
}

impl Encoder {
    spec fn st(&self) -> EncState {
        EncState { map: self.map@, stored: self.stored@ }
    }

    /// `self` became `new` by emitting what `spec` describes, with result `r`.
    spec fn emitted(
        &self,
        new: &Encoder,
        r: Result<(), EncodeError>,
        spec: Result<(EncState, Seq<u8>), EncodeErrorKind>,
    ) -> bool {
        match spec {
            Ok((st, b)) => r is Ok && new.out@ == self.out@ + b && new.st() == st,
            Err(k) => r == Err::<(), EncodeError>(EncodeError { kind: k }),
        }
    }

    fn push_op(&mut self, op: u8, shared: bool)
        ensures
            final(self).out@ == old(self).out@.push(op_byte(op, shared)),
            final(self).st() == old(self).st(),
    {
        if shared {
            self.out.push(op | SHARED_FLAG);
        } else {
            self.out.push(op);
        }
    }

    /// Blue length encoding, always minimal.
    fn write_len(&mut self, n: usize) -> (r: Result<(), EncodeError>)
        ensures
            final(self).st() == old(self).st(),
            match len_bytes(n as nat) {
                Ok(l) => r is Ok && final(self).out@ == old(self).out@ + l,
                Err(k) => r == Err::<(), EncodeError>(EncodeError { kind: k }) && final(self).out@ == old(self).out@,
            },
    {
        if n < 255 {
            self.out.push(n as u8);
            assert(self.out@ =~= old(self).out@ + seq![n as u8]);
            Ok(())
        } else if n <= 0x7FFF_FFFF {
            let b = u32_to_le_bytes(n as u32);
            self.out.push(0xFF);
            self.out.extend_from_slice(b.as_slice());
            assert(self.out@ =~= old(self).out@ + (seq![0xFFu8] + spec_u32_to_le_bytes(n as u32)));
            Ok(())
        } else {
            Err(EncodeError { kind: EncodeErrorKind::TooLong(n) })
        }
    }

    fn write_bytes(&mut self, b: &[u8])
        ensures
            final(self).out@ == old(self).out@ + b@,
            final(self).st() == old(self).st(),
    {
        self.out.extend_from_slice(b);
    }

    fn write_int(&mut self, n: i64)
        ensures
            final(self).out@ == old(self).out@ + int_bytes(n),
            final(self).st() == old(self).st(),
    {
        if n == -1 {
            self.out.push(MINUSONE);
        } else if n == 0 {
            self.out.push(ZERO);
        } else if n == 1 {
            self.out.push(ONE);
        } else if -128 <= n && n <= 127 {
            self.out.push(INT8);
            self.out.push(n as u8);
        } else if -32768 <= n && n <= 32767 {
            self.out.push(INT16);
            let b = u16_to_le_bytes(n as u16);
            self.out.extend_from_slice(b.as_slice());
        } else if -2147483648 <= n && n <= 2147483647 {
            self.out.push(INT32);
            let b = u32_to_le_bytes(n as u32);
            self.out.extend_from_slice(b.as_slice());
        } else {
            self.out.push(INT64);
            let b = u64_to_le_bytes(n as u64);
            self.out.extend_from_slice(b.as_slice());
        }
        assert(self.out@ =~= old(self).out@ + int_bytes(n));
    }

    fn write_units(&mut self, units: &Vec<u16>)
        ensures
            final(self).out@ == old(self).out@ + utf16_le_bytes(units@),
            final(self).st() == old(self).st(),
    {
        let mut i: usize = 0;
        while i < units.len()
            invariant
                i <= units.len(),
                self.out@ == old(self).out@ + utf16_le_bytes(units@.subrange(0, i as int)),
                self.st() == old(self).st(),
            decreases units.len() - i,
        {
            let b = u16_to_le_bytes(units[i]);
            self.out.extend_from_slice(b.as_slice());
            let ghost t = units@.subrange(0, i + 1);
            assert(t.subrange(0, t.len() - 1) =~= units@.subrange(0, i as int));
            i = i + 1;
        }
        assert(units@.subrange(0, units.len() as int) =~= units@);
    }

    /// Emit one node at nesting depth `depth`.
    fn emit(&mut self, v: &Value, depth: usize) -> (r: Result<(), EncodeError>)
        ensures
            old(self).emitted(final(self), r, enc(v@, old(self).st(), depth as nat)),
        decreases v, 3nat,
    {
        if depth >= MAX_DEPTH {
            return Err(EncodeError { kind: EncodeErrorKind::TooDeep });
        }
        match v {
            Value::Shared { slot, value } => {
                self.map.push(*slot);
                let r = self.emit_body(value, depth + 1, true);
                if r.is_ok() {
                    self.stored.insert(*slot);
                }
                r
            },
            other => self.emit_body(other, depth + 1, false),
        }
    }

    fn emit_seq(&mut self, items: &Vec<Value>, depth: usize) -> (r: Result<(), EncodeError>)
        ensures
            old(self).emitted(final(self), r, enc_seq(model_seq(items@), old(self).st(), depth as nat)),
        decreases items, 0nat,
    {
        let ghost ms = model_seq(items@);
        proof {
            lemma_model_seq(items@);
        }
        let mut i: usize = 0;
        while i < items.len()
            invariant
                i <= items.len(),
                ms == model_seq(items@),
                ms.len() == items@.len(),
                forall|j: int| 0 <= j < items@.len() ==> #[trigger] ms[j] == model(items@[j]),
                ({
                    let pre = enc_seq(ms.subrange(0, i as int), old(self).st(), depth as nat);
                    pre is Ok && self.out@ == old(self).out@ + enc_out(pre) && self.st() == enc_st(pre)
                }),
            decreases items.len() - i,
        {
            let ghost before = *self;
            let ghost t = ms.subrange(0, i + 1);
            assert(t.subrange(0, t.len() - 1) =~= ms.subrange(0, i as int));
            assert(t[t.len() - 1] == model(items@[i as int]));
            let r = self.emit(&items[i], depth);
            if r.is_err() {
                proof {
                    lemma_enc_seq_prefix_err(ms, old(self).st(), depth as nat, i + 1);
                }
                return r;
            }
            assert(self.out@ =~= old(self).out@ + enc_out(enc_seq(t, old(self).st(), depth as nat)));
            i = i + 1;
        }
        assert(ms.subrange(0, items.len() as int) =~= ms);
        Ok(())
    }

    /// One (key, value) pair, in the given wire order.
    fn emit_pair(&mut self, pair: &(Value, Value), depth: usize, value_first: bool) -> (r: Result<(), EncodeError>)
        ensures
            ({
                let (first, second) = if value_first { (pair.1@, pair.0@) } else { (pair.0@, pair.1@) };
                old(self).emitted(
                    final(self),
                    r,
                    match enc(first, old(self).st(), depth as nat) {
                        Err(e) => Err(e),
                        Ok((st2, b2)) => match enc(second, st2, depth as nat) {
                            Err(e) => Err(e),
                            Ok((st3, b3)) => Ok((st3, b2 + b3)),
                        },
                    },
                )
            }),
        decreases pair, 0nat,
    {
        if value_first {
            self.emit(&pair.1, depth)?;
            self.emit(&pair.0, depth)?;
            let ghost r1 = enc(pair.1@, old(self).st(), depth as nat);
            assert(self.out@ =~= old(self).out@ + (enc_out(r1) + enc_out(enc(pair.0@, enc_st(r1), depth as nat))));
        } else {
            self.emit(&pair.0, depth)?;
            self.emit(&pair.1, depth)?;
            let ghost r1 = enc(pair.0@, old(self).st(), depth as nat);
            assert(self.out@ =~= old(self).out@ + (enc_out(r1) + enc_out(enc(pair.1@, enc_st(r1), depth as nat))));
        }
        Ok(())
    }

    fn emit_pairs(&mut self, entries: &Vec<(Value, Value)>, depth: usize, value_first: bool) -> (r: Result<(), EncodeError>)
        ensures
            old(self).emitted(
                final(self),
                r,
                enc_pairs(model_pairs(entries@), old(self).st(), depth as nat, value_first),
            ),
        decreases entries, 0nat,
    {
        let ghost ms = model_pairs(entries@);
        proof {
            lemma_model_pairs(entries@);
        }
        let mut i: usize = 0;
        while i < entries.len()
            invariant
                i <= entries.len(),
                ms == model_pairs(entries@),
                ms.len() == entries@.len(),
                forall|j: int|
                    0 <= j < entries@.len() ==> #[trigger] ms[j] == (
                    model(entries@[j].0),
                    model(entries@[j].1),
                ),
                ({
                    let pre = enc_pairs(ms.subrange(0, i as int), old(self).st(), depth as nat, value_first);
                    pre is Ok && self.out@ == old(self).out@ + enc_out(pre) && self.st() == enc_st(pre)
                }),
            decreases entries.len() - i,
        {
            let ghost t = ms.subrange(0, i + 1);
            assert(t.subrange(0, t.len() - 1) =~= ms.subrange(0, i as int));
            let ghost mid = *self;
            let pair = &entries[i];
            assert(t[t.len() - 1] == (model(pair.0), model(pair.1)));
            let r = self.emit_pair(pair, depth, value_first);
            if r.is_err() {
                proof {
                    lemma_enc_pairs_prefix_err(ms, old(self).st(), depth as nat, value_first, i + 1);
                }
                return r;
            }
            assert(self.out@ =~= old(self).out@ + enc_out(enc_pairs(t, old(self).st(), depth as nat, value_first)));
            i = i + 1;
        }
        assert(ms.subrange(0, entries.len() as int) =~= ms);
        Ok(())
    }

    /// An opcode byte, a length, and a payload.
    fn emit_leaf(&mut self, op: u8, n: usize, payload: &[u8]) -> (r: Result<(), EncodeError>)
        ensures
            old(self).emitted(final(self), r, leaf(old(self).st(), with_len(seq![op], n as nat, payload@))),
    {
        self.out.push(op);
        self.write_len(n)?;
        self.write_bytes(payload);
        assert(self.out@ =~= old(self).out@ + (seq![op] + len_bytes(n as nat)->Ok_0 + payload@));
        Ok(())
    }

    fn emit_ucs2(&mut self, s: &String) -> (r: Result<(), EncodeError>)
        ensures
            ({
                let u = utf16_encode(s@);
                old(self).emitted(
                    final(self),
                    r,
                    if u.len() == 0 {
                        Ok((old(self).st(), seq![UNICODE0]))
                    } else if u.len() == 1 {
                        Ok((old(self).st(), seq![UNICODE1] + utf16_le_bytes(u)))
                    } else {
                        leaf(old(self).st(), with_len(seq![UNICODE], u.len(), utf16_le_bytes(u)))
                    },
                )
            }),
    {
        let units = utf16_units(s.as_str());
        if units.len() == 0 {
            self.out.push(UNICODE0);
        } else if units.len() == 1 {
            self.out.push(UNICODE1);
            self.write_units(&units);
        } else {
            self.out.push(UNICODE);
            self.write_len(units.len())?;
            self.write_units(&units);
        }
        assert(self.out@ =~= old(self).out@ + enc_out(
            if units@.len() == 0 {
                Ok((old(self).st(), seq![UNICODE0]))
            } else if units@.len() == 1 {
                Ok((old(self).st(), seq![UNICODE1] + utf16_le_bytes(units@)))
            } else {
                leaf(old(self).st(), with_len(seq![UNICODE], units@.len(), utf16_le_bytes(units@)))
            },
        ));
        Ok(())
    }

    fn emit_seq_node(&mut self, items: &Vec<Value>, depth: usize, shared: bool, op0: u8, op1: u8, op2: Option<u8>, opn: u8) -> (r: Result<(), EncodeError>)
        ensures
            old(self).emitted(
                final(self),
                r,
                after(
                    seq_header(items@.len(), op0, op1, op2, opn, shared),
                    enc_seq(model_seq(items@), old(self).st(), depth as nat),
                ),
            ),
        decreases items, 1nat,
    {
        let n = items.len();
        if n == 0 {
            self.push_op(op0, shared);
        } else if n == 1 {
            self.push_op(op1, shared);
        } else if n == 2 && op2.is_some() {
            self.push_op(op2.unwrap(), shared);
        } else {
            self.push_op(opn, shared);
            self.write_len(n)?;
        }
        let ghost mid = self.out@;
        assert(mid =~= old(self).out@ + seq_header(items@.len(), op0, op1, op2, opn, shared)->Ok_0);
        let r = self.emit_seq(items, depth);
        if r.is_ok() {
            assert(self.out@ =~= old(self).out@ + enc_out(
                after(
                    seq_header(items@.len(), op0, op1, op2, opn, shared),
                    enc_seq(model_seq(items@), old(self).st(), depth as nat),
                ),
            ));
        }
        r
    }

    fn emit_dict(&mut self, entries: &Vec<(Value, Value)>, depth: usize, shared: bool) -> (r: Result<(), EncodeError>)
        ensures
            old(self).emitted(
                final(self),
                r,
                after(
                    with_len(seq![op_byte(DICT, shared)], entries@.len(), Seq::empty()),
                    enc_pairs(model_pairs(entries@), old(self).st(), depth as nat, true),
                ),
            ),
        decreases entries, 1nat,
    {
        self.push_op(DICT, shared);
        self.write_len(entries.len())?;
        assert(self.out@ =~= old(self).out@ + with_len(seq![op_byte(DICT, shared)], entries@.len(), Seq::empty())->Ok_0);
        let r = self.emit_pairs(entries, depth, true);
        if r.is_ok() {
            assert(self.out@ =~= old(self).out@ + enc_out(
                after(
                    with_len(seq![op_byte(DICT, shared)], entries@.len(), Seq::empty()),
                    enc_pairs(model_pairs(entries@), old(self).st(), depth as nat, true),
                ),
            ));
        }
        r
    }

    fn emit_instance(&mut self, node: &Value, class: &Value, state: &Value, depth: usize, shared: bool) -> (r: Result<(), EncodeError>)
        requires
            node matches Value::Instance { class: c, state: s } && *c == *class && *s == *state,
        ensures
            old(self).emitted(
                final(self),
                r,
                match enc(class@, old(self).st(), depth as nat) {
                    Err(e) => Err(e),
                    Ok((st1, b1)) => match enc(state@, st1, depth as nat) {
                        Err(e) => Err(e),
                        Ok((st2, b2)) => Ok((st2, seq![op_byte(INSTANCE, shared)] + b1 + b2)),
                    },
                },
            ),
        decreases node, 1nat,
    {
        self.push_op(INSTANCE, shared);
        self.emit(class, depth)?;
        self.emit(state, depth)?;
        let ghost r1 = enc(class@, old(self).st(), depth as nat);
        assert(self.out@ =~= old(self).out@ + (seq![op_byte(INSTANCE, shared)] + enc_out(r1) + enc_out(enc(state@, enc_st(r1), depth as nat))));
        Ok(())
    }

    fn emit_reduce(&mut self, node: &Value, ctor: &Value, items: &Vec<Value>, pairs: &Vec<(Value, Value)>, depth: usize, shared: bool) -> (r: Result<(), EncodeError>)
        requires
            node matches Value::Reduce { ctor: c, items: i, pairs: p } && *c == *ctor && i == items && p == pairs,
        ensures
            old(self).emitted(
                final(self),
                r,
                match enc(ctor@, old(self).st(), depth as nat) {
                    Err(e) => Err(e),
                    Ok((st1, b1)) => match enc_seq(model_seq(items@), st1, depth as nat) {
                        Err(e) => Err(e),
                        Ok((st2, b2)) => match enc_pairs(model_pairs(pairs@), st2, depth as nat, false) {
                            Err(e) => Err(e),
                            Ok((st3, b3)) => Ok(
                                (st3, seq![op_byte(REDUCE, shared)] + b1 + b2 + seq![MARK] + b3 + seq![MARK]),
                            ),
                        },
                    },
                },
            ),
        decreases node, 1nat,
    {
        self.push_op(REDUCE, shared);
        self.emit(ctor, depth)?;
        let ghost o1 = self.out@;
        self.emit_seq(items, depth)?;
        let ghost o2 = self.out@;
        self.out.push(MARK);
        let ghost o3 = self.out@;
        self.emit_pairs(pairs, depth, false)?;
        let ghost o4 = self.out@;
        self.out.push(MARK);
        let ghost r1 = enc(ctor@, old(self).st(), depth as nat);
        let ghost r2 = enc_seq(model_seq(items@), enc_st(r1), depth as nat);
        let ghost r3 = enc_pairs(model_pairs(pairs@), enc_st(r2), depth as nat, false);
        assert(self.out@ =~= old(self).out@ + (seq![op_byte(REDUCE, shared)] + enc_out(r1) + enc_out(r2) + seq![MARK] + enc_out(r3) + seq![MARK]));
        Ok(())
    }

    /// Emit one node's opcode, payload, and children; `depth` is the depth
    /// its children are emitted at.
    #[verifier::spinoff_prover]
    fn emit_body(&mut self, v: &Value, depth: usize, shared: bool) -> (r: Result<(), EncodeError>)
        requires
            depth <= MAX_DEPTH,
        ensures
            old(self).emitted(final(self), r, enc_body(v@, old(self).st(), depth as nat, shared)),
            shared && !storable(v@) ==> final(self).out@ == old(self).out@,
        decreases v, 2nat,
    {
        if shared && !storable_with_flag(v) {
            return Err(EncodeError { kind: EncodeErrorKind::NotStorable(kind_name_of(v)) });
        }
        match v {
            Value::Nil => {
                self.out.push(NONE);
                assert(self.out@ =~= old(self).out@ + seq![NONE]);
                Ok(())
            },
            Value::Bool(b) => {
                self.out.push(if *b { TRUE } else { FALSE });
                assert(self.out@ =~= old(self).out@ + seq![if *b { TRUE } else { FALSE }]);
                Ok(())
            },
            Value::Int(n) => {
                self.write_int(*n);
                Ok(())
            },
            Value::Long(bytes) => self.emit_leaf(if shared { LONG | SHARED_FLAG } else { LONG }, bytes.len(), bytes.as_slice()),
            Value::Float(f) => {
                if *f == 0 {
                    self.out.push(FLOAT0);
                } else {
                    self.out.push(FLOAT);
                    let b = u64_to_le_bytes(*f);
                    self.out.extend_from_slice(b.as_slice());
                }
                assert(self.out@ =~= old(self).out@ + enc_out(enc_body(v@, old(self).st(), depth as nat, shared)));
                Ok(())
            },
            Value::Bytes(b) => {
                if b.len() == 0 {
                    self.out.push(STRING0);
                    assert(self.out@ =~= old(self).out@ + seq![STRING0]);
                    Ok(())
                } else if b.len() == 1 {
                    self.out.push(STRING1);
                    self.out.push(b[0]);
                    assert(self.out@ =~= old(self).out@ + seq![STRING1, b@[0]]);
                    Ok(())
                } else {
                    self.emit_leaf(if shared { BUFFER | SHARED_FLAG } else { BUFFER }, b.len(), b.as_slice())
                }
            },
            Value::Str(s) => {
                let bytes = s.as_str().as_bytes();
                self.emit_leaf(UTF8, bytes.len(), bytes)
            },
            Value::StrUcs2(s) => self.emit_ucs2(s),
            Value::StrTable(idx) => {
                if *idx == 0 {
                    return Err(EncodeError { kind: EncodeErrorKind::BadTableIndex });
                }
                self.emit_leaf(STRINGR, *idx as usize, &[])
            },
            Value::Tuple(items) => {
                proof {
                    lemma_model_seq(items@);
                }
                self.emit_seq_node(items, depth, shared, TUPLE0, TUPLE1, Some(TUPLE2), TUPLE)
            },
            Value::List(items) => {
                proof {
                    lemma_model_seq(items@);
                }
                self.emit_seq_node(items, depth, shared, LIST0, LIST1, None, LIST)
            },
            Value::Dict(entries) => {
                proof {
                    lemma_model_pairs(entries@);
                }
                self.emit_dict(entries, depth, shared)
            },
            Value::Stream(inner) => {
                let bytes = match encode_at_depth(inner, depth) {
                    Ok(b) => b,
                    Err(e) => return Err(e),
                };
                self.emit_leaf(if shared { STREAM | SHARED_FLAG } else { STREAM }, bytes.len(), bytes.as_slice())
            },
            Value::Global(name) => self.emit_leaf(if shared { GLOBAL | SHARED_FLAG } else { GLOBAL }, name.len(), name.as_slice()),
            Value::Instance { class, state } => self.emit_instance(v, class, state, depth, shared),
            Value::Reduce { ctor, items, pairs } => self.emit_reduce(v, ctor, items, pairs, depth, shared),
            Value::Ref(slot) => {
                if !self.stored.contains(slot) {
                    return Err(EncodeError { kind: EncodeErrorKind::RefBeforeStore(*slot) });
                }
                self.emit_leaf(REF, *slot as usize, &[])
            },
            Value::Shared { .. } => Err(EncodeError { kind: EncodeErrorKind::NotStorable("shared") }),
        }
    }
}

fn storable_with_flag(v: &Value) -> (r: bool)
    ensures
        r == storable(v@),
{
    match v {
        Value::Long(_) | Value::List(_) | Value::Dict(_) | Value::Stream(_) | Value::Global(_)
        | Value::Instance { .. } | Value::Reduce { .. } => true,
        Value::Bytes(b) => b.len() >= 2,
        Value::Tuple(items) => {
            proof {
                lemma_model_seq(items@);
            }
            items.len() != 0
        },
        _ => false,
    }
}

/// The kind name of a node, as error messages name it.
pub fn kind_name_of(v: &Value) -> (r: &'static str)
    ensures
        r == kind_name(v@),
{
    match v {
        Value::Nil => "none",
        Value::Bool(_) => "bool",
        Value::Int(_) => "int",
        Value::Long(_) => "long",
        Value::Float(_) => "float",
        Value::Bytes(_) => "bytes",
        Value::Str(_) => "str",
        Value::StrUcs2(_) => "str-ucs2",
        Value::StrTable(_) => "str-table",
        Value::Tuple(_) => "tuple",
        Value::List(_) => "list",
        Value::Dict(_) => "dict",
        Value::Stream(_) => "stream",
        Value::Global(_) => "global",
        Value::Instance { .. } => "instance",
        Value::Reduce { .. } => "reduce",
        Value::Shared { .. } => "shared",
        Value::Ref(_) => "ref",
    }
}

/// Encode `root` as a complete stream whose nodes start at depth `depth`.
fn encode_at_depth(root: &Value, depth: usize) -> (r: Result<Vec<u8>, EncodeError>)
    requires
        depth <= MAX_DEPTH,
    ensures
        match spec_encode_at(root@, depth as nat) {
            Ok(b) => r matches Ok(x) && x@ == b,
            Err(e) => r == Err::<Vec<u8>, EncodeError>(e),
        },
    decreases root, 4nat,
{
    let mut e = Encoder { out: Vec::new(), map: Vec::new(), stored: HashSet::new() };
    e.out.push(PROTOCOL);
    e.out.push(0);
    e.out.push(0);
    e.out.push(0);
    e.out.push(0);
    let ghost e0 = e;
    match e.emit(root, depth) {
        Err(err) => return Err(err),
        Ok(()) => {},
    }
    let ghost body = e.out@.subrange(5, e.out@.len() as int);
    assert(e0.st() == enc_start());
    assert(body =~= enc_out(enc(root@, enc_start(), depth as nat)));
    assert(e.out@ =~= e0.out@ + body);
    assert(enc(root@, enc_start(), depth as nat) == Ok::<(EncState, Seq<u8>), EncodeErrorKind>((e.st(), body)));
    let count = e.map.len();
    assert(e.map@.subrange(0, count as int) =~= e.map@);
    let mut i: usize = 0;
    while i < count
        invariant
            i <= count,
            count == e.map@.len(),
            first_bad_slot(e.map@, count as nat) == first_bad_slot(e.map@.subrange(i as int, count as int), count as nat),
            enc(root@, enc_start(), depth as nat) == Ok::<(EncState, Seq<u8>), EncodeErrorKind>((e.st(), body)),
        decreases count - i,
    {
        let slot = e.map[i];
        let ghost rest = e.map@.subrange(i as int, count as int);
        assert(rest.drop_first() =~= e.map@.subrange(i + 1, count as int));
        if slot < 1 || slot as usize > count {
            assert(first_bad_slot(e.map@, count as nat) == Some(slot));
            return Err(EncodeError { kind: EncodeErrorKind::SlotOutOfRange { slot, count } });
        }
        i = i + 1;
    }
    assert(e.map@.subrange(count as int, count as int) =~= Seq::<u32>::empty());
    let mut k: usize = 0;
    while k < count
        invariant
            k <= count,
            count == e.map@.len(),
            repeat_from(e.map@, 0) == repeat_from(e.map@, k as int),
            enc(root@, enc_start(), depth as nat) == Ok::<(EncState, Seq<u8>), EncodeErrorKind>((e.st(), body)),
            first_bad_slot(e.map@, count as nat) is None,
        decreases count - k,
    {
        let slot = e.map[k];
        let mut i: usize = 0;
        while i < k
            invariant
                i <= k < count,
                count == e.map@.len(),
                slot == e.map@[k as int],
                forall|x: int| 0 <= x < i ==> e.map@[x] != slot,
                repeat_from(e.map@, 0) == repeat_from(e.map@, k as int),
                first_bad_slot(e.map@, count as nat) is None,
                enc(root@, enc_start(), depth as nat) == Ok::<(EncState, Seq<u8>), EncodeErrorKind>((e.st(), body)),
            decreases k - i,
        {
            if e.map[i] == slot {
                assert(e.map@.take(k as int)[i as int] == slot);
                assert(repeat_from(e.map@, k as int) == Some(slot));
                return Err(EncodeError { kind: EncodeErrorKind::DuplicateSlot(slot) });
            }
            i = i + 1;
        }
        assert(!e.map@.take(k as int).contains(slot));
        k = k + 1;
    }
    if count > 0x7FFF_FFFF {
        return Err(EncodeError { kind: EncodeErrorKind::TooLong(count) });
    }
    let c = u32_to_le_bytes(count as u32);
    proof {
        lemma_auto_spec_u32_to_from_le_bytes();
    }
    e.out.set(1, c[0]);
    e.out.set(2, c[1]);
    e.out.set(3, c[2]);
    e.out.set(4, c[3]);
    let ghost head = seq![PROTOCOL] + spec_u32_to_le_bytes(count as u32);
    assert(e.out@ =~= head + body);
    let mut j: usize = 0;
    while j < count
        invariant
            j <= count,
            count == e.map@.len(),
            e.out@ == head + body + map_bytes(e.map@.subrange(0, j as int)),
            first_bad_slot(e.map@, count as nat) is None,
            count <= i32::MAX,
            enc(root@, enc_start(), depth as nat) == Ok::<(EncState, Seq<u8>), EncodeErrorKind>((e.st(), body)),
        decreases count - j,
    {
        let b = u32_to_le_bytes(e.map[j]);
        e.out.extend_from_slice(b.as_slice());
        let ghost t = e.map@.subrange(0, j + 1);
        assert(t.subrange(0, t.len() - 1) =~= e.map@.subrange(0, j as int));
        assert(e.out@ =~= head + body + map_bytes(t));
        j = j + 1;
    }
    assert(e.map@.subrange(0, count as int) =~= e.map@);
    assert(spec_encode_at(root@, depth as nat) == Ok::<Seq<u8>, EncodeError>(head + body + map_bytes(e.map@)));
    Ok(e.out)
}

/// Encode a [`Value`] into a complete blue-marshal stream.
pub fn encode(root: &Value) -> (r: Result<Vec<u8>, EncodeError>)
    ensures
        match spec_encode(root@) {
            Ok(b) => r matches Ok(x) && x@ == b,
            Err(e) => r == Err::<Vec<u8>, EncodeError>(e),
        },
{
    encode_at_depth(root, 0)
}
} // verus!
