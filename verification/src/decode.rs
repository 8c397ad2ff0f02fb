//! Recursive decoder for a blue-marshal stream.
//!
//! What a stream decodes to is stated by [`spec_decode`] and the functions it
//! is built from; [`decode`] is proved to return exactly that value or error.
//!
//! Shared stores: a SHARED_FLAG-ed object claims the next tail-map entry when
//! it is *encountered* (before its children decode) and becomes a valid `REF`
//! target only once it has completed, so a self-referential `REF` is a
//! `BadRef`.

use vstd::bytes::*;
use vstd::prelude::*;
use vstd::slice::slice_to_vec;
use vstd::utf8::*;

use crate::error::{DecodeError, ErrorKind};
use crate::opcodes::{
    BLUE, BUFFER, CALLBACK, CHECKSUM, DBROW, DICT, FALSE, FLOAT, FLOAT0, GLOBAL, INSTANCE, INT16,
    INT32, INT64, INT8, LIST, LIST0, LIST1, LONG, MARK, MAX_DEPTH, MINUSONE, NEWOBJ, NONE, ONE,
    PICKLER, PROTOCOL, REDUCE, REF, SHARED_FLAG, STREAM, STRING, STRING0, STRING1, STRINGL,
    STRINGR, STRING_TABLE_LEN, TRUE, TUPLE, TUPLE0, TUPLE1, TUPLE2, UNICODE, UNICODE0, UNICODE1,
    UTF8, ZERO,
};
use crate::reader::{
    eof_at, spec_read_bytes, spec_read_len, spec_read_u16, spec_read_u32, spec_read_u64,
    spec_read_u8, Reader,
};
use crate::text::{utf16_decode, utf16_from_le_bytes};
use crate::value::{model_pairs, model_seq, Value, ValueView};

verus! {

/// What the decoder reads from: the object region (the stream without its
/// tail map), the whole stream (for tail-map entries), and the declared
/// number of shared slots.
pub struct DecCtx {
    pub body: Seq<u8>,
    pub data: Seq<u8>,
    pub count: nat,
}

/// Decoder bookkeeping: which slots have been stored (indexed by slot - 1)
/// and the index of the next tail-map entry to consume.
pub struct DecState {
    pub stored: Seq<bool>,
    pub next: nat,
}

/// Opcodes for which a set SHARED_FLAG stores the object into a tail-map
/// slot. On every other opcode the flag is ignored.
pub open spec fn stores_shared(code: u8) -> bool {
    code == LONG || code == STRINGL || code == BUFFER || code == STREAM || code == LIST0
        || code == DICT || code == TUPLE || code == TUPLE1 || code == TUPLE2 || code == LIST
        || code == LIST1 || code == GLOBAL || code == INSTANCE || code == REDUCE
}

pub open spec fn err_at(at: nat, kind: ErrorKind) -> DecodeError {
    DecodeError { offset: at as usize, kind }
}

/// The slot number in tail-map entry `k` (a little-endian i32).
pub open spec fn map_entry(c: DecCtx, k: nat) -> i32 {
    let start = c.data.len() - c.count * 4 + k * 4;
    spec_u32_from_le_bytes(c.data.subrange(start, start + 4)) as i32
}

/// Whether one of the first `n` tail-map entries names `slot`.
pub open spec fn claimed_before(c: DecCtx, n: nat, slot: i32) -> bool
    decreases n,
{
    if n == 0 {
        false
    } else {
        map_entry(c, (n - 1) as nat) == slot || claimed_before(c, (n - 1) as nat, slot)
    }
}

/// Consume the next tail-map entry for an object at offset `at`: its slot
/// must lie in `1..=count` and be named by no earlier entry.
pub open spec fn reserve(c: DecCtx, st: DecState, at: nat) -> Result<(DecState, usize), DecodeError> {
    if st.next >= c.count {
        Err(err_at(at, ErrorKind::BadRef((st.next + 1) as usize)))
    } else {
        let slot = map_entry(c, st.next);
        if slot < 1 || slot > c.count {
            Err(err_at(at, ErrorKind::BadRef(slot as usize)))
        } else if claimed_before(c, st.next, slot) {
            Err(err_at(at, ErrorKind::DuplicateSharedSlot(slot as usize)))
        } else {
            Ok((DecState { stored: st.stored, next: st.next + 1 }, slot as usize))
        }
    }
}

/// An entry before `n` that names `slot` makes it claimed.
pub proof fn lemma_claimed_before(c: DecCtx, n: nat, j: nat, slot: i32)
    requires
        j < n,
        map_entry(c, j) == slot,
    ensures
        claimed_before(c, n, slot),
    decreases n,
{
    if j < n - 1 {
        lemma_claimed_before(c, (n - 1) as nat, j, slot);
    }
}

/// Which slots are claimed depends on the tail map alone.
pub proof fn lemma_claimed_same_map(c1: DecCtx, c2: DecCtx, n: nat)
    requires
        c1.data == c2.data,
        c1.count == c2.count,
    ensures
        forall|slot: i32| claimed_before(c1, n, slot) == claimed_before(c2, n, slot),
    decreases n,
{
    if n > 0 {
        lemma_claimed_same_map(c1, c2, (n - 1) as nat);
        assert(map_entry(c1, (n - 1) as nat) == map_entry(c2, (n - 1) as nat));
        assert forall|slot: i32| claimed_before(c1, n, slot) == claimed_before(c2, n, slot) by {
            assert(claimed_before(c1, (n - 1) as nat, slot) == claimed_before(c2, (n - 1) as nat, slot));
        }
    }
}

/// One object at `pos`, at nesting depth `depth`: the state after it, the
/// position after it, and its value.
pub open spec fn load(c: DecCtx, st: DecState, pos: nat, depth: nat) -> Result<(DecState, nat, ValueView), DecodeError>
    decreases MAX_DEPTH - depth, 2nat, 0nat,
    when depth <= MAX_DEPTH
{
    match spec_read_u8(c.body, pos) {
        Err(e) => Err(e),
        Ok((p1, raw)) => if depth >= MAX_DEPTH {
            Err(err_at(pos, ErrorKind::Unsupported("object hierarchy too deep")))
        } else {
            let code = raw & !SHARED_FLAG;
            if raw & SHARED_FLAG != 0 && stores_shared(code) {
                match reserve(c, st, pos) {
                    Err(e) => Err(e),
                    Ok((st1, slot)) => match load_op(c, st1, code, p1, pos, depth + 1) {
                        Err(e) => Err(e),
                        Ok((st2, p2, v)) => Ok((
                            DecState { stored: st2.stored.update(slot - 1, true), next: st2.next },
                            p2,
                            ValueView::Shared { slot: slot as u32, value: Box::new(v) },
                        )),
                    },
                }
            } else {
                load_op(c, st, code, p1, pos, depth + 1)
            }
        },
    }
}

/// `n` more objects, appended to `acc`.
pub open spec fn load_seq(c: DecCtx, st: DecState, pos: nat, depth: nat, n: nat, acc: Seq<ValueView>) -> Result<(DecState, nat, Seq<ValueView>), DecodeError>
    decreases MAX_DEPTH + 1 - depth, 0nat, n,
    when 1 <= depth <= MAX_DEPTH
{
    if n == 0 {
        Ok((st, pos, acc))
    } else {
        match load(c, st, pos, depth) {
            Err(e) => Err(e),
            Ok((st1, p1, v)) => load_seq(c, st1, p1, depth, (n - 1) as nat, acc.push(v)),
        }
    }
}

/// `n` more DICT entries (each value first, then key), appended to `acc` as
/// (key, value).
pub open spec fn load_dict(c: DecCtx, st: DecState, pos: nat, depth: nat, n: nat, acc: Seq<(ValueView, ValueView)>) -> Result<(DecState, nat, Seq<(ValueView, ValueView)>), DecodeError>
    decreases MAX_DEPTH + 1 - depth, 0nat, n,
    when 1 <= depth <= MAX_DEPTH
{
    if n == 0 {
        Ok((st, pos, acc))
    } else {
        match load(c, st, pos, depth) {
            Err(e) => Err(e),
            Ok((st1, p1, value)) => match load(c, st1, p1, depth) {
                Err(e) => Err(e),
                Ok((st2, p2, key)) => load_dict(c, st2, p2, depth, (n - 1) as nat, acc.push((key, value))),
            },
        }
    }
}

/// Whether a byte is MARK (with or without SHARED_FLAG).
pub open spec fn is_mark(b: u8) -> bool {
    b & !SHARED_FLAG == MARK
}

/// REDUCE list items up to and including the terminating MARK.
pub open spec fn load_items(c: DecCtx, st: DecState, pos: nat, depth: nat, acc: Seq<ValueView>) -> Result<(DecState, nat, Seq<ValueView>), DecodeError>
    decreases MAX_DEPTH + 1 - depth, 0nat, c.body.len() - pos,
    when 1 <= depth <= MAX_DEPTH && pos <= c.body.len()
{
    match spec_read_u8(c.body, pos) {
        Err(e) => Err(e),
        Ok((p1, b)) => if is_mark(b) {
            Ok((st, p1, acc))
        } else {
            match load(c, st, pos, depth) {
                Err(e) => Err(e),
                Ok((st1, p2, v)) => if pos < p2 <= c.body.len() {
                    load_items(c, st1, p2, depth, acc.push(v))
                } else {
                    Err(eof_at(pos))
                },
            }
        },
    }
}

/// REDUCE (key, value) pairs (key first) up to and including the
/// terminating MARK.
pub open spec fn load_pairs(c: DecCtx, st: DecState, pos: nat, depth: nat, acc: Seq<(ValueView, ValueView)>) -> Result<(DecState, nat, Seq<(ValueView, ValueView)>), DecodeError>
    decreases MAX_DEPTH + 1 - depth, 0nat, c.body.len() - pos,
    when 1 <= depth <= MAX_DEPTH && pos <= c.body.len()
{
    match spec_read_u8(c.body, pos) {
        Err(e) => Err(e),
        Ok((p1, b)) => if is_mark(b) {
            Ok((st, p1, acc))
        } else {
            match load(c, st, pos, depth) {
                Err(e) => Err(e),
                Ok((st1, p2, key)) => match load(c, st1, p2, depth) {
                    Err(e) => Err(e),
                    Ok((st2, p3, value)) => if pos < p3 <= c.body.len() {
                        load_pairs(c, st2, p3, depth, acc.push((key, value)))
                    } else {
                        Err(eof_at(pos))
                    },
                },
            }
        },
    }
}

/// A length-prefixed byte payload at `pos`.
pub open spec fn read_counted(b: Seq<u8>, pos: nat) -> Result<(nat, Seq<u8>), DecodeError> {
    match spec_read_len(b, pos) {
        Err(e) => Err(e),
        Ok((p, n)) => spec_read_bytes(b, p, n as nat),
    }
}

/// A leaf value built from a byte payload.
pub open spec fn leaf_of(st: DecState, r: Result<(nat, Seq<u8>), DecodeError>, f: spec_fn(Seq<u8>) -> ValueView) -> Result<(DecState, nat, ValueView), DecodeError> {
    match r {
        Err(e) => Err(e),
        Ok((p, s)) => Ok((st, p, f(s))),
    }
}

/// UCS-2 text of `units` code units at `pos`.
pub open spec fn load_ucs2(c: DecCtx, st: DecState, pos: nat, at: nat, units: nat) -> Result<(DecState, nat, ValueView), DecodeError> {
    match spec_read_bytes(c.body, pos, units * 2) {
        Err(e) => Err(e),
        Ok((p, bytes)) => match utf16_decode(utf16_from_le_bytes(bytes, units)) {
            Some(s) => Ok((st, p, ValueView::StrUcs2(s))),
            None => Err(err_at(at, ErrorKind::BadUtf8)),
        },
    }
}

/// The payload and children of the object with opcode `code` at offset `at`;
/// the payload starts at `pos` and children decode at depth `depth`.
pub open spec fn load_op(c: DecCtx, st: DecState, code: u8, pos: nat, at: nat, depth: nat) -> Result<(DecState, nat, ValueView), DecodeError>
    decreases MAX_DEPTH + 1 - depth, 1nat, 0nat,
    when 1 <= depth <= MAX_DEPTH
{
    let b = c.body;
    if code == NONE {
        Ok((st, pos, ValueView::Nil))
    } else if code == TRUE {
        Ok((st, pos, ValueView::Bool(true)))
    } else if code == FALSE {
        Ok((st, pos, ValueView::Bool(false)))
    } else if code == MINUSONE {
        Ok((st, pos, ValueView::Int(-1i64)))
    } else if code == ZERO {
        Ok((st, pos, ValueView::Int(0i64)))
    } else if code == ONE {
        Ok((st, pos, ValueView::Int(1i64)))
    } else if code == INT8 {
        match spec_read_u8(b, pos) {
            Err(e) => Err(e),
            Ok((p, x)) => Ok((st, p, ValueView::Int((x as i8) as i64))),
        }
    } else if code == INT16 {
        match spec_read_u16(b, pos) {
            Err(e) => Err(e),
            Ok((p, x)) => Ok((st, p, ValueView::Int((x as i16) as i64))),
        }
    } else if code == INT32 {
        match spec_read_u32(b, pos) {
            Err(e) => Err(e),
            Ok((p, x)) => Ok((st, p, ValueView::Int((x as i32) as i64))),
        }
    } else if code == INT64 {
        match spec_read_u64(b, pos) {
            Err(e) => Err(e),
            Ok((p, x)) => Ok((st, p, ValueView::Int(x as i64))),
        }
    } else if code == FLOAT {
        match spec_read_u64(b, pos) {
            Err(e) => Err(e),
            Ok((p, x)) => Ok((st, p, ValueView::Float(x))),
        }
    } else if code == FLOAT0 {
        Ok((st, pos, ValueView::Float(0u64)))
    } else if code == LONG {
        leaf_of(st, read_counted(b, pos), |s: Seq<u8>| ValueView::Long(s))
    } else if code == STRING0 {
        Ok((st, pos, ValueView::Bytes(Seq::empty())))
    } else if code == STRING1 {
        leaf_of(st, spec_read_bytes(b, pos, 1), |s: Seq<u8>| ValueView::Bytes(s))
    } else if code == STRING {
        match spec_read_u8(b, pos) {
            Err(e) => Err(e),
            Ok((p, n)) => leaf_of(st, spec_read_bytes(b, p, n as nat), |s: Seq<u8>| ValueView::Bytes(s)),
        }
    } else if code == STRINGL || code == BUFFER {
        leaf_of(st, read_counted(b, pos), |s: Seq<u8>| ValueView::Bytes(s))
    } else if code == STRINGR {
        match spec_read_len(b, pos) {
            Err(e) => Err(e),
            Ok((p, idx)) => if idx < 1 || idx >= STRING_TABLE_LEN {
                Err(err_at(at, ErrorKind::BadStringRef(idx)))
            } else {
                Ok((st, p, ValueView::StrTable(idx as u8)))
            },
        }
    } else if code == UNICODE0 {
        Ok((st, pos, ValueView::StrUcs2(Seq::empty())))
    } else if code == UNICODE1 {
        load_ucs2(c, st, pos, at, 1)
    } else if code == UNICODE {
        match spec_read_len(b, pos) {
            Err(e) => Err(e),
            Ok((p, n)) => load_ucs2(c, st, p, at, n as nat),
        }
    } else if code == UTF8 {
        match read_counted(b, pos) {
            Err(e) => Err(e),
            Ok((p, bytes)) => if valid_utf8(bytes) {
                Ok((st, p, ValueView::Str(decode_utf8(bytes))))
            } else {
                Err(err_at(at, ErrorKind::BadUtf8))
            },
        }
    } else if code == TUPLE0 {
        Ok((st, pos, ValueView::Tuple(Seq::empty())))
    } else if code == TUPLE1 {
        match load_seq(c, st, pos, depth, 1, Seq::empty()) {
            Err(e) => Err(e),
            Ok((st1, p, items)) => Ok((st1, p, ValueView::Tuple(items))),
        }
    } else if code == TUPLE2 {
        match load_seq(c, st, pos, depth, 2, Seq::empty()) {
            Err(e) => Err(e),
            Ok((st1, p, items)) => Ok((st1, p, ValueView::Tuple(items))),
        }
    } else if code == TUPLE {
        match spec_read_len(b, pos) {
            Err(e) => Err(e),
            Ok((p0, n)) => match load_seq(c, st, p0, depth, n as nat, Seq::empty()) {
                Err(e) => Err(e),
                Ok((st1, p, items)) => Ok((st1, p, ValueView::Tuple(items))),
            },
        }
    } else if code == LIST0 {
        Ok((st, pos, ValueView::List(Seq::empty())))
    } else if code == LIST1 {
        match load_seq(c, st, pos, depth, 1, Seq::empty()) {
            Err(e) => Err(e),
            Ok((st1, p, items)) => Ok((st1, p, ValueView::List(items))),
        }
    } else if code == LIST {
        match spec_read_len(b, pos) {
            Err(e) => Err(e),
            Ok((p0, n)) => match load_seq(c, st, p0, depth, n as nat, Seq::empty()) {
                Err(e) => Err(e),
                Ok((st1, p, items)) => Ok((st1, p, ValueView::List(items))),
            },
        }
    } else if code == DICT {
        match spec_read_len(b, pos) {
            Err(e) => Err(e),
            Ok((p0, n)) => match load_dict(c, st, p0, depth, n as nat, Seq::empty()) {
                Err(e) => Err(e),
                Ok((st1, p, entries)) => Ok((st1, p, ValueView::Dict(entries))),
            },
        }
    } else if code == REF {
        match spec_read_len(b, pos) {
            Err(e) => Err(e),
            Ok((p, idx)) => if idx < 1 || idx > c.count || !st.stored[idx - 1] {
                Err(err_at(at, ErrorKind::BadRef(idx)))
            } else {
                Ok((st, p, ValueView::Ref(idx as u32)))
            },
        }
    } else if code == STREAM {
        match read_counted(b, pos) {
            Err(e) => Err(e),
            Ok((p, bytes)) => match decode_at(bytes, depth) {
                Err(e) => Err(e),
                Ok(v) => Ok((st, p, ValueView::Stream(Box::new(v)))),
            },
        }
    } else if code == GLOBAL {
        leaf_of(st, read_counted(b, pos), |s: Seq<u8>| ValueView::Global(s))
    } else if code == INSTANCE {
        match load(c, st, pos, depth) {
            Err(e) => Err(e),
            Ok((st1, p1, class)) => match load(c, st1, p1, depth) {
                Err(e) => Err(e),
                Ok((st2, p2, state)) => Ok(
                    (st2, p2, ValueView::Instance { class: Box::new(class), state: Box::new(state) }),
                ),
            },
        }
    } else if code == REDUCE {
        match load(c, st, pos, depth) {
            Err(e) => Err(e),
            Ok((st1, p1, ctor)) => if p1 > b.len() {
                Err(eof_at(pos))
            } else {
                match load_items(c, st1, p1, depth, Seq::empty()) {
                    Err(e) => Err(e),
                    Ok((st2, p2, items)) => if p2 > b.len() {
                        Err(eof_at(pos))
                    } else {
                        match load_pairs(c, st2, p2, depth, Seq::empty()) {
                            Err(e) => Err(e),
                            Ok((st3, p3, pairs)) => Ok(
                                (st3, p3, ValueView::Reduce { ctor: Box::new(ctor), items, pairs }),
                            ),
                        }
                    },
                }
            },
        }
    } else if code == BLUE {
        Err(err_at(at, ErrorKind::Unsupported("BLUE")))
    } else if code == CALLBACK {
        Err(err_at(at, ErrorKind::Unsupported("CALLBACK")))
    } else if code == CHECKSUM {
        Err(err_at(at, ErrorKind::Unsupported("CHECKSUM")))
    } else if code == PICKLER {
        Err(err_at(at, ErrorKind::Unsupported("PICKLER")))
    } else if code == NEWOBJ {
        Err(err_at(at, ErrorKind::Unsupported("NEWOBJ")))
    } else if code == DBROW {
        Err(err_at(at, ErrorKind::Unsupported("DBROW")))
    } else if code == MARK {
        Err(err_at(at, ErrorKind::Unsupported("MARK")))
    } else {
        Err(err_at(at, ErrorKind::UnknownOpcode(code)))
    }
}

/// `n` shared slots, none of them stored yet.
pub open spec fn no_slots(n: nat) -> Seq<bool> {
    Seq::new(n, |i: int| false)
}

/// A complete stream whose root object sits at nesting depth `depth`.
pub open spec fn decode_at(data: Seq<u8>, depth: nat) -> Result<ValueView, DecodeError>
    decreases MAX_DEPTH + 1 - depth, 0nat, 0nat,
    when depth <= MAX_DEPTH
{
    match spec_read_u8(data, 0) {
        Err(e) => Err(e),
        Ok((_, magic)) => if magic != PROTOCOL {
            Err(err_at(0, ErrorKind::BadMagic(magic)))
        } else {
            match spec_read_u32(data, 1) {
                Err(e) => Err(e),
                Ok((_, raw)) => if raw > 0x7FFF_FFFF {
                    Err(err_at(1, ErrorKind::Unsupported("negative shared count")))
                } else {
                    let n = raw as nat;
                    if data.len() < n * 4 || data.len() - n * 4 < 5 {
                        Err(err_at(1, ErrorKind::UnexpectedEof))
                    } else {
                        let c = DecCtx { body: data.subrange(0, data.len() - n * 4), data, count: n };
                        let st = DecState { stored: no_slots(n), next: 0 };
                        match load(c, st, 5, depth) {
                            Err(e) => Err(e),
                            Ok((st2, p, v)) => if p < c.body.len() {
                                Err(err_at(p, ErrorKind::TrailingBytes((c.body.len() - p) as usize)))
                            } else if st2.next != n {
                                Err(err_at(p, ErrorKind::UnconsumedSharedMap { declared: n as usize, stored: st2.next as usize }))
                            } else {
                                Ok(v)
                            },
                        }
                    }
                },
            }
        },
    }
}

/// What a complete stream decodes to.
pub open spec fn spec_decode(data: Seq<u8>) -> Result<ValueView, DecodeError> {
    decode_at(data, 0)
}


// ---------------------------------------------------------------------------
// Trusted conversions from std.
// ---------------------------------------------------------------------------

/// `std::str::from_utf8`: succeeds exactly on valid UTF-8, and the text it
/// returns has exactly the given bytes.
#[verifier::external_body]
fn str_from_utf8(b: &[u8]) -> (r: Option<&str>)
    ensures
        r is Some <==> valid_utf8(b@),
        r matches Some(s) ==> encode_utf8(s@) == b@,
{
    std::str::from_utf8(b).ok()
}

/// `String::from_utf16`: strict decoding, failing on an unpaired surrogate.
#[verifier::external_body]
fn string_from_utf16(units: &[u16]) -> (r: Option<String>)
    ensures
        match utf16_decode(units@) {
            Some(s) => r matches Some(x) && x@ == s,
            None => r is None,
        },
{
    String::from_utf16(units).ok()
}

// ---------------------------------------------------------------------------
// The executable decoder.
// ---------------------------------------------------------------------------

struct Decoder<'a> {
    /// Whether each shared slot (indexed by slot - 1) has been stored.
    shared: Vec<bool>,
    /// Index of the next tail-map entry to consume.
    shared_next: usize,
    /// The full stream, used only to read tail-map slot numbers.
    data: &'a [u8],
}

impl<'a> Decoder<'a> {
    spec fn ctx(&self, r: Reader) -> DecCtx {
        DecCtx { body: r.bytes(), data: self.data@, count: self.shared@.len() }
    }

    spec fn st(&self) -> DecState {
        DecState { stored: self.shared@, next: self.shared_next as nat }
    }

    spec fn inv(&self, r: Reader) -> bool {
        &&& r.wf()
        &&& self.shared_next <= self.shared@.len()
        &&& self.shared@.len() * 4 <= self.data@.len()
    }

    /// `self`/`r` became `new`/`nr` by decoding one object as `spec` says,
    /// with result `res`.
    spec fn decoded(
        &self,
        r: Reader,
        new: Decoder<'a>,
        nr: Reader,
        res: Result<Value, DecodeError>,
        spec: Result<(DecState, nat, ValueView), DecodeError>,
    ) -> bool {
        &&& new.inv(nr)
        &&& nr.bytes() == r.bytes()
        &&& new.data == self.data
        &&& new.shared@.len() == self.shared@.len()
        &&& match spec {
            Ok((st, p, v)) => res matches Ok(x) && x@ == v && new.st() == st && nr.at() == p && p >= r.at(),
            Err(e) => res matches Err(e2) && e2 == e,
        }
    }

    /// Same as `decoded`, for a sequence of objects.
    spec fn decoded_seq(
        &self,
        r: Reader,
        new: Decoder<'a>,
        nr: Reader,
        res: Result<Vec<Value>, DecodeError>,
        spec: Result<(DecState, nat, Seq<ValueView>), DecodeError>,
    ) -> bool {
        &&& new.inv(nr)
        &&& nr.bytes() == r.bytes()
        &&& new.data == self.data
        &&& new.shared@.len() == self.shared@.len()
        &&& match spec {
            Ok((st, p, v)) => res matches Ok(x) && model_seq(x@) == v && new.st() == st && nr.at() == p && p >= r.at(),
            Err(e) => res matches Err(e2) && e2 == e,
        }
    }

    /// Same as `decoded`, for a sequence of pairs.
    spec fn decoded_pairs(
        &self,
        r: Reader,
        new: Decoder<'a>,
        nr: Reader,
        res: Result<Vec<(Value, Value)>, DecodeError>,
        spec: Result<(DecState, nat, Seq<(ValueView, ValueView)>), DecodeError>,
    ) -> bool {
        &&& new.inv(nr)
        &&& nr.bytes() == r.bytes()
        &&& new.data == self.data
        &&& new.shared@.len() == self.shared@.len()
        &&& match spec {
            Ok((st, p, v)) => res matches Ok(x) && model_pairs(x@) == v && new.st() == st && nr.at() == p && p >= r.at(),
            Err(e) => res matches Err(e2) && e2 == e,
        }
    }

    /// Consume the next tail-map entry and return the 1-based slot it names.
    fn reserve_slot(&mut self, at: usize) -> (res: Result<usize, DecodeError>)
        requires
            old(self).shared_next <= old(self).shared@.len(),
            old(self).shared@.len() * 4 <= old(self).data@.len(),
        ensures
            final(self).shared@ == old(self).shared@,
            final(self).data == old(self).data,
            final(self).shared_next <= final(self).shared@.len(),
            ({
                let c = DecCtx { body: Seq::empty(), data: old(self).data@, count: old(self).shared@.len() };
                match reserve(c, old(self).st(), at as nat) {
                    Ok((st, slot)) => res == Ok::<usize, DecodeError>(slot) && final(self).st() == st,
                    Err(e) => res == Err::<usize, DecodeError>(e),
                }
            }),
    {
        let n = self.shared.len();
        let dlen = self.data.len();
        if self.shared_next >= n {
            return Err(DecodeError { offset: at, kind: ErrorKind::BadRef(self.shared_next + 1) });
        }
        let start = dlen - n * 4 + self.shared_next * 4;
        let raw = u32_from_le_bytes(&self.data[start..start + 4]);
        let slot = #[verifier::truncate] (raw as i32);
        let k = self.shared_next;
        self.shared_next = self.shared_next + 1;
        if slot < 1 || slot as usize > n {
            return Err(DecodeError { offset: at, kind: ErrorKind::BadRef(#[verifier::truncate] (slot as usize)) });
        }
        let ghost c = DecCtx { body: Seq::empty(), data: old(self).data@, count: n as nat };
        assert(slot == map_entry(c, k as nat));
        let ss: usize = slot as usize;
        assert(ss as int == slot as int);
        let mut j: usize = 0;
        let mut dup = false;
        while j < k && !dup
            invariant
                j <= k < n,
                n * 4 <= dlen,
                dlen == self.data@.len(),
                self.data@ == c.data,
                c.count == n,
                slot == map_entry(c, k as nat),
                dup ==> claimed_before(c, k as nat, slot),
                !dup ==> !claimed_before(c, j as nat, slot),
            decreases k - j, if dup { 0int } else { 1int },
        {
            let s0 = dlen - n * 4 + j * 4;
            let e = #[verifier::truncate] (u32_from_le_bytes(&self.data[s0..s0 + 4]) as i32);
            assert(e == map_entry(c, j as nat));
            if e == slot {
                proof {
                    lemma_claimed_before(c, k as nat, j as nat, slot);
                }
                dup = true;
            } else {
                j = j + 1;
            }
        }
        if dup {
            return Err(DecodeError { offset: at, kind: ErrorKind::DuplicateSharedSlot(ss) });
        }
        Ok(slot as usize)
    }

    /// One object (its opcode byte, payload and children) at depth `depth`.
    fn load(&mut self, r: &mut Reader<'a>, depth: usize) -> (res: Result<Value, DecodeError>)
        requires
            old(self).inv(*old(r)),
            depth <= MAX_DEPTH,
        ensures
            old(self).decoded(
                *old(r),
                *final(self),
                *final(r),
                res,
                load(old(self).ctx(*old(r)), old(self).st(), old(r).at(), depth as nat),
            ),
            res is Ok ==> final(r).at() > old(r).at(),
        decreases MAX_DEPTH - depth, 3nat, 0nat,
    {
        let raw = r.read_u8()?;
        let opcode_offset = r.pos() - 1;
        if depth >= MAX_DEPTH {
            return Err(
                DecodeError { offset: opcode_offset, kind: ErrorKind::Unsupported("object hierarchy too deep") },
            );
        }
        let shared = raw & SHARED_FLAG != 0;
        let code = raw & !SHARED_FLAG;
        if shared && is_stores_shared(code) {
            proof {
                let c1 = self.ctx(*r);
                let c2 = DecCtx { body: Seq::empty(), data: self.data@, count: self.shared@.len() };
                lemma_claimed_same_map(c1, c2, self.shared_next as nat);
            }
            let slot = self.reserve_slot(opcode_offset)?;
            let value = self.load_op(code, r, opcode_offset, depth + 1)?;
            self.shared.set(slot - 1, true);
            Ok(Value::Shared { slot: slot as u32, value: Box::new(value) })
        } else {
            self.load_op(code, r, opcode_offset, depth + 1)
        }
    }

    /// `n` objects in a row.
    fn load_n(&mut self, r: &mut Reader<'a>, depth: usize, n: usize) -> (res: Result<Vec<Value>, DecodeError>)
        requires
            old(self).inv(*old(r)),
            1 <= depth <= MAX_DEPTH,
        ensures
            old(self).decoded_seq(
                *old(r),
                *final(self),
                *final(r),
                res,
                load_seq(old(self).ctx(*old(r)), old(self).st(), old(r).at(), depth as nat, n as nat, Seq::empty()),
            ),
        decreases MAX_DEPTH + 1 - depth, 0nat, 0nat,
    {
        let ghost c = self.ctx(*r);
        let ghost st0 = self.st();
        let ghost p0 = r.at();
        let mut items: Vec<Value> = Vec::new();
        let mut i: usize = 0;
        assert(model_seq(items@) =~= Seq::<ValueView>::empty());
        while i < n
            invariant
                self.inv(*r),
                r.bytes() == old(r).bytes(),
                self.data == old(self).data,
                self.shared@.len() == old(self).shared@.len(),
                c == self.ctx(*r),
                st0 == old(self).st(),
                p0 == old(r).at(),
                i <= n,
                r.at() >= p0,
                1 <= depth <= MAX_DEPTH,
                load_seq(c, st0, p0, depth as nat, n as nat, Seq::empty()) == load_seq(
                    c,
                    self.st(),
                    r.at(),
                    depth as nat,
                    (n - i) as nat,
                    model_seq(items@),
                ),
            decreases n - i,
        {
            let v = self.load(r, depth)?;
            let ghost prev = items@;
            items.push(v);
            assert(items@.subrange(0, items@.len() - 1) =~= prev);
            i = i + 1;
        }
        Ok(items)
    }

    /// `n` DICT entries, each value first.
    fn load_n_dict(&mut self, r: &mut Reader<'a>, depth: usize, n: usize) -> (res: Result<Vec<(Value, Value)>, DecodeError>)
        requires
            old(self).inv(*old(r)),
            1 <= depth <= MAX_DEPTH,
        ensures
            old(self).decoded_pairs(
                *old(r),
                *final(self),
                *final(r),
                res,
                load_dict(old(self).ctx(*old(r)), old(self).st(), old(r).at(), depth as nat, n as nat, Seq::empty()),
            ),
        decreases MAX_DEPTH + 1 - depth, 0nat, 0nat,
    {
        let ghost c = self.ctx(*r);
        let ghost st0 = self.st();
        let ghost p0 = r.at();
        let mut entries: Vec<(Value, Value)> = Vec::new();
        let mut i: usize = 0;
        assert(model_pairs(entries@) =~= Seq::<(ValueView, ValueView)>::empty());
        while i < n
            invariant
                self.inv(*r),
                r.bytes() == old(r).bytes(),
                self.data == old(self).data,
                self.shared@.len() == old(self).shared@.len(),
                c == self.ctx(*r),
                st0 == old(self).st(),
                p0 == old(r).at(),
                i <= n,
                r.at() >= p0,
                1 <= depth <= MAX_DEPTH,
                load_dict(c, st0, p0, depth as nat, n as nat, Seq::empty()) == load_dict(
                    c,
                    self.st(),
                    r.at(),
                    depth as nat,
                    (n - i) as nat,
                    model_pairs(entries@),
                ),
            decreases n - i,
        {
            let value = self.load(r, depth)?;
            let key = self.load(r, depth)?;
            let ghost prev = entries@;
            entries.push((key, value));
            assert(entries@.subrange(0, entries@.len() - 1) =~= prev);
            i = i + 1;
        }
        Ok(entries)
    }

    /// REDUCE list items up to and including the terminating MARK.
    fn load_marked_items(&mut self, r: &mut Reader<'a>, depth: usize) -> (res: Result<Vec<Value>, DecodeError>)
        requires
            old(self).inv(*old(r)),
            1 <= depth <= MAX_DEPTH,
        ensures
            old(self).decoded_seq(
                *old(r),
                *final(self),
                *final(r),
                res,
                load_items(old(self).ctx(*old(r)), old(self).st(), old(r).at(), depth as nat, Seq::empty()),
            ),
        decreases MAX_DEPTH + 1 - depth, 0nat, 0nat,
    {
        let ghost c = self.ctx(*r);
        let ghost st0 = self.st();
        let ghost p0 = r.at();
        let mut items: Vec<Value> = Vec::new();
        assert(model_seq(items@) =~= Seq::<ValueView>::empty());
        loop
            invariant
                self.inv(*r),
                r.bytes() == old(r).bytes(),
                self.data == old(self).data,
                self.shared@.len() == old(self).shared@.len(),
                c == self.ctx(*r),
                st0 == old(self).st(),
                p0 == old(r).at(),
                r.at() >= p0,
                1 <= depth <= MAX_DEPTH,
                load_items(c, st0, p0, depth as nat, Seq::empty()) == load_items(
                    c,
                    self.st(),
                    r.at(),
                    depth as nat,
                    model_seq(items@),
                ),
            decreases r.bytes().len() - r.at(),
        {
            let next = r.peek_u8()?;
            if next & !SHARED_FLAG == MARK {
                r.read_u8()?;
                return Ok(items);
            }
            let v = self.load(r, depth)?;
            let ghost prev = items@;
            items.push(v);
            assert(items@.subrange(0, items@.len() - 1) =~= prev);
        }
    }

    /// REDUCE (key, value) pairs, key first, up to and including the
    /// terminating MARK.
    fn load_marked_pairs(&mut self, r: &mut Reader<'a>, depth: usize) -> (res: Result<Vec<(Value, Value)>, DecodeError>)
        requires
            old(self).inv(*old(r)),
            1 <= depth <= MAX_DEPTH,
        ensures
            old(self).decoded_pairs(
                *old(r),
                *final(self),
                *final(r),
                res,
                load_pairs(old(self).ctx(*old(r)), old(self).st(), old(r).at(), depth as nat, Seq::empty()),
            ),
        decreases MAX_DEPTH + 1 - depth, 0nat, 0nat,
    {
        let ghost c = self.ctx(*r);
        let ghost st0 = self.st();
        let ghost p0 = r.at();
        let mut pairs: Vec<(Value, Value)> = Vec::new();
        assert(model_pairs(pairs@) =~= Seq::<(ValueView, ValueView)>::empty());
        loop
            invariant
                self.inv(*r),
                r.bytes() == old(r).bytes(),
                self.data == old(self).data,
                self.shared@.len() == old(self).shared@.len(),
                c == self.ctx(*r),
                st0 == old(self).st(),
                p0 == old(r).at(),
                r.at() >= p0,
                1 <= depth <= MAX_DEPTH,
                load_pairs(c, st0, p0, depth as nat, Seq::empty()) == load_pairs(
                    c,
                    self.st(),
                    r.at(),
                    depth as nat,
                    model_pairs(pairs@),
                ),
            decreases r.bytes().len() - r.at(),
        {
            let next = r.peek_u8()?;
            if next & !SHARED_FLAG == MARK {
                r.read_u8()?;
                return Ok(pairs);
            }
            let key = self.load(r, depth)?;
            let value = self.load(r, depth)?;
            let ghost prev = pairs@;
            pairs.push((key, value));
            assert(pairs@.subrange(0, pairs@.len() - 1) =~= prev);
        }
    }

    fn load_scalar(&mut self, code: u8, r: &mut Reader<'a>, at: usize, depth: usize) -> (res: Result<Value, DecodeError>)
        requires
            old(self).inv(*old(r)),
            1 <= depth <= MAX_DEPTH,
            code == NONE || code == TRUE || code == FALSE || code == MINUSONE || code == ZERO
                || code == ONE || code == INT8 || code == INT16 || code == INT32 || code == INT64
                || code == FLOAT || code == FLOAT0,
        ensures
            old(self).decoded(
                *old(r),
                *final(self),
                *final(r),
                res,
                load_op(old(self).ctx(*old(r)), old(self).st(), code, old(r).at(), at as nat, depth as nat),
            ),
    {
        if code == NONE {
            Ok(Value::Nil)
        } else if code == TRUE {
            Ok(Value::Bool(true))
        } else if code == FALSE {
            Ok(Value::Bool(false))
        } else if code == MINUSONE {
            Ok(Value::Int(-1))
        } else if code == ZERO {
            Ok(Value::Int(0))
        } else if code == ONE {
            Ok(Value::Int(1))
        } else if code == INT8 {
            let x = r.read_u8()?;
            Ok(Value::Int((x as i8) as i64))
        } else if code == INT16 {
            let x = r.read_u16()?;
            Ok(Value::Int((x as i16) as i64))
        } else if code == INT32 {
            let x = r.read_u32()?;
            Ok(Value::Int((x as i32) as i64))
        } else if code == INT64 {
            let x = r.read_i64()?;
            Ok(Value::Int(x))
        } else if code == FLOAT {
            let x = r.read_u64()?;
            Ok(Value::Float(x))
        } else {
            Ok(Value::Float(0))
        }
    }

    /// A length-prefixed payload.
    fn read_counted(r: &mut Reader<'a>) -> (res: Result<&'a [u8], DecodeError>)
        requires
            old(r).wf(),
        ensures
            final(r).wf(),
            final(r).bytes() == old(r).bytes(),
            match read_counted(old(r).bytes(), old(r).at()) {
                Ok((p, b)) => res matches Ok(x) && x@ == b && final(r).at() == p && p >= old(r).at(),
                Err(e) => res matches Err(e2) && e2 == e,
            },
    {
        let n = r.read_len()?;
        r.read_bytes(n)
    }

    fn load_bytes(&mut self, code: u8, r: &mut Reader<'a>, at: usize, depth: usize) -> (res: Result<Value, DecodeError>)
        requires
            old(self).inv(*old(r)),
            1 <= depth <= MAX_DEPTH,
            code == LONG || code == STRING0 || code == STRING1 || code == STRING || code == STRINGL
                || code == BUFFER || code == GLOBAL,
        ensures
            old(self).decoded(
                *old(r),
                *final(self),
                *final(r),
                res,
                load_op(old(self).ctx(*old(r)), old(self).st(), code, old(r).at(), at as nat, depth as nat),
            ),
    {
        if code == LONG {
            let b = Self::read_counted(r)?;
            Ok(Value::Long(slice_to_vec(b)))
        } else if code == STRING0 {
            Ok(Value::Bytes(Vec::new()))
        } else if code == STRING1 {
            let b = r.read_bytes(1)?;
            Ok(Value::Bytes(slice_to_vec(b)))
        } else if code == STRING {
            let n = r.read_u8()?;
            let b = r.read_bytes(n as usize)?;
            Ok(Value::Bytes(slice_to_vec(b)))
        } else if code == GLOBAL {
            let b = Self::read_counted(r)?;
            Ok(Value::Global(slice_to_vec(b)))
        } else {
            let b = Self::read_counted(r)?;
            Ok(Value::Bytes(slice_to_vec(b)))
        }
    }

    /// UCS-2 text of `units` code units.
    fn load_ucs2(r: &mut Reader<'a>, at: usize, units: usize) -> (res: Result<Value, DecodeError>)
        requires
            old(r).wf(),
        ensures
            final(r).wf(),
            final(r).bytes() == old(r).bytes(),
            ({
                let c = DecCtx { body: old(r).bytes(), data: Seq::empty(), count: 0 };
                let st = DecState { stored: Seq::empty(), next: 0 };
                match load_ucs2(c, st, old(r).at(), at as nat, units as nat) {
                    Ok((_, p, v)) => res matches Ok(x) && x@ == v && final(r).at() == p && p >= old(r).at(),
                    Err(e) => res matches Err(e2) && e2 == e,
                }
            }),
    {
        if units > r.remaining() / 2 {
            return Err(DecodeError { offset: r.pos(), kind: ErrorKind::UnexpectedEof });
        }
        let bytes = r.read_bytes(units * 2)?;
        let blen = bytes.len();
        let mut u16s: Vec<u16> = Vec::new();
        let mut i: usize = 0;
        while i < units
            invariant
                i <= units,
                blen == bytes@.len(),
                bytes@.len() == units * 2,
                u16s@ == utf16_from_le_bytes(bytes@, i as nat),
            decreases units - i,
        {
            let u = u16_from_le_bytes(&bytes[2 * i..2 * i + 2]);
            u16s.push(u);
            i = i + 1;
        }
        match string_from_utf16(u16s.as_slice()) {
            Some(s) => Ok(Value::StrUcs2(s)),
            None => Err(DecodeError { offset: at, kind: ErrorKind::BadUtf8 }),
        }
    }

    fn load_text(&mut self, code: u8, r: &mut Reader<'a>, at: usize, depth: usize) -> (res: Result<Value, DecodeError>)
        requires
            old(self).inv(*old(r)),
            1 <= depth <= MAX_DEPTH,
            code == STRINGR || code == UNICODE0 || code == UNICODE1 || code == UNICODE || code == UTF8,
        ensures
            old(self).decoded(
                *old(r),
                *final(self),
                *final(r),
                res,
                load_op(old(self).ctx(*old(r)), old(self).st(), code, old(r).at(), at as nat, depth as nat),
            ),
    {
        if code == STRINGR {
            let idx = r.read_len()?;
            if idx < 1 || idx >= STRING_TABLE_LEN {
                return Err(DecodeError { offset: at, kind: ErrorKind::BadStringRef(idx) });
            }
            Ok(Value::StrTable(idx as u8))
        } else if code == UNICODE0 {
            Ok(Value::StrUcs2(String::new()))
        } else if code == UNICODE1 {
            Self::load_ucs2(r, at, 1)
        } else if code == UNICODE {
            let n = r.read_len()?;
            Self::load_ucs2(r, at, n)
        } else {
            let bytes = Self::read_counted(r)?;
            match str_from_utf8(bytes) {
                Some(s) => {
                    proof {
                        encode_utf8_decode_utf8(s@);
                    }
                    Ok(Value::Str(s.to_owned()))
                },
                None => Err(DecodeError { offset: at, kind: ErrorKind::BadUtf8 }),
            }
        }
    }

    fn load_container(&mut self, code: u8, r: &mut Reader<'a>, at: usize, depth: usize) -> (res: Result<Value, DecodeError>)
        requires
            old(self).inv(*old(r)),
            1 <= depth <= MAX_DEPTH,
            code == TUPLE0 || code == TUPLE1 || code == TUPLE2 || code == TUPLE || code == LIST0
                || code == LIST1 || code == LIST || code == DICT,
        ensures
            old(self).decoded(
                *old(r),
                *final(self),
                *final(r),
                res,
                load_op(old(self).ctx(*old(r)), old(self).st(), code, old(r).at(), at as nat, depth as nat),
            ),
        decreases MAX_DEPTH + 1 - depth, 1nat, 0nat,
    {
        assert(model_seq(Seq::<Value>::empty()) =~= Seq::<ValueView>::empty());
        if code == TUPLE0 {
            Ok(Value::Tuple(Vec::new()))
        } else if code == TUPLE1 {
            let items = self.load_n(r, depth, 1)?;
            Ok(Value::Tuple(items))
        } else if code == TUPLE2 {
            let items = self.load_n(r, depth, 2)?;
            Ok(Value::Tuple(items))
        } else if code == TUPLE {
            let n = r.read_len()?;
            let items = self.load_n(r, depth, n)?;
            Ok(Value::Tuple(items))
        } else if code == LIST0 {
            Ok(Value::List(Vec::new()))
        } else if code == LIST1 {
            let items = self.load_n(r, depth, 1)?;
            Ok(Value::List(items))
        } else if code == LIST {
            let n = r.read_len()?;
            let items = self.load_n(r, depth, n)?;
            Ok(Value::List(items))
        } else {
            let n = r.read_len()?;
            let entries = self.load_n_dict(r, depth, n)?;
            Ok(Value::Dict(entries))
        }
    }

    fn load_object(&mut self, code: u8, r: &mut Reader<'a>, at: usize, depth: usize) -> (res: Result<Value, DecodeError>)
        requires
            old(self).inv(*old(r)),
            1 <= depth <= MAX_DEPTH,
            code == REF || code == STREAM || code == INSTANCE || code == REDUCE,
        ensures
            old(self).decoded(
                *old(r),
                *final(self),
                *final(r),
                res,
                load_op(old(self).ctx(*old(r)), old(self).st(), code, old(r).at(), at as nat, depth as nat),
            ),
        decreases MAX_DEPTH + 1 - depth, 1nat, 0nat,
    {
        if code == REF {
            let idx = r.read_len()?;
            if idx < 1 || idx > self.shared.len() || !self.shared[idx - 1] {
                return Err(DecodeError { offset: at, kind: ErrorKind::BadRef(idx) });
            }
            Ok(Value::Ref(idx as u32))
        } else if code == STREAM {
            let bytes = Self::read_counted(r)?;
            let inner = decode_at_depth(bytes, depth)?;
            Ok(Value::Stream(Box::new(inner)))
        } else if code == INSTANCE {
            let class = self.load(r, depth)?;
            let state = self.load(r, depth)?;
            Ok(Value::Instance { class: Box::new(class), state: Box::new(state) })
        } else {
            let ctor = self.load(r, depth)?;
            let items = self.load_marked_items(r, depth)?;
            let pairs = self.load_marked_pairs(r, depth)?;
            Ok(Value::Reduce { ctor: Box::new(ctor), items, pairs })
        }
    }

    /// The payload and children of the object with opcode `code` at offset
    /// `at`; children decode at depth `depth`.
    fn load_op(&mut self, code: u8, r: &mut Reader<'a>, at: usize, depth: usize) -> (res: Result<Value, DecodeError>)
        requires
            old(self).inv(*old(r)),
            1 <= depth <= MAX_DEPTH,
        ensures
            old(self).decoded(
                *old(r),
                *final(self),
                *final(r),
                res,
                load_op(old(self).ctx(*old(r)), old(self).st(), code, old(r).at(), at as nat, depth as nat),
            ),
        decreases MAX_DEPTH + 1 - depth, 2nat, 0nat,
    {
        if code == NONE || code == TRUE || code == FALSE || code == MINUSONE || code == ZERO
            || code == ONE || code == INT8 || code == INT16 || code == INT32 || code == INT64
            || code == FLOAT || code == FLOAT0 {
            self.load_scalar(code, r, at, depth)
        } else if code == LONG || code == STRING0 || code == STRING1 || code == STRING || code == STRINGL
            || code == BUFFER || code == GLOBAL {
            self.load_bytes(code, r, at, depth)
        } else if code == STRINGR || code == UNICODE0 || code == UNICODE1 || code == UNICODE || code == UTF8 {
            self.load_text(code, r, at, depth)
        } else if code == TUPLE0 || code == TUPLE1 || code == TUPLE2 || code == TUPLE || code == LIST0
            || code == LIST1 || code == LIST || code == DICT {
            self.load_container(code, r, at, depth)
        } else if code == REF || code == STREAM || code == INSTANCE || code == REDUCE {
            self.load_object(code, r, at, depth)
        } else if code == BLUE {
            Err(DecodeError { offset: at, kind: ErrorKind::Unsupported("BLUE") })
        } else if code == CALLBACK {
            Err(DecodeError { offset: at, kind: ErrorKind::Unsupported("CALLBACK") })
        } else if code == CHECKSUM {
            Err(DecodeError { offset: at, kind: ErrorKind::Unsupported("CHECKSUM") })
        } else if code == PICKLER {
            Err(DecodeError { offset: at, kind: ErrorKind::Unsupported("PICKLER") })
        } else if code == NEWOBJ {
            Err(DecodeError { offset: at, kind: ErrorKind::Unsupported("NEWOBJ") })
        } else if code == DBROW {
            Err(DecodeError { offset: at, kind: ErrorKind::Unsupported("DBROW") })
        } else if code == MARK {
            Err(DecodeError { offset: at, kind: ErrorKind::Unsupported("MARK") })
        } else {
            Err(DecodeError { offset: at, kind: ErrorKind::UnknownOpcode(code) })
        }
    }
}


fn is_stores_shared(code: u8) -> (r: bool)
    ensures
        r == stores_shared(code),
{
    code == LONG || code == STRINGL || code == BUFFER || code == STREAM || code == LIST0 || code == DICT
        || code == TUPLE || code == TUPLE1 || code == TUPLE2 || code == LIST || code == LIST1
        || code == GLOBAL || code == INSTANCE || code == REDUCE
}

/// Decode a complete stream whose root object sits at nesting depth `depth`.
fn decode_at_depth(data: &[u8], depth: usize) -> (res: Result<Value, DecodeError>)
    requires
        depth <= MAX_DEPTH,
    ensures
        match decode_at(data@, depth as nat) {
            Ok(v) => res matches Ok(x) && x@ == v,
            Err(e) => res matches Err(e2) && e2 == e,
        },
    decreases MAX_DEPTH + 1 - depth, 0nat, 0nat,
{
    let mut header = Reader::new(data);
    let magic = header.read_u8()?;
    if magic != PROTOCOL {
        return Err(DecodeError { offset: 0, kind: ErrorKind::BadMagic(magic) });
    }
    let raw = header.read_u32()?;
    // A header count with its sign bit set is a negative i32.
    if raw > 0x7FFF_FFFF {
        return Err(DecodeError { offset: 1, kind: ErrorKind::Unsupported("negative shared count") });
    }
    let shared_count = raw as usize;
    if shared_count > data.len() / 4 || data.len() - shared_count * 4 < 5 {
        return Err(DecodeError { offset: 1, kind: ErrorKind::UnexpectedEof });
    }
    let map_start = data.len() - shared_count * 4;
    let mut r = Reader::new(&data[0..map_start]);
    r.read_bytes(5)?;
    let mut shared: Vec<bool> = Vec::new();
    let mut i: usize = 0;
    while i < shared_count
        invariant
            i <= shared_count,
            shared@ =~= no_slots(i as nat),
        decreases shared_count - i,
    {
        shared.push(false);
        i = i + 1;
    }
    let mut dec = Decoder { shared, shared_next: 0, data };
    let ghost c = DecCtx {
        body: data@.subrange(0, data@.len() - shared_count * 4),
        data: data@,
        count: shared_count as nat,
    };
    assert(dec.ctx(r) == c);
    assert(dec.st() == DecState { stored: no_slots(shared_count as nat), next: 0 });
    let value = dec.load(&mut r, depth)?;
    if r.remaining() > 0 {
        return Err(DecodeError { offset: r.pos(), kind: ErrorKind::TrailingBytes(r.remaining()) });
    }
    if dec.shared_next != dec.shared.len() {
        return Err(
            DecodeError {
                offset: r.pos(),
                kind: ErrorKind::UnconsumedSharedMap { declared: dec.shared.len(), stored: dec.shared_next },
            },
        );
    }
    Ok(value)
}

/// Decode a complete blue-marshal stream into a [`Value`].
pub fn decode(data: &[u8]) -> (res: Result<Value, DecodeError>)
    ensures
        match spec_decode(data@) {
            Ok(v) => res matches Ok(x) && x@ == v,
            Err(e) => res matches Err(e2) && e2 == e,
        },
{
    decode_at_depth(data, 0)
}

/// A reference resolves only to a store that has completed: `REF idx` gives
/// `Ref(idx)` exactly when `idx` is a declared slot already stored, and
/// otherwise fails with `BadRef(idx)` at the opcode's offset.
pub proof fn lemma_ref_needs_a_completed_store(c: DecCtx, st: DecState, pos: nat, at: nat, depth: nat)
    requires
        spec_read_len(c.body, pos) is Ok,
        1 <= depth <= MAX_DEPTH,
    ensures
        ({
            let (p, idx) = spec_read_len(c.body, pos)->Ok_0;
            load_op(c, st, REF, pos, at, depth) == if 1 <= idx <= c.count && st.stored[idx - 1] {
                Ok::<(DecState, nat, ValueView), DecodeError>((st, p, ValueView::Ref(idx as u32)))
            } else {
                Err(err_at(at, ErrorKind::BadRef(idx)))
            }
        }),
{
}

} // verus!
