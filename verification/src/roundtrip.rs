//! The codec's central law: decoding what the encoder produced gives back the
//! encoded tree, and re-encoding any stream the encoder can produce is
//! byte-identical.

use vstd::bytes::*;
use vstd::prelude::*;
use vstd::utf8::*;

use crate::decode::{
    decode_at, is_mark, load, load_dict, load_items, load_op, load_pairs, load_seq, map_entry, no_slots,
    read_counted, reserve, spec_decode, claimed_before, stores_shared, DecCtx, DecState,
};
use crate::encode::{
    enc_out, enc_st, enc, enc_body, enc_pairs, enc_seq, enc_start, first_bad_slot, len_bytes, map_bytes,
    op_byte, spec_encode, spec_encode_at, storable, with_len, EncState,
};
use crate::error::{DecodeError, EncodeErrorKind};
use crate::opcodes::{
    BUFFER, DICT, FALSE, FLOAT, FLOAT0, GLOBAL, INSTANCE, INT16, INT32, INT64, INT8, LIST, LIST0, LIST1, LONG,
    MARK, MAX_DEPTH, MINUSONE, NONE, ONE, PROTOCOL, REDUCE, REF, SHARED_FLAG, STREAM, STRING0, STRING1,
    STRINGR, TRUE, TUPLE, TUPLE0, TUPLE1, TUPLE2, UNICODE, UNICODE0, UNICODE1, UTF8, ZERO,
};
use crate::reader::{
    spec_read_bytes, spec_read_len, spec_read_u16, spec_read_u32, spec_read_u64, spec_read_u8,
};
use crate::text::{utf16_decode, utf16_encode, utf16_from_le_bytes, utf16_le_bytes, utf16_char};
use crate::value::ValueView;

verus! {

/// `bytes` sit in `data` at `pos`.
pub open spec fn lies_at(data: Seq<u8>, pos: nat, bytes: Seq<u8>) -> bool {
    &&& pos + bytes.len() <= data.len()
    &&& data.subrange(pos as int, (pos + bytes.len()) as int) == bytes
}

proof fn lemma_lies_at_concat(data: Seq<u8>, pos: nat, a: Seq<u8>, b: Seq<u8>)
    requires
        lies_at(data, pos, a + b),
    ensures
        lies_at(data, pos, a),
        lies_at(data, pos + a.len(), b),
{
    let whole = data.subrange(pos as int, (pos + a.len() + b.len()) as int);
    assert(whole == a + b);
    assert(data.subrange(pos as int, (pos + a.len()) as int) =~= whole.subrange(0, a.len() as int));
    assert(whole.subrange(0, a.len() as int) =~= a);
    assert(data.subrange((pos + a.len()) as int, (pos + a.len() + b.len()) as int) =~= whole.subrange(
        a.len() as int,
        (a.len() + b.len()) as int,
    ));
    assert(whole.subrange(a.len() as int, (a.len() + b.len()) as int) =~= b);
}

proof fn lemma_read_bytes_at(data: Seq<u8>, pos: nat, b: Seq<u8>)
    requires
        lies_at(data, pos, b),
    ensures
        spec_read_bytes(data, pos, b.len()) == Ok::<(nat, Seq<u8>), crate::error::DecodeError>(((pos + b.len()) as nat, b)),
{
}

proof fn lemma_read_u8_at(data: Seq<u8>, pos: nat, b: Seq<u8>)
    requires
        lies_at(data, pos, b),
        b.len() >= 1,
    ensures
        spec_read_u8(data, pos) == Ok::<(nat, u8), crate::error::DecodeError>(((pos + 1) as nat, b[0])),
{
    assert(data.subrange(pos as int, (pos + 1) as int)[0] == data.subrange(pos as int, (pos + b.len()) as int)[0]);
}

/// Opcodes never use the SHARED_FLAG bit, so the flag round-trips.
proof fn lemma_op_flag(op: u8)
    requires
        op < 0x40,
    ensures
        (op | 0x40u8) & 0x40u8 != 0,
        (op | 0x40u8) & !0x40u8 == op,
        op & 0x40u8 == 0,
        op & !0x40u8 == op,
{
    assert((op | 0x40u8) & 0x40u8 != 0) by (bit_vector);
    assert(op < 0x40 ==> (op | 0x40u8) & !0x40u8 == op) by (bit_vector);
    assert(op < 0x40 ==> op & 0x40u8 == 0) by (bit_vector);
    assert(op < 0x40 ==> op & !0x40u8 == op) by (bit_vector);
}

proof fn lemma_int_casts(n: i64)
    ensures
        -128 <= n <= 127 ==> ((n as u8) as i8) as i64 == n,
        -32768 <= n <= 32767 ==> ((n as u16) as i16) as i64 == n,
        -2147483648 <= n <= 2147483647 ==> ((n as u32) as i32) as i64 == n,
        (n as u64) as i64 == n,
{
    assert(-128 <= n <= 127 ==> ((n as u8) as i8) as i64 == n) by (bit_vector);
    assert(-32768 <= n <= 32767 ==> ((n as u16) as i16) as i64 == n) by (bit_vector);
    assert(-2147483648 <= n <= 2147483647 ==> ((n as u32) as i32) as i64 == n) by (bit_vector);
    assert((n as u64) as i64 == n) by (bit_vector);
}

/// Reading back a length written by `len_bytes`.
proof fn lemma_read_len_at(data: Seq<u8>, pos: nat, n: nat, l: Seq<u8>)
    requires
        len_bytes(n) == Ok::<Seq<u8>, crate::error::EncodeErrorKind>(l),
        lies_at(data, pos, l),
    ensures
        spec_read_len(data, pos) == Ok::<(nat, usize), crate::error::DecodeError>(((pos + l.len()) as nat, n as usize)),
        n <= i32::MAX,
{
    lemma_read_u8_at(data, pos, l);
    if n >= 255 {
        lemma_auto_spec_u32_to_from_le_bytes();
        let w = spec_u32_to_le_bytes(n as u32);
        assert(l == seq![0xFFu8] + w);
        lemma_lies_at_concat(data, pos, seq![0xFFu8], w);
        lemma_read_bytes_at(data, pos + 1, w);
    }
}


/// A length is written in its shortest form and reads back: one byte below
/// 255, else 0xFF and the length as four little-endian bytes, and refused
/// (`TooLong`) beyond `i32::MAX`; the written bytes, wherever they lie in a
/// stream, read back as that length, the position just after them.
pub proof fn lemma_length_round_trip(data: Seq<u8>, pos: nat, n: nat)
    ensures
        n < 255 ==> len_bytes(n) == Ok::<Seq<u8>, EncodeErrorKind>(seq![n as u8]),
        255 <= n <= i32::MAX ==> (len_bytes(n) is Ok && len_bytes(n)->Ok_0.len() == 5 && len_bytes(n)->Ok_0[0]
            == 0xFFu8),
        n > i32::MAX ==> len_bytes(n) == Err::<Seq<u8>, EncodeErrorKind>(EncodeErrorKind::TooLong(n as usize)),
        (len_bytes(n) is Ok && lies_at(data, pos, len_bytes(n)->Ok_0)) ==> spec_read_len(data, pos) == Ok::<
            (nat, usize),
            DecodeError,
        >(((pos + len_bytes(n)->Ok_0.len()) as nat, n as usize)),
{
    lemma_auto_spec_u32_to_from_le_bytes();
    if let Ok(l) = len_bytes(n) {
        if lies_at(data, pos, l) {
            lemma_read_len_at(data, pos, n, l);
        }
    }
}

/// `a` is a prefix of `b`.
pub open spec fn is_prefix(a: Seq<u32>, b: Seq<u32>) -> bool {
    &&& a.len() <= b.len()
    &&& forall|k: int| 0 <= k < a.len() ==> #[trigger] a[k] == b[k]
}

proof fn lemma_prefix_trans(a: Seq<u32>, b: Seq<u32>, c: Seq<u32>)
    requires
        is_prefix(a, b),
        is_prefix(b, c),
    ensures
        is_prefix(a, c),
{
    assert forall|k: int| 0 <= k < a.len() implies #[trigger] a[k] == c[k] by {
        assert(a[k] == b[k]);
    }
}

// ---------------------------------------------------------------------------
// The encoder only ever appends to the tail map.
// ---------------------------------------------------------------------------

proof fn lemma_enc_grows(v: ValueView, st: EncState, d: nat)
    ensures
        enc(v, st, d) matches Ok((st2, _)) ==> is_prefix(st.map, st2.map),
    decreases v, 1nat,
{
    if d < MAX_DEPTH {
        match v {
            ValueView::Shared { slot, value } => {
                let st1 = EncState { map: st.map.push(slot), stored: st.stored };
                lemma_body_grows(*value, st1, d + 1, true);
                if let Ok((st2, _)) = enc_body(*value, st1, d + 1, true) {
                    lemma_prefix_trans(st.map, st1.map, st2.map);
                }
            },
            _ => {
                lemma_body_grows(v, st, d + 1, false);
            },
        }
    }
}

proof fn lemma_seq_grows(s: Seq<ValueView>, st: EncState, d: nat)
    ensures
        enc_seq(s, st, d) matches Ok((st2, _)) ==> is_prefix(st.map, st2.map),
    decreases s, 0nat,
{
    if s.len() > 0 {
        let init = s.subrange(0, s.len() - 1);
        lemma_seq_grows(init, st, d);
        if let Ok((st1, _)) = enc_seq(init, st, d) {
            lemma_enc_grows(s[s.len() - 1], st1, d);
        }
    }
}

proof fn lemma_pairs_grows(s: Seq<(ValueView, ValueView)>, st: EncState, d: nat, value_first: bool)
    ensures
        enc_pairs(s, st, d, value_first) matches Ok((st2, _)) ==> is_prefix(st.map, st2.map),
    decreases s, 0nat,
{
    if s.len() > 0 {
        let init = s.subrange(0, s.len() - 1);
        lemma_pairs_grows(init, st, d, value_first);
        if let Ok((st1, _)) = enc_pairs(init, st, d, value_first) {
            let (k, v) = s[s.len() - 1];
            let (first, second) = if value_first { (v, k) } else { (k, v) };
            lemma_enc_grows(first, st1, d);
            if let Ok((st2, _)) = enc(first, st1, d) {
                lemma_enc_grows(second, st2, d);
            }
        }
    }
}

proof fn lemma_body_grows(v: ValueView, st: EncState, d: nat, shared: bool)
    ensures
        enc_body(v, st, d, shared) matches Ok((st2, _)) ==> is_prefix(st.map, st2.map),
    decreases v, 0nat,
{
    if !(shared && !storable(v)) {
        match v {
            ValueView::Tuple(items) => lemma_seq_grows(items, st, d),
            ValueView::List(items) => lemma_seq_grows(items, st, d),
            ValueView::Dict(entries) => lemma_pairs_grows(entries, st, d, true),
            ValueView::Instance { class, state } => {
                lemma_enc_grows(*class, st, d);
                if let Ok((st1, _)) = enc(*class, st, d) {
                    lemma_enc_grows(*state, st1, d);
                }
            },
            ValueView::Reduce { ctor, items, pairs } => {
                lemma_enc_grows(*ctor, st, d);
                if let Ok((st1, _)) = enc(*ctor, st, d) {
                    lemma_seq_grows(items, st1, d);
                    if let Ok((st2, _)) = enc_seq(items, st1, d) {
                        lemma_pairs_grows(pairs, st2, d, false);
                    }
                }
            },
            _ => {},
        }
    }
}

// ---------------------------------------------------------------------------
// Sequence encodings, read front to back.
// ---------------------------------------------------------------------------

proof fn lemma_enc_seq_front(s: Seq<ValueView>, st: EncState, d: nat)
    requires
        s.len() > 0,
    ensures
        enc_seq(s, st, d) == match enc(s[0], st, d) {
            Err(e) => Err(e),
            Ok((st1, b1)) => match enc_seq(s.drop_first(), st1, d) {
                Err(e) => Err(e),
                Ok((st2, b2)) => Ok((st2, b1 + b2)),
            },
        },
    decreases s.len(),
{
    let init = s.subrange(0, s.len() - 1);
    if s.len() == 1 {
        assert(init =~= Seq::<ValueView>::empty());
        assert(s.drop_first() =~= Seq::<ValueView>::empty());
        if let Ok((st1, b1)) = enc(s[0], st, d) {
            assert(b1 =~= Seq::<u8>::empty() + b1);
            assert(b1 + Seq::<u8>::empty() =~= b1);
        }
    } else {
        lemma_enc_seq_front(init, st, d);
        let rest = s.drop_first();
        assert(rest.subrange(0, rest.len() - 1) =~= init.drop_first());
        assert(init[0] == s[0]);
        assert(rest[rest.len() - 1] == s[s.len() - 1]);
        if let Ok((st1, b1)) = enc(s[0], st, d) {
            if let Ok((st2, b2)) = enc_seq(init.drop_first(), st1, d) {
                if let Ok((st3, b3)) = enc(s[s.len() - 1], st2, d) {
                    assert(b1 + b2 + b3 =~= b1 + (b2 + b3));
                }
            }
        }
    }
}

proof fn lemma_enc_pairs_front(s: Seq<(ValueView, ValueView)>, st: EncState, d: nat, value_first: bool)
    requires
        s.len() > 0,
    ensures
        enc_pairs(s, st, d, value_first) == match enc_pairs(s.subrange(0, 1), st, d, value_first) {
            Err(e) => Err(e),
            Ok((st1, b1)) => match enc_pairs(s.drop_first(), st1, d, value_first) {
                Err(e) => Err(e),
                Ok((st2, b2)) => Ok((st2, b1 + b2)),
            },
        },
    decreases s.len(),
{
    let init = s.subrange(0, s.len() - 1);
    let one = s.subrange(0, 1);
    assert(one.subrange(0, 0) =~= Seq::<(ValueView, ValueView)>::empty());
    if s.len() == 1 {
        assert(one =~= s);
        assert(s.drop_first() =~= Seq::<(ValueView, ValueView)>::empty());
        if let Ok((st1, b1)) = enc_pairs(one, st, d, value_first) {
            assert(b1 + Seq::<u8>::empty() =~= b1);
        }
    } else {
        lemma_enc_pairs_front(init, st, d, value_first);
        let rest = s.drop_first();
        assert(rest.subrange(0, rest.len() - 1) =~= init.drop_first());
        assert(init.subrange(0, 1) =~= one);
        assert(rest[rest.len() - 1] == s[s.len() - 1]);
        if let Ok((st1, b1)) = enc_pairs(one, st, d, value_first) {
            if let Ok((st2, b2)) = enc_pairs(init.drop_first(), st1, d, value_first) {
                let (k, v) = s[s.len() - 1];
                let (first, second) = if value_first { (v, k) } else { (k, v) };
                if let Ok((st3, b3)) = enc(first, st2, d) {
                    if let Ok((st4, b4)) = enc(second, st3, d) {
                        assert(b1 + b2 + b3 + b4 =~= b1 + (b2 + b3 + b4));
                    }
                }
            }
        }
    }
}

// ---------------------------------------------------------------------------
// Tail map and text helpers.
// ---------------------------------------------------------------------------

proof fn lemma_map_bytes(m: Seq<u32>)
    ensures
        map_bytes(m).len() == 4 * m.len(),
        forall|k: int|
            0 <= k < m.len() ==> #[trigger] map_bytes(m).subrange(4 * k, 4 * k + 4)
                == spec_u32_to_le_bytes(m[k]),
    decreases m.len(),
{
    lemma_auto_spec_u32_to_from_le_bytes();
    if m.len() > 0 {
        let init = m.subrange(0, m.len() - 1);
        lemma_map_bytes(init);
        let a = map_bytes(init);
        let w = spec_u32_to_le_bytes(m[m.len() - 1]);
        assert forall|k: int| 0 <= k < m.len() implies #[trigger] map_bytes(m).subrange(4 * k, 4 * k + 4)
            == spec_u32_to_le_bytes(m[k]) by {
            if k < m.len() - 1 {
                assert(map_bytes(m).subrange(4 * k, 4 * k + 4) =~= a.subrange(4 * k, 4 * k + 4));
                assert(init[k] == m[k]);
            } else {
                assert(map_bytes(m).subrange(4 * k, 4 * k + 4) =~= w);
            }
        }
    }
}

proof fn lemma_first_bad_slot(m: Seq<u32>, count: nat)
    requires
        first_bad_slot(m, count) is None,
    ensures
        forall|k: int| 0 <= k < m.len() ==> 1 <= #[trigger] m[k] <= count,
    decreases m.len(),
{
    if m.len() > 0 {
        lemma_first_bad_slot(m.drop_first(), count);
        assert forall|k: int| 0 <= k < m.len() implies 1 <= #[trigger] m[k] <= count by {
            if k > 0 {
                assert(m[k] == m.drop_first()[k - 1]);
            }
        }
    }
}

proof fn lemma_utf16_le(u: Seq<u16>)
    ensures
        utf16_le_bytes(u).len() == 2 * u.len(),
        utf16_from_le_bytes(utf16_le_bytes(u), u.len()) == u,
    decreases u.len(),
{
    lemma_auto_spec_u16_to_from_le_bytes();
    if u.len() > 0 {
        let init = u.subrange(0, u.len() - 1);
        lemma_utf16_le(init);
        let a = utf16_le_bytes(init);
        let b = utf16_le_bytes(u);
        assert(b.subrange(0, a.len() as int) =~= a);
        lemma_utf16_from_prefix(a, b, init.len());
        assert(b.subrange(2 * (u.len() - 1), 2 * u.len() as int) =~= spec_u16_to_le_bytes(u[u.len() - 1]));
        assert(utf16_from_le_bytes(b, u.len()) =~= init.push(u[u.len() - 1]));
        assert(init.push(u[u.len() - 1]) =~= u);
    }
}

/// Reading code units only looks at the bytes it reads.
proof fn lemma_utf16_from_prefix(a: Seq<u8>, b: Seq<u8>, n: nat)
    requires
        2 * n <= a.len() <= b.len(),
        a == b.subrange(0, a.len() as int),
    ensures
        utf16_from_le_bytes(a, n) == utf16_from_le_bytes(b, n),
    decreases n,
{
    if n > 0 {
        lemma_utf16_from_prefix(a, b, (n - 1) as nat);
        assert(a.subrange(2 * (n - 1), 2 * n as int) =~= b.subrange(2 * (n - 1), 2 * n as int));
    }
}

proof fn lemma_utf16_roundtrip(s: Seq<char>)
    ensures
        utf16_decode(utf16_encode(s)) == Some(s),
        utf16_encode(s).len() == 0 <==> s.len() == 0,
        utf16_encode(s).len() >= s.len(),
    decreases s.len(),
{
    if s.len() > 0 {
        let c = s[0];
        let rest = s.drop_first();
        lemma_utf16_roundtrip(rest);
        let v = c as u32;
        char_is_scalar(c);
        let u = utf16_encode(s);
        let h = utf16_char(c);
        assert(u == h + utf16_encode(rest));
        if v < 0x10000 {
            assert(u.drop_first() =~= utf16_encode(rest));
            assert((u[0] as u32) == v);
            char_u32_cast(c, v);
            assert(seq![c] + rest =~= s);
        } else {
            let x = (v - 0x10000) as int;
            assert(0 <= x < 0x100000);
            let hi = (0xD800 + x / 0x400) as u16;
            let lo = (0xDC00 + x % 0x400) as u16;
            assert(u[0] == hi && u[1] == lo);
            assert(u.subrange(2, u.len() as int) =~= utf16_encode(rest));
            assert(0x10000 + (hi - 0xD800) * 0x400 + (lo - 0xDC00) == v);
            let w = (0x10000 + (u[0] - 0xD800) * 0x400 + (u[1] - 0xDC00)) as u32;
            assert(w == v);
            char_u32_cast(c, v);
            assert(seq![c] + rest =~= s);
        }
    }
}


// ---------------------------------------------------------------------------
// The decoder's state, as the encoder's state predicts it.
// ---------------------------------------------------------------------------

/// Whether the decoder has stored slot `s`.
pub open spec fn stored_at(dst: DecState, s: int) -> bool {
    dst.stored[s - 1]
}

/// The stream's tail map is `fmap`, and every slot in it is in range.
pub open spec fn map_ok(c: DecCtx, fmap: Seq<u32>) -> bool {
    &&& fmap.len() == c.count
    &&& c.count <= i32::MAX
    &&& forall|k: int| 0 <= k < fmap.len() ==> 1 <= #[trigger] fmap[k] <= c.count
    &&& forall|k: nat| k < c.count ==> #[trigger] map_entry(c, k) as int == fmap[k as int] as int
    &&& names_once(fmap)
}

/// No slot appears twice in `fmap`.
#[verifier::opaque]
pub open spec fn names_once(fmap: Seq<u32>) -> bool {
    forall|i: int, j: int| 0 <= i < j < fmap.len() ==> fmap[i] != fmap[j]
}

/// No entry before `k` names the slot entry `k` names.
proof fn lemma_not_claimed(c: DecCtx, fmap: Seq<u32>, n: nat, k: nat)
    requires
        map_ok(c, fmap),
        n <= k < fmap.len(),
    ensures
        !claimed_before(c, n, map_entry(c, k)),
    decreases n,
{
    if n > 0 {
        lemma_not_claimed(c, fmap, (n - 1) as nat, k);
        assert(map_entry(c, (n - 1) as nat) as int == fmap[n - 1] as int);
        assert(map_entry(c, k) as int == fmap[k as int] as int);
        reveal(names_once);
        assert(fmap[n - 1] != fmap[k as int]);
    }
}

/// The decoder state `dst` is the one the encoder state `est` predicts.
pub open spec fn corr(est: EncState, dst: DecState, c: DecCtx, fmap: Seq<u32>) -> bool {
    &&& map_ok(c, fmap)
    &&& dst.next == est.map.len()
    &&& is_prefix(est.map, fmap)
    &&& dst.stored.len() == c.count
    &&& forall|s: int| 1 <= s <= c.count ==> (#[trigger] stored_at(dst, s) <==> est.stored.contains(s as u32))
    &&& forall|s: u32| #[trigger] est.stored.contains(s) ==> 1 <= s <= c.count
}

/// The opcode the encoder picks for a node.
pub open spec fn opcode_of(v: ValueView) -> u8 {
    match v {
        ValueView::Nil => NONE,
        ValueView::Bool(b) => if b { TRUE } else { FALSE },
        ValueView::Int(n) => if n == -1 {
            MINUSONE
        } else if n == 0 {
            ZERO
        } else if n == 1 {
            ONE
        } else if -128 <= n <= 127 {
            INT8
        } else if -32768 <= n <= 32767 {
            INT16
        } else if i32::MIN <= n <= i32::MAX {
            INT32
        } else {
            INT64
        },
        ValueView::Long(_) => LONG,
        ValueView::Float(f) => if f == 0 { FLOAT0 } else { FLOAT },
        ValueView::Bytes(b) => if b.len() == 0 {
            STRING0
        } else if b.len() == 1 {
            STRING1
        } else {
            BUFFER
        },
        ValueView::Str(_) => UTF8,
        ValueView::StrUcs2(s) => if utf16_encode(s).len() == 0 {
            UNICODE0
        } else if utf16_encode(s).len() == 1 {
            UNICODE1
        } else {
            UNICODE
        },
        ValueView::StrTable(_) => STRINGR,
        ValueView::Tuple(items) => if items.len() == 0 {
            TUPLE0
        } else if items.len() == 1 {
            TUPLE1
        } else if items.len() == 2 {
            TUPLE2
        } else {
            TUPLE
        },
        ValueView::List(items) => if items.len() == 0 {
            LIST0
        } else if items.len() == 1 {
            LIST1
        } else {
            LIST
        },
        ValueView::Dict(_) => DICT,
        ValueView::Stream(_) => STREAM,
        ValueView::Global(_) => GLOBAL,
        ValueView::Instance { .. } => INSTANCE,
        ValueView::Reduce { .. } => REDUCE,
        ValueView::Ref(_) => REF,
        ValueView::Shared { .. } => NONE,
    }
}

/// What a body lemma needs: the step succeeded, the states agree, the final
/// map is a prefix of the stream's, and the bytes sit at `pos`.
spec fn body_pre(
    r: Result<(EncState, Seq<u8>), EncodeErrorKind>,
    est: EncState,
    c: DecCtx,
    dst: DecState,
    fmap: Seq<u32>,
    pos: nat,
) -> bool {
    &&& r is Ok
    &&& corr(est, dst, c, fmap)
    &&& is_prefix(enc_st(r).map, fmap)
    &&& lies_at(c.body, pos, enc_out(r))
}

/// What a body lemma shows: the opcode byte, and the decoder reading the
/// node back after it.
spec fn body_post(
    v: ValueView,
    r: Result<(EncState, Seq<u8>), EncodeErrorKind>,
    shared: bool,
    c: DecCtx,
    dst: DecState,
    fmap: Seq<u32>,
    pos: nat,
    d: nat,
) -> bool {
    let out = enc_out(r);
    &&& opcode_of(v) < 0x40
    &&& opcode_of(v) != MARK
    &&& shared ==> stores_shared(opcode_of(v))
    &&& out.len() > 0
    &&& out[0] == op_byte(opcode_of(v), shared)
    &&& load_op(c, dst, opcode_of(v), pos + 1, pos, d) matches Ok((dst2, p, w)) && p == pos
        + out.len() && w == v && corr(enc_st(r), dst2, c, fmap)
}

/// Nodes without payload bytes of their own: none, bools, ints, floats.
proof fn lemma_body_num(v: ValueView, est: EncState, d: nat, shared: bool, c: DecCtx, dst: DecState, fmap: Seq<u32>, pos: nat)
    requires
        1 <= d <= MAX_DEPTH,
        v is Nil || v is Bool || v is Int || v is Float,
        body_pre(enc_body(v, est, d, shared), est, c, dst, fmap, pos),
    ensures
        body_post(v, enc_body(v, est, d, shared), shared, c, dst, fmap, pos, d),
{
    let out = enc_out(enc_body(v, est, d, shared));
    assert(!shared);
    lemma_auto_spec_u16_to_from_le_bytes();
    lemma_auto_spec_u32_to_from_le_bytes();
    lemma_auto_spec_u64_to_from_le_bytes();
    let tail = out.subrange(1, out.len() as int);
    assert(out =~= seq![out[0]] + tail);
    lemma_lies_at_concat(c.body, pos, seq![out[0]], tail);
    match v {
        ValueView::Int(n) => {
            lemma_int_casts(n);
            if opcode_of(v) == INT8 {
                assert(tail =~= seq![n as u8]);
                lemma_read_u8_at(c.body, pos + 1, tail);
            } else if opcode_of(v) == INT16 {
                assert(tail =~= spec_u16_to_le_bytes(n as u16));
                lemma_read_bytes_at(c.body, pos + 1, tail);
                assert(spec_read_u16(c.body, pos + 1) == Ok::<(nat, u16), DecodeError>((pos + 3, n as u16)));
            } else if opcode_of(v) == INT32 {
                assert(tail =~= spec_u32_to_le_bytes(n as u32));
                lemma_read_bytes_at(c.body, pos + 1, tail);
                assert(spec_read_u32(c.body, pos + 1) == Ok::<(nat, u32), DecodeError>((pos + 5, n as u32)));
            } else if opcode_of(v) == INT64 {
                assert(tail =~= spec_u64_to_le_bytes(n as u64));
                lemma_read_bytes_at(c.body, pos + 1, tail);
                assert(spec_read_u64(c.body, pos + 1) == Ok::<(nat, u64), DecodeError>((pos + 9, n as u64)));
            }
        },
        ValueView::Float(f) => {
            if f != 0 {
                assert(tail =~= spec_u64_to_le_bytes(f));
                lemma_read_bytes_at(c.body, pos + 1, tail);
                assert(spec_read_u64(c.body, pos + 1) == Ok::<(nat, u64), DecodeError>((pos + 9, f)));
            }
        },
        _ => {},
    }
}


/// Reading back `op`, then a length, then `tail`.
proof fn lemma_with_len_at(data: Seq<u8>, pos: nat, op: u8, n: nat, tail: Seq<u8>)
    requires
        with_len(seq![op], n, tail) is Ok,
        lies_at(data, pos, with_len(seq![op], n, tail)->Ok_0),
    ensures
        with_len(seq![op], n, tail)->Ok_0.len() > 0,
        with_len(seq![op], n, tail)->Ok_0[0] == op,
        n <= i32::MAX,
        spec_read_len(data, pos + 1) matches Ok((p, m)) && m as nat == n && lies_at(data, p, tail)
            && p + tail.len() == pos + with_len(seq![op], n, tail)->Ok_0.len(),
        n == tail.len() ==> read_counted(data, pos + 1) == Ok::<(nat, Seq<u8>), DecodeError>(
            ((pos + with_len(seq![op], n, tail)->Ok_0.len()) as nat, tail),
        ),
{
    let l = len_bytes(n)->Ok_0;
    let out = with_len(seq![op], n, tail)->Ok_0;
    assert(out =~= seq![op] + (l + tail));
    lemma_lies_at_concat(data, pos, seq![op], l + tail);
    lemma_lies_at_concat(data, pos + 1, l, tail);
    lemma_read_len_at(data, pos + 1, n, l);
    if n == tail.len() {
        lemma_read_bytes_at(data, pos + 1 + l.len(), tail);
    }
}

/// Length-prefixed and short byte payloads, string-table indices and refs.
proof fn lemma_body_blob(v: ValueView, est: EncState, d: nat, shared: bool, c: DecCtx, dst: DecState, fmap: Seq<u32>, pos: nat)
    requires
        1 <= d <= MAX_DEPTH,
        v is Long || v is Bytes || v is Global || v is StrTable || v is Ref,
        body_pre(enc_body(v, est, d, shared), est, c, dst, fmap, pos),
    ensures
        body_post(v, enc_body(v, est, d, shared), shared, c, dst, fmap, pos, d),
{
    let out = enc_out(enc_body(v, est, d, shared));
    lemma_op_flag(opcode_of(v));
    match v {
        ValueView::Long(b) => {
            lemma_with_len_at(c.body, pos, op_byte(LONG, shared), b.len(), b);
        },
        ValueView::Global(b) => {
            lemma_with_len_at(c.body, pos, op_byte(GLOBAL, shared), b.len(), b);
        },
        ValueView::Bytes(b) => {
            if b.len() == 1 {
                assert(out =~= seq![STRING1] + b);
                lemma_lies_at_concat(c.body, pos, seq![STRING1], b);
                lemma_read_bytes_at(c.body, pos + 1, b);
            } else if b.len() >= 2 {
                lemma_with_len_at(c.body, pos, op_byte(BUFFER, shared), b.len(), b);
            } else {
                assert(b =~= Seq::<u8>::empty());
            }
        },
        ValueView::StrTable(i) => {
            lemma_with_len_at(c.body, pos, STRINGR, i as nat, Seq::empty());
        },
        ValueView::Ref(slot) => {
            lemma_with_len_at(c.body, pos, REF, slot as nat, Seq::empty());
            assert(stored_at(dst, slot as int));
        },
        _ => {},
    }
}

/// UTF-8 and UTF-16 text.
proof fn lemma_body_text(v: ValueView, est: EncState, d: nat, shared: bool, c: DecCtx, dst: DecState, fmap: Seq<u32>, pos: nat)
    requires
        1 <= d <= MAX_DEPTH,
        v is Str || v is StrUcs2,
        body_pre(enc_body(v, est, d, shared), est, c, dst, fmap, pos),
    ensures
        body_post(v, enc_body(v, est, d, shared), shared, c, dst, fmap, pos, d),
{
    let out = enc_out(enc_body(v, est, d, shared));
    assert(!shared);
    match v {
        ValueView::Str(t) => {
            let b = encode_utf8(t);
            lemma_with_len_at(c.body, pos, UTF8, b.len(), b);
            encode_utf8_valid_utf8(t);
            encode_utf8_decode_utf8(t);
        },
        ValueView::StrUcs2(t) => {
            let u = utf16_encode(t);
            lemma_utf16_roundtrip(t);
            lemma_utf16_le(u);
            let b = utf16_le_bytes(u);
            if u.len() == 0 {
                assert(t =~= Seq::<char>::empty());
            } else if u.len() == 1 {
                assert(out =~= seq![UNICODE1] + b);
                lemma_lies_at_concat(c.body, pos, seq![UNICODE1], b);
                lemma_read_bytes_at(c.body, pos + 1, b);
            } else {
                lemma_with_len_at(c.body, pos, UNICODE, u.len(), b);
                let (p, m) = spec_read_len(c.body, pos + 1)->Ok_0;
                lemma_read_bytes_at(c.body, p, b);
            }
        },
        _ => {},
    }
}


// ---------------------------------------------------------------------------
// The decoder reads back what the encoder wrote.
// ---------------------------------------------------------------------------

/// One node, with its SHARED_FLAG and tail-map slot.
#[verifier::spinoff_prover]
#[verifier::rlimit(60)]
proof fn lemma_load_enc(v: ValueView, est: EncState, d: nat, c: DecCtx, dst: DecState, fmap: Seq<u32>, pos: nat)
    requires
        body_pre(enc(v, est, d), est, c, dst, fmap, pos),
    ensures
        enc_out(enc(v, est, d)).len() > 0,
        !is_mark(enc_out(enc(v, est, d))[0]),
        load(c, dst, pos, d) matches Ok((dst2, p, w)) && p == pos + enc_out(enc(v, est, d)).len()
            && w == v && corr(enc_st(enc(v, est, d)), dst2, c, fmap),
    decreases v, 2nat,
{
    let r = enc(v, est, d);
    let out = enc_out(r);
    match v {
        ValueView::Shared { slot, value } => {
            let st1 = EncState { map: est.map.push(slot), stored: est.stored };
            let rb = enc_body(*value, st1, d + 1, true);
            let st2 = enc_st(rb);
            assert(out == enc_out(rb));
            lemma_body_grows(*value, st1, d + 1, true);
            lemma_prefix_trans(st1.map, st2.map, fmap);
            let k = est.map.len();
            assert(st1.map[k as int] == slot);
            assert(fmap[k as int] == slot);
            let dst1 = DecState { stored: dst.stored, next: dst.next + 1 };
            assert(corr(st1, dst1, c, fmap)) by {
                assert forall|s: int| 1 <= s <= c.count implies (#[trigger] stored_at(dst1, s)
                    <==> st1.stored.contains(s as u32)) by {
                    assert(stored_at(dst, s) == stored_at(dst1, s));
                }
            }
            lemma_load_body(*value, st1, d + 1, true, c, dst1, fmap, pos);
            lemma_read_u8_at(c.body, pos, out);
            lemma_op_flag(opcode_of(*value));
            assert(map_entry(c, k) as int == slot as int);
            lemma_not_claimed(c, fmap, k, k);
            assert(reserve(c, dst, pos) == Ok::<(DecState, usize), DecodeError>((dst1, slot as usize)));
            let (dst2, p, w) = load_op(c, dst1, opcode_of(*value), pos + 1, pos, d + 1)->Ok_0;
            let dst3 = DecState { stored: dst2.stored.update(slot - 1, true), next: dst2.next };
            let st3 = enc_st(r);
            assert(st3 == EncState { map: st2.map, stored: st2.stored.insert(slot) });
            assert forall|s: int| 1 <= s <= c.count implies (#[trigger] stored_at(dst3, s)
                <==> st3.stored.contains(s as u32)) by {
                if s != slot {
                    assert(stored_at(dst2, s) == stored_at(dst3, s));
                }
            }
            assert(corr(st3, dst3, c, fmap));
        },
        _ => {
            lemma_load_body(v, est, d + 1, false, c, dst, fmap, pos);
            lemma_read_u8_at(c.body, pos, out);
            lemma_op_flag(opcode_of(v));
        },
    }
}

/// One node's opcode, payload and children.
proof fn lemma_load_body(v: ValueView, est: EncState, d: nat, shared: bool, c: DecCtx, dst: DecState, fmap: Seq<u32>, pos: nat)
    requires
        1 <= d <= MAX_DEPTH,
        body_pre(enc_body(v, est, d, shared), est, c, dst, fmap, pos),
    ensures
        body_post(v, enc_body(v, est, d, shared), shared, c, dst, fmap, pos, d),
    decreases v, 1nat,
{
    match v {
        ValueView::Nil | ValueView::Bool(_) | ValueView::Int(_) | ValueView::Float(_) => {
            lemma_body_num(v, est, d, shared, c, dst, fmap, pos);
        },
        ValueView::Long(_) | ValueView::Bytes(_) | ValueView::Global(_) | ValueView::StrTable(_)
        | ValueView::Ref(_) => {
            lemma_body_blob(v, est, d, shared, c, dst, fmap, pos);
        },
        ValueView::Str(_) | ValueView::StrUcs2(_) => {
            lemma_body_text(v, est, d, shared, c, dst, fmap, pos);
        },
        ValueView::Tuple(_) | ValueView::List(_) => {
            lemma_body_seq(v, est, d, shared, c, dst, fmap, pos);
        },
        ValueView::Dict(_) => {
            lemma_body_dict(v, est, d, shared, c, dst, fmap, pos);
        },
        ValueView::Stream(_) => {
            lemma_body_stream(v, est, d, shared, c, dst, fmap, pos);
        },
        ValueView::Instance { .. } => {
            lemma_body_instance(v, est, d, shared, c, dst, fmap, pos);
        },
        ValueView::Reduce { .. } => {
            lemma_body_reduce(v, est, d, shared, c, dst, fmap, pos);
        },
        ValueView::Shared { .. } => {},
    }
}

/// Tuples and lists.
proof fn lemma_body_seq(v: ValueView, est: EncState, d: nat, shared: bool, c: DecCtx, dst: DecState, fmap: Seq<u32>, pos: nat)
    requires
        1 <= d <= MAX_DEPTH,
        v is Tuple || v is List,
        body_pre(enc_body(v, est, d, shared), est, c, dst, fmap, pos),
    ensures
        body_post(v, enc_body(v, est, d, shared), shared, c, dst, fmap, pos, d),
    decreases v, 0nat,
{
    let out = enc_out(enc_body(v, est, d, shared));
    let items = match v {
        ValueView::Tuple(i) => i,
        ValueView::List(i) => i,
        _ => Seq::empty(),
    };
    let op = opcode_of(v);
    let ob = op_byte(op, shared);
    lemma_op_flag(op);
    let bs = enc_out(enc_seq(items, est, d));
    let n = items.len();
    if n == 0 || n == 1 || (n == 2 && v is Tuple) {
        assert(out =~= seq![ob] + bs);
        lemma_lies_at_concat(c.body, pos, seq![ob], bs);
        if n > 0 {
            lemma_load_seq(items, est, d, c, dst, fmap, pos + 1, Seq::empty());
            assert(Seq::<ValueView>::empty() + items =~= items);
        } else {
            assert(items =~= Seq::<ValueView>::empty());
        }
    } else {
        assert(out =~= with_len(seq![ob], n, bs)->Ok_0);
        lemma_with_len_at(c.body, pos, ob, n, bs);
        let (p, m) = spec_read_len(c.body, pos + 1)->Ok_0;
        lemma_load_seq(items, est, d, c, dst, fmap, p, Seq::empty());
        assert(Seq::<ValueView>::empty() + items =~= items);
    }
}

/// Dicts.
proof fn lemma_body_dict(v: ValueView, est: EncState, d: nat, shared: bool, c: DecCtx, dst: DecState, fmap: Seq<u32>, pos: nat)
    requires
        1 <= d <= MAX_DEPTH,
        v is Dict,
        body_pre(enc_body(v, est, d, shared), est, c, dst, fmap, pos),
    ensures
        body_post(v, enc_body(v, est, d, shared), shared, c, dst, fmap, pos, d),
    decreases v, 0nat,
{
    let out = enc_out(enc_body(v, est, d, shared));
    let entries = v->Dict_0;
    let ob = op_byte(DICT, shared);
    lemma_op_flag(DICT);
    let bp = enc_out(enc_pairs(entries, est, d, true));
    assert(out =~= with_len(seq![ob], entries.len(), bp)->Ok_0);
    lemma_with_len_at(c.body, pos, ob, entries.len(), bp);
    let (p, m) = spec_read_len(c.body, pos + 1)->Ok_0;
    lemma_load_dict(entries, est, d, c, dst, fmap, p, Seq::empty());
    assert(Seq::<(ValueView, ValueView)>::empty() + entries =~= entries);
}

/// Nested streams.
proof fn lemma_body_stream(v: ValueView, est: EncState, d: nat, shared: bool, c: DecCtx, dst: DecState, fmap: Seq<u32>, pos: nat)
    requires
        1 <= d <= MAX_DEPTH,
        v is Stream,
        body_pre(enc_body(v, est, d, shared), est, c, dst, fmap, pos),
    ensures
        body_post(v, enc_body(v, est, d, shared), shared, c, dst, fmap, pos, d),
    decreases v, 0nat,
{
    let inner = v->Stream_0;
    let bytes = spec_encode_at(*inner, d)->Ok_0;
    let ob = op_byte(STREAM, shared);
    lemma_op_flag(STREAM);
    lemma_with_len_at(c.body, pos, ob, bytes.len(), bytes);
    lemma_decode_encode_at(*inner, d);
}

/// Instances: class, then state.
proof fn lemma_body_instance(v: ValueView, est: EncState, d: nat, shared: bool, c: DecCtx, dst: DecState, fmap: Seq<u32>, pos: nat)
    requires
        1 <= d <= MAX_DEPTH,
        v is Instance,
        body_pre(enc_body(v, est, d, shared), est, c, dst, fmap, pos),
    ensures
        body_post(v, enc_body(v, est, d, shared), shared, c, dst, fmap, pos, d),
    decreases v, 0nat,
{
    let out = enc_out(enc_body(v, est, d, shared));
    let class = v->class;
    let state = v->state;
    let ob = op_byte(INSTANCE, shared);
    lemma_op_flag(INSTANCE);
    let (st1, b1) = enc(*class, est, d)->Ok_0;
    let (st2, b2) = enc(*state, st1, d)->Ok_0;
    lemma_enc_grows(*state, st1, d);
    lemma_prefix_trans(st1.map, st2.map, fmap);
    assert(out =~= seq![ob] + (b1 + b2));
    lemma_lies_at_concat(c.body, pos, seq![ob], b1 + b2);
    lemma_lies_at_concat(c.body, pos + 1, b1, b2);
    lemma_load_enc(*class, est, d, c, dst, fmap, pos + 1);
    let (dst1, p1, w1) = load(c, dst, pos + 1, d)->Ok_0;
    lemma_load_enc(*state, st1, d, c, dst1, fmap, p1);
}

/// Reduces: ctor, MARK-terminated items, MARK-terminated pairs.
#[verifier::spinoff_prover]
#[verifier::rlimit(60)]
proof fn lemma_body_reduce(v: ValueView, est: EncState, d: nat, shared: bool, c: DecCtx, dst: DecState, fmap: Seq<u32>, pos: nat)
    requires
        1 <= d <= MAX_DEPTH,
        v is Reduce,
        body_pre(enc_body(v, est, d, shared), est, c, dst, fmap, pos),
    ensures
        body_post(v, enc_body(v, est, d, shared), shared, c, dst, fmap, pos, d),
    decreases v, 0nat,
{
    let out = enc_out(enc_body(v, est, d, shared));
    let ctor = v->ctor;
    let items = v->items;
    let pairs = v->pairs;
    let ob = op_byte(REDUCE, shared);
    lemma_op_flag(REDUCE);
    let (st1, b1) = enc(*ctor, est, d)->Ok_0;
    let (st2, b2) = enc_seq(items, st1, d)->Ok_0;
    let (st3, b3) = enc_pairs(pairs, st2, d, false)->Ok_0;
    lemma_seq_grows(items, st1, d);
    lemma_pairs_grows(pairs, st2, d, false);
    lemma_prefix_trans(st2.map, st3.map, fmap);
    lemma_prefix_trans(st1.map, st2.map, fmap);
    let m = seq![MARK];
    assert(out =~= seq![ob] + (b1 + ((b2 + m) + (b3 + m))));
    lemma_lies_at_concat(c.body, pos, seq![ob], b1 + ((b2 + m) + (b3 + m)));
    lemma_lies_at_concat(c.body, pos + 1, b1, (b2 + m) + (b3 + m));
    lemma_lies_at_concat(c.body, pos + 1 + b1.len(), b2 + m, b3 + m);
    lemma_load_enc(*ctor, est, d, c, dst, fmap, pos + 1);
    let (dst1, p1, w1) = load(c, dst, pos + 1, d)->Ok_0;
    lemma_load_items(items, st1, d, c, dst1, fmap, p1, Seq::empty());
    let (dst2, p2, w2) = load_items(c, dst1, p1, d, Seq::empty())->Ok_0;
    lemma_load_rpairs(pairs, st2, d, c, dst2, fmap, p2, Seq::empty());
    assert(Seq::<ValueView>::empty() + items =~= items);
    assert(Seq::<(ValueView, ValueView)>::empty() + pairs =~= pairs);
}

/// `s`, in order, appended to `acc`.
#[verifier::spinoff_prover]
#[verifier::rlimit(60)]
proof fn lemma_load_seq(s: Seq<ValueView>, est: EncState, d: nat, c: DecCtx, dst: DecState, fmap: Seq<u32>, pos: nat, acc: Seq<ValueView>)
    requires
        1 <= d <= MAX_DEPTH,
        body_pre(enc_seq(s, est, d), est, c, dst, fmap, pos),
    ensures
        load_seq(c, dst, pos, d, s.len(), acc) matches Ok((dst2, p, r)) && p == pos + enc_out(
            enc_seq(s, est, d),
        ).len() && r == acc + s && corr(enc_st(enc_seq(s, est, d)), dst2, c, fmap),
    decreases s, 0nat,
{
    if s.len() == 0 {
        assert(acc + s =~= acc);
    } else {
        lemma_enc_seq_front(s, est, d);
        let rest = s.subrange(1, s.len() as int);
        assert(rest =~= s.drop_first());
        let (st1, b1) = enc(s[0], est, d)->Ok_0;
        let (st2, b2) = enc_seq(rest, st1, d)->Ok_0;
        lemma_seq_grows(rest, st1, d);
        lemma_prefix_trans(st1.map, st2.map, fmap);
        lemma_lies_at_concat(c.body, pos, b1, b2);
        lemma_load_enc(s[0], est, d, c, dst, fmap, pos);
        let (dst1, p1, w) = load(c, dst, pos, d)->Ok_0;
        lemma_load_seq(rest, st1, d, c, dst1, fmap, p1, acc.push(s[0]));
        assert(acc.push(s[0]) + rest =~= acc + s);
    }
}

/// DICT entries (each value first), appended to `acc`.
#[verifier::spinoff_prover]
#[verifier::rlimit(60)]
proof fn lemma_load_dict(s: Seq<(ValueView, ValueView)>, est: EncState, d: nat, c: DecCtx, dst: DecState, fmap: Seq<u32>, pos: nat, acc: Seq<(ValueView, ValueView)>)
    requires
        1 <= d <= MAX_DEPTH,
        body_pre(enc_pairs(s, est, d, true), est, c, dst, fmap, pos),
    ensures
        load_dict(c, dst, pos, d, s.len(), acc) matches Ok((dst2, p, r)) && p == pos + enc_out(
            enc_pairs(s, est, d, true),
        ).len() && r == acc + s && corr(enc_st(enc_pairs(s, est, d, true)), dst2, c, fmap),
    decreases s, 0nat,
{
    if s.len() == 0 {
        assert(acc + s =~= acc);
    } else {
        lemma_enc_pairs_front(s, est, d, true);
        let one = s.subrange(0, 1);
        let rest = s.subrange(1, s.len() as int);
        assert(rest =~= s.drop_first());
        assert(one.subrange(0, 0) =~= Seq::<(ValueView, ValueView)>::empty());
        assert(one[0] == s[0]);
        let (k, v) = s[0];
        let (st1, bv) = enc(v, est, d)->Ok_0;
        let (st2, bk) = enc(k, st1, d)->Ok_0;
        let (st3, br) = enc_pairs(rest, st2, d, true)->Ok_0;
        assert(one.len() == 1);
        assert(one[one.len() - 1] == s[0]);
        assert(enc_pairs(one.subrange(0, 0), est, d, true) == Ok::<(EncState, Seq<u8>), EncodeErrorKind>((est, Seq::<u8>::empty())));
        assert(enc_pairs(one, est, d, true) == Ok::<(EncState, Seq<u8>), EncodeErrorKind>((st2, Seq::<u8>::empty() + bv + bk)));
        lemma_enc_grows(k, st1, d);
        lemma_pairs_grows(rest, st2, d, true);
        lemma_prefix_trans(st2.map, st3.map, fmap);
        lemma_prefix_trans(st1.map, st2.map, fmap);
        assert(enc_out(enc_pairs(s, est, d, true)) =~= bv + (bk + br));
        lemma_lies_at_concat(c.body, pos, bv, bk + br);
        lemma_lies_at_concat(c.body, pos + bv.len(), bk, br);
        lemma_load_enc(v, est, d, c, dst, fmap, pos);
        let (dst1, p1, w1) = load(c, dst, pos, d)->Ok_0;
        lemma_load_enc(k, st1, d, c, dst1, fmap, p1);
        let (dst2, p2, w2) = load(c, dst1, p1, d)->Ok_0;
        lemma_load_dict(rest, st2, d, c, dst2, fmap, p2, acc.push((k, v)));
        assert(acc.push((k, v)) + rest =~= acc + s);
    }
}

/// REDUCE list items, then MARK.
#[verifier::spinoff_prover]
#[verifier::rlimit(60)]
proof fn lemma_load_items(s: Seq<ValueView>, est: EncState, d: nat, c: DecCtx, dst: DecState, fmap: Seq<u32>, pos: nat, acc: Seq<ValueView>)
    requires
        1 <= d <= MAX_DEPTH,
        enc_seq(s, est, d) is Ok,
        corr(est, dst, c, fmap),
        is_prefix(enc_st(enc_seq(s, est, d)).map, fmap),
        lies_at(c.body, pos, enc_out(enc_seq(s, est, d)) + seq![MARK]),
    ensures
        load_items(c, dst, pos, d, acc) matches Ok((dst2, p, r)) && p == pos + enc_out(
            enc_seq(s, est, d),
        ).len() + 1 && r == acc + s && corr(enc_st(enc_seq(s, est, d)), dst2, c, fmap),
    decreases s, 0nat,
{
    lemma_op_flag(MARK);
    if s.len() == 0 {
        assert(acc + s =~= acc);
        assert(enc_out(enc_seq(s, est, d)) + seq![MARK] =~= seq![MARK]);
        lemma_read_u8_at(c.body, pos, seq![MARK]);
    } else {
        lemma_enc_seq_front(s, est, d);
        let rest = s.subrange(1, s.len() as int);
        assert(rest =~= s.drop_first());
        let (st1, b1) = enc(s[0], est, d)->Ok_0;
        let (st2, b2) = enc_seq(rest, st1, d)->Ok_0;
        lemma_seq_grows(rest, st1, d);
        lemma_prefix_trans(st1.map, st2.map, fmap);
        assert(enc_out(enc_seq(s, est, d)) + seq![MARK] =~= b1 + (b2 + seq![MARK]));
        lemma_lies_at_concat(c.body, pos, b1, b2 + seq![MARK]);
        lemma_load_enc(s[0], est, d, c, dst, fmap, pos);
        lemma_read_u8_at(c.body, pos, b1);
        let (dst1, p1, w) = load(c, dst, pos, d)->Ok_0;
        lemma_load_items(rest, st1, d, c, dst1, fmap, p1, acc.push(s[0]));
        assert(acc.push(s[0]) + rest =~= acc + s);
    }
}

/// REDUCE (key, value) pairs (key first), then MARK.
#[verifier::spinoff_prover]
#[verifier::rlimit(60)]
proof fn lemma_load_rpairs(s: Seq<(ValueView, ValueView)>, est: EncState, d: nat, c: DecCtx, dst: DecState, fmap: Seq<u32>, pos: nat, acc: Seq<(ValueView, ValueView)>)
    requires
        1 <= d <= MAX_DEPTH,
        enc_pairs(s, est, d, false) is Ok,
        corr(est, dst, c, fmap),
        is_prefix(enc_st(enc_pairs(s, est, d, false)).map, fmap),
        lies_at(c.body, pos, enc_out(enc_pairs(s, est, d, false)) + seq![MARK]),
    ensures
        load_pairs(c, dst, pos, d, acc) matches Ok((dst2, p, r)) && p == pos + enc_out(
            enc_pairs(s, est, d, false),
        ).len() + 1 && r == acc + s && corr(enc_st(enc_pairs(s, est, d, false)), dst2, c, fmap),
    decreases s, 0nat,
{
    lemma_op_flag(MARK);
    if s.len() == 0 {
        assert(acc + s =~= acc);
        assert(enc_out(enc_pairs(s, est, d, false)) + seq![MARK] =~= seq![MARK]);
        lemma_read_u8_at(c.body, pos, seq![MARK]);
    } else {
        lemma_enc_pairs_front(s, est, d, false);
        let one = s.subrange(0, 1);
        let rest = s.subrange(1, s.len() as int);
        assert(rest =~= s.drop_first());
        assert(one.subrange(0, 0) =~= Seq::<(ValueView, ValueView)>::empty());
        assert(one[0] == s[0]);
        let (k, v) = s[0];
        let (st1, bk) = enc(k, est, d)->Ok_0;
        let (st2, bv) = enc(v, st1, d)->Ok_0;
        let (st3, br) = enc_pairs(rest, st2, d, false)->Ok_0;
        assert(one.len() == 1);
        assert(one[one.len() - 1] == s[0]);
        assert(enc_pairs(one.subrange(0, 0), est, d, false) == Ok::<(EncState, Seq<u8>), EncodeErrorKind>((est, Seq::<u8>::empty())));
        assert(enc_pairs(one, est, d, false) == Ok::<(EncState, Seq<u8>), EncodeErrorKind>((st2, Seq::<u8>::empty() + bk + bv)));
        lemma_enc_grows(v, st1, d);
        lemma_pairs_grows(rest, st2, d, false);
        lemma_prefix_trans(st2.map, st3.map, fmap);
        lemma_prefix_trans(st1.map, st2.map, fmap);
        assert(enc_out(enc_pairs(s, est, d, false)) + seq![MARK] =~= bk + (bv + (br + seq![MARK])));
        lemma_lies_at_concat(c.body, pos, bk, bv + (br + seq![MARK]));
        lemma_lies_at_concat(c.body, pos + bk.len(), bv, br + seq![MARK]);
        lemma_load_enc(k, est, d, c, dst, fmap, pos);
        lemma_read_u8_at(c.body, pos, bk);
        let (dst1, p1, w1) = load(c, dst, pos, d)->Ok_0;
        lemma_load_enc(v, st1, d, c, dst1, fmap, p1);
        let (dst2, p2, w2) = load(c, dst1, p1, d)->Ok_0;
        lemma_load_rpairs(rest, st2, d, c, dst2, fmap, p2, acc.push((k, v)));
        assert(acc.push((k, v)) + rest =~= acc + s);
    }
}

/// A whole stream decodes to the tree it was encoded from.
#[verifier::spinoff_prover]
#[verifier::rlimit(60)]
proof fn lemma_decode_encode_at(root: ValueView, depth: nat)
    requires
        spec_encode_at(root, depth) is Ok,
    ensures
        decode_at(spec_encode_at(root, depth)->Ok_0, depth) == Ok::<ValueView, DecodeError>(root),
    decreases root, 3nat,
{
    let r = enc(root, enc_start(), depth);
    let (st, body) = r->Ok_0;
    let m = st.map;
    let n = m.len();
    lemma_first_bad_slot(m, n);
    lemma_map_bytes(m);
    lemma_auto_spec_u32_to_from_le_bytes();
    let cw = spec_u32_to_le_bytes(n as u32);
    let mb = map_bytes(m);
    let data = seq![PROTOCOL] + cw + body + mb;
    assert(data == spec_encode_at(root, depth)->Ok_0);
    assert(data.subrange(0, 1) =~= seq![PROTOCOL]);
    assert(data.subrange(1, 5) =~= cw);
    let c = DecCtx { body: data.subrange(0, data.len() - n * 4), data, count: n };
    assert(c.body =~= seq![PROTOCOL] + cw + body);
    assert forall|k: nat| k < n implies #[trigger] map_entry(c, k) as int == m[k as int] as int by {
        let start = data.len() - n * 4 + k * 4;
        let ki = k as int;
        assert(data.subrange(start, start + 4) =~= mb.subrange(4 * ki, 4 * ki + 4));
        assert(mb.subrange(4 * ki, 4 * ki + 4) == spec_u32_to_le_bytes(m[ki]));
        assert(1 <= m[k as int] <= n);
    }
    crate::encode::lemma_repeat_from(m, 0);
    assert(names_once(m)) by {
        reveal(names_once);
    }
    let dst0 = DecState { stored: no_slots(n), next: 0 };
    assert(corr(enc_start(), dst0, c, m));
    assert(c.body.subrange(5, 5 + body.len() as int) =~= body);
    lemma_load_enc(root, enc_start(), depth, c, dst0, m, 5);
}

/// Decoding a stream the encoder produced gives back the encoded tree.
pub proof fn lemma_decode_encode(v: ValueView)
    requires
        spec_encode(v) is Ok,
    ensures
        spec_decode(spec_encode(v)->Ok_0) == Ok::<ValueView, DecodeError>(v),
{
    lemma_decode_encode_at(v, 0);
}

/// Re-encoding what an encoder-produced stream decodes to reproduces the
/// stream byte for byte.
pub proof fn lemma_reencode_identical(w: ValueView, bytes: Seq<u8>)
    requires
        spec_encode(w) == Ok::<Seq<u8>, crate::error::EncodeError>(bytes),
    ensures
        spec_decode(bytes) matches Ok(v) && spec_encode(v) == Ok::<Seq<u8>, crate::error::EncodeError>(bytes),
{
    lemma_decode_encode(w);
}

} // verus!
