//! What the codec does with integers, stated by arithmetic on the bytes:
//! each integer opcode reads its little-endian two's-complement payload, and
//! the encoder writes every integer in the narrowest form.

use vstd::bytes::*;
use vstd::prelude::*;

use crate::decode::spec_decode;
use crate::encode::spec_encode;
use crate::opcodes::{FALSE, FLOAT, FLOAT0, INT16, INT32, INT64, INT8, MINUSONE, NONE, ONE, PROTOCOL, STRING1, TRUE, ZERO};
use crate::value::ValueView;

verus! {

/// The start of a stream with no shared objects: the magic and a zero
/// shared count.
pub open spec fn plain_header() -> Seq<u8> {
    seq![PROTOCOL] + spec_u32_to_le_bytes(0u32)
}

/// The two's-complement value of an unsigned `bits`-bit pattern `x`.
pub open spec fn signed_of(x: int, bits: nat) -> int {
    if x < vstd::arithmetic::power2::pow2((bits - 1) as nat) {
        x
    } else {
        x - vstd::arithmetic::power2::pow2(bits)
    }
}

/// The unsigned `bits`-bit pattern that holds the integer `n` in two's
/// complement.
pub open spec fn pattern_of(n: int, bits: nat) -> int {
    if n >= 0 {
        n
    } else {
        n + vstd::arithmetic::power2::pow2(bits)
    }
}

proof fn lemma_pows()
    ensures
        vstd::arithmetic::power2::pow2(7) == 0x80,
        vstd::arithmetic::power2::pow2(8) == 0x100,
        vstd::arithmetic::power2::pow2(15) == 0x8000,
        vstd::arithmetic::power2::pow2(16) == 0x10000,
        vstd::arithmetic::power2::pow2(31) == 0x8000_0000,
        vstd::arithmetic::power2::pow2(32) == 0x1_0000_0000,
        vstd::arithmetic::power2::pow2(63) == 0x8000_0000_0000_0000,
        vstd::arithmetic::power2::pow2(64) == 0x1_0000_0000_0000_0000,
{
    vstd::arithmetic::power2::lemma2_to64();
    vstd::arithmetic::power2::lemma2_to64_rest();
}

proof fn lemma_header()
    ensures
        plain_header().len() == 5,
        plain_header()[0] == PROTOCOL,
        spec_u32_from_le_bytes(plain_header().subrange(1, 5)) == 0u32,
{
    lemma_auto_spec_u32_to_from_le_bytes();
    assert(plain_header().subrange(1, 5) =~= spec_u32_to_le_bytes(0u32));
}

/// Decoding a stream whose one object is an integer opcode with its payload
/// gives the payload's little-endian two's-complement value: one byte for
/// INT8, two for INT16, four for INT32 and eight for INT64.
pub proof fn lemma_decode_int(b: u8, h: u16, w: u32, q: u64)
    ensures
        spec_decode(plain_header() + seq![INT8, b]) == Ok::<ValueView, crate::error::DecodeError>(
            ValueView::Int(signed_of(b as int, 8) as i64),
        ),
        spec_decode(plain_header() + seq![INT16] + spec_u16_to_le_bytes(h)) == Ok::<
            ValueView,
            crate::error::DecodeError,
        >(ValueView::Int(signed_of(h as int, 16) as i64)),
        spec_decode(plain_header() + seq![INT32] + spec_u32_to_le_bytes(w)) == Ok::<
            ValueView,
            crate::error::DecodeError,
        >(ValueView::Int(signed_of(w as int, 32) as i64)),
        spec_decode(plain_header() + seq![INT64] + spec_u64_to_le_bytes(q)) == Ok::<
            ValueView,
            crate::error::DecodeError,
        >(ValueView::Int(signed_of(q as int, 64) as i64)),
{
    lemma_pows();
    lemma_header();
    lemma_auto_spec_u16_to_from_le_bytes();
    lemma_auto_spec_u32_to_from_le_bytes();
    lemma_auto_spec_u64_to_from_le_bytes();
    assert((b as i8) as int == if (b as int) < 0x80 { b as int } else { b as int - 0x100 }) by (bit_vector);
    assert((h as i16) as int == if (h as int) < 0x8000 { h as int } else { h as int - 0x10000 }) by (bit_vector);
    assert((w as i32) as int == if (w as int) < 0x8000_0000 { w as int } else { w as int - 0x1_0000_0000 })
        by (bit_vector);
    assert((q as i64) as int == if (q as int) < 0x8000_0000_0000_0000 {
        q as int
    } else {
        q as int - 0x1_0000_0000_0000_0000
    }) by (bit_vector);
    assert(INT8 & !crate::opcodes::SHARED_FLAG == INT8 && INT8 & crate::opcodes::SHARED_FLAG == 0) by (bit_vector);
    assert(INT16 & !crate::opcodes::SHARED_FLAG == INT16 && INT16 & crate::opcodes::SHARED_FLAG == 0)
        by (bit_vector);
    assert(INT32 & !crate::opcodes::SHARED_FLAG == INT32 && INT32 & crate::opcodes::SHARED_FLAG == 0)
        by (bit_vector);
    assert(INT64 & !crate::opcodes::SHARED_FLAG == INT64 && INT64 & crate::opcodes::SHARED_FLAG == 0)
        by (bit_vector);
    let d8 = plain_header() + seq![INT8, b];
    assert(d8.subrange(1, 5) =~= plain_header().subrange(1, 5));
    assert(d8.subrange(0, d8.len() as int) =~= d8);
    assert(d8.subrange(5, 6)[0] == INT8);
    assert(d8.subrange(6, 7)[0] == b);
    let d16 = plain_header() + seq![INT16] + spec_u16_to_le_bytes(h);
    assert(d16.subrange(1, 5) =~= plain_header().subrange(1, 5));
    assert(d16.subrange(0, d16.len() as int) =~= d16);
    assert(d16.subrange(5, 6)[0] == INT16);
    assert(d16.subrange(6, 8) =~= spec_u16_to_le_bytes(h));
    let d32 = plain_header() + seq![INT32] + spec_u32_to_le_bytes(w);
    assert(d32.subrange(1, 5) =~= plain_header().subrange(1, 5));
    assert(d32.subrange(0, d32.len() as int) =~= d32);
    assert(d32.subrange(5, 6)[0] == INT32);
    assert(d32.subrange(6, 10) =~= spec_u32_to_le_bytes(w));
    let d64 = plain_header() + seq![INT64] + spec_u64_to_le_bytes(q);
    assert(d64.subrange(1, 5) =~= plain_header().subrange(1, 5));
    assert(d64.subrange(0, d64.len() as int) =~= d64);
    assert(d64.subrange(5, 6)[0] == INT64);
    assert(d64.subrange(6, 14) =~= spec_u64_to_le_bytes(q));
}

/// The bytes an integer is written as: -1, 0 and 1 by their one-byte
/// opcodes, and otherwise the narrowest of INT8, INT16, INT32 and INT64 that
/// holds it, followed by its two's-complement pattern, little-endian.
pub open spec fn narrowest_int(n: int) -> Seq<u8> {
    if n == -1 {
        seq![MINUSONE]
    } else if n == 0 {
        seq![ZERO]
    } else if n == 1 {
        seq![ONE]
    } else if -0x80 <= n < 0x80 {
        seq![INT8, pattern_of(n, 8) as u8]
    } else if -0x8000 <= n < 0x8000 {
        seq![INT16] + spec_u16_to_le_bytes(pattern_of(n, 16) as u16)
    } else if -0x8000_0000 <= n < 0x8000_0000 {
        seq![INT32] + spec_u32_to_le_bytes(pattern_of(n, 32) as u32)
    } else {
        seq![INT64] + spec_u64_to_le_bytes(pattern_of(n, 64) as u64)
    }
}

/// Every integer is encoded in the narrowest form: a stream of one integer
/// is the header and [`narrowest_int`] of it; in particular each value in
/// `-32768..=32767` outside `-128..=127` takes three bytes.
pub proof fn lemma_encode_int_narrowest(n: i64)
    ensures
        spec_encode(ValueView::Int(n)) == Ok::<Seq<u8>, crate::error::EncodeError>(
            plain_header() + narrowest_int(n as int),
        ),
        (-0x8000 <= n < 0x8000 && !(-0x80 <= n < 0x80)) ==> narrowest_int(n as int).len() == 3,
{
    lemma_pows();
    lemma_auto_spec_u16_to_from_le_bytes();
    lemma_auto_spec_u32_to_from_le_bytes();
    lemma_auto_spec_u64_to_from_le_bytes();
    assert(-0x80 <= n < 0x80 ==> n as u8 == (if n >= 0 { n as int } else { n + 0x100 }) as u8) by (bit_vector);
    assert(-0x8000 <= n < 0x8000 ==> n as u16 == (if n >= 0 { n as int } else { n + 0x10000 }) as u16)
        by (bit_vector);
    assert(-0x8000_0000 <= n < 0x8000_0000 ==> n as u32 == (if n >= 0 {
        n as int
    } else {
        n + 0x1_0000_0000
    }) as u32) by (bit_vector);
    assert(n as u64 == (if n >= 0 { n as int } else { n + 0x1_0000_0000_0000_0000 }) as u64) by (bit_vector);
    assert(crate::encode::map_bytes(Seq::<u32>::empty()) =~= Seq::<u8>::empty());
    let body = crate::encode::int_bytes(n);
    assert(plain_header() + body + Seq::<u8>::empty() =~= plain_header() + narrowest_int(n as int));
}

/// The one-object streams of the other plain scalars, read and written the
/// same way: `None` is the NONE opcode, a boolean is TRUE or FALSE, a float
/// is FLOAT0 when its bits are zero and otherwise FLOAT with its eight bits
/// little-endian, and a one-byte string is STRING1 with that byte.
pub proof fn lemma_scalar_layouts(flag: bool, f: u64, x: u8)
    ensures
        spec_encode(ValueView::Nil) == Ok::<Seq<u8>, crate::error::EncodeError>(plain_header() + seq![NONE]),
        spec_decode(plain_header() + seq![NONE]) == Ok::<ValueView, crate::error::DecodeError>(ValueView::Nil),
        spec_encode(ValueView::Bool(flag)) == Ok::<Seq<u8>, crate::error::EncodeError>(
            plain_header() + seq![if flag { TRUE } else { FALSE }],
        ),
        spec_decode(plain_header() + seq![TRUE]) == Ok::<ValueView, crate::error::DecodeError>(ValueView::Bool(true)),
        spec_decode(plain_header() + seq![FALSE]) == Ok::<ValueView, crate::error::DecodeError>(
            ValueView::Bool(false),
        ),
        f != 0 ==> spec_encode(ValueView::Float(f)) == Ok::<Seq<u8>, crate::error::EncodeError>(
            plain_header() + seq![FLOAT] + spec_u64_to_le_bytes(f),
        ),
        spec_encode(ValueView::Float(0)) == Ok::<Seq<u8>, crate::error::EncodeError>(plain_header() + seq![FLOAT0]),
        spec_decode(plain_header() + seq![FLOAT] + spec_u64_to_le_bytes(f)) == Ok::<
            ValueView,
            crate::error::DecodeError,
        >(ValueView::Float(f)),
        spec_decode(plain_header() + seq![FLOAT0]) == Ok::<ValueView, crate::error::DecodeError>(
            ValueView::Float(0),
        ),
        spec_encode(ValueView::Bytes(seq![x])) == Ok::<Seq<u8>, crate::error::EncodeError>(
            plain_header() + seq![STRING1, x],
        ),
        spec_decode(plain_header() + seq![STRING1, x]) == Ok::<ValueView, crate::error::DecodeError>(
            ValueView::Bytes(seq![x]),
        ),
{
    lemma_header();
    lemma_auto_spec_u64_to_from_le_bytes();
    assert(crate::encode::map_bytes(Seq::<u32>::empty()) =~= Seq::<u8>::empty());
    assert(NONE & !crate::opcodes::SHARED_FLAG == NONE && NONE & crate::opcodes::SHARED_FLAG == 0) by (bit_vector);
    assert(TRUE & !crate::opcodes::SHARED_FLAG == TRUE && TRUE & crate::opcodes::SHARED_FLAG == 0) by (bit_vector);
    assert(FALSE & !crate::opcodes::SHARED_FLAG == FALSE && FALSE & crate::opcodes::SHARED_FLAG == 0) by (bit_vector);
    assert(FLOAT & !crate::opcodes::SHARED_FLAG == FLOAT && FLOAT & crate::opcodes::SHARED_FLAG == 0) by (bit_vector);
    assert(FLOAT0 & !crate::opcodes::SHARED_FLAG == FLOAT0 && FLOAT0 & crate::opcodes::SHARED_FLAG == 0)
        by (bit_vector);
    assert(STRING1 & !crate::opcodes::SHARED_FLAG == STRING1 && STRING1 & crate::opcodes::SHARED_FLAG == 0)
        by (bit_vector);
    let e0 = plain_header() + seq![NONE];
    assert(e0.subrange(1, 5) =~= plain_header().subrange(1, 5));
    assert(e0.subrange(0, e0.len() as int) =~= e0);
    assert(e0[5] == NONE);
    assert(plain_header() + seq![NONE] + Seq::<u8>::empty() =~= e0);
    let bt = plain_header() + seq![TRUE];
    assert(bt.subrange(1, 5) =~= plain_header().subrange(1, 5));
    assert(bt.subrange(0, bt.len() as int) =~= bt);
    assert(bt[5] == TRUE);
    let bf = plain_header() + seq![FALSE];
    assert(bf.subrange(1, 5) =~= plain_header().subrange(1, 5));
    assert(bf.subrange(0, bf.len() as int) =~= bf);
    assert(bf[5] == FALSE);
    let bb = plain_header() + seq![if flag { TRUE } else { FALSE }];
    assert(plain_header() + seq![if flag { TRUE } else { FALSE }] + Seq::<u8>::empty() =~= bb);
    let fl = plain_header() + seq![FLOAT] + spec_u64_to_le_bytes(f);
    assert(fl.subrange(1, 5) =~= plain_header().subrange(1, 5));
    assert(fl.subrange(0, fl.len() as int) =~= fl);
    assert(fl[5] == FLOAT);
    assert(fl.subrange(6, 14) =~= spec_u64_to_le_bytes(f));
    assert(plain_header() + (seq![FLOAT] + spec_u64_to_le_bytes(f)) + Seq::<u8>::empty() =~= fl);
    let f0 = plain_header() + seq![FLOAT0];
    assert(f0.subrange(1, 5) =~= plain_header().subrange(1, 5));
    assert(f0.subrange(0, f0.len() as int) =~= f0);
    assert(f0[5] == FLOAT0);
    assert(plain_header() + seq![FLOAT0] + Seq::<u8>::empty() =~= f0);
    let s1 = plain_header() + seq![STRING1, x];
    assert(s1.subrange(1, 5) =~= plain_header().subrange(1, 5));
    assert(s1.subrange(0, s1.len() as int) =~= s1);
    assert(s1[5] == STRING1);
    assert(s1.subrange(6, 7) =~= seq![x]);
    assert(plain_header() + seq![STRING1, x] + Seq::<u8>::empty() =~= s1);
    assert(seq![x][0] == x);
}

} // verus!
