//! Text encodings used on the wire: UTF-8 (UTF8 opcode) and UTF-16LE code
//! units (the UNICODE family).

use vstd::bytes::*;
use vstd::prelude::*;
use vstd::utf8::*;

verus! {

/// The UTF-16 code units of one character.
pub open spec fn utf16_char(c: char) -> Seq<u16> {
    let v = c as u32;
    if v < 0x10000 {
        seq![v as u16]
    } else {
        let u = (v - 0x10000) as int;
        seq![(0xD800 + u / 0x400) as u16, (0xDC00 + u % 0x400) as u16]
    }
}

/// The UTF-16 encoding of a character sequence.
pub open spec fn utf16_encode(s: Seq<char>) -> Seq<u16>
    decreases s.len(),
{
    if s.len() == 0 {
        Seq::empty()
    } else {
        utf16_char(s[0]) + utf16_encode(s.drop_first())
    }
}

pub open spec fn is_high_surrogate(u: u16) -> bool {
    0xD800 <= u <= 0xDBFF
}

pub open spec fn is_low_surrogate(u: u16) -> bool {
    0xDC00 <= u <= 0xDFFF
}

/// Strict UTF-16 decoding: `None` on an unpaired surrogate.
pub open spec fn utf16_decode(u: Seq<u16>) -> Option<Seq<char>>
    decreases u.len(),
{
    if u.len() == 0 {
        Some(Seq::empty())
    } else if !is_high_surrogate(u[0]) && !is_low_surrogate(u[0]) {
        match utf16_decode(u.drop_first()) {
            Some(rest) => Some(seq![(u[0] as u32) as char] + rest),
            None => None,
        }
    } else if is_high_surrogate(u[0]) && u.len() >= 2 && is_low_surrogate(u[1]) {
        let v = (0x10000 + (u[0] - 0xD800) * 0x400 + (u[1] - 0xDC00)) as u32;
        match utf16_decode(u.subrange(2, u.len() as int)) {
            Some(rest) => Some(seq![v as char] + rest),
            None => None,
        }
    } else {
        None
    }
}

/// UTF-16 code units as little-endian bytes.
pub open spec fn utf16_le_bytes(u: Seq<u16>) -> Seq<u8>
    decreases u.len(),
{
    if u.len() == 0 {
        Seq::empty()
    } else {
        utf16_le_bytes(u.subrange(0, u.len() - 1)) + spec_u16_to_le_bytes(u[u.len() - 1])
    }
}

/// Code units read back from `n` little-endian byte pairs.
pub open spec fn utf16_from_le_bytes(b: Seq<u8>, n: nat) -> Seq<u16>
    decreases n,
{
    if n == 0 {
        Seq::empty()
    } else {
        utf16_from_le_bytes(b, (n - 1) as nat).push(
            spec_u16_from_le_bytes(b.subrange(2 * (n - 1), 2 * n as int)),
        )
    }
}

proof fn lemma_utf16_encode_concat(a: Seq<char>, b: Seq<char>)
    ensures
        utf16_encode(a + b) == utf16_encode(a) + utf16_encode(b),
    decreases a.len(),
{
    if a.len() > 0 {
        lemma_utf16_encode_concat(a.drop_first(), b);
        assert((a + b).drop_first() =~= a.drop_first() + b);
        assert(utf16_char(a[0]) + (utf16_encode(a.drop_first()) + utf16_encode(b)) =~= (utf16_char(a[0])
            + utf16_encode(a.drop_first())) + utf16_encode(b));
    } else {
        assert(a + b =~= b);
    }
}

/// The UTF-16 code units of `s`, as `str::encode_utf16` gives them.
pub(crate) fn utf16_units(s: &str) -> (r: Vec<u16>)
    ensures
        r@ == utf16_encode(s@),
{
    let cs = crate::parse::chars_of(s);
    let mut out: Vec<u16> = Vec::new();
    let mut i: usize = 0;
    while i < cs.len()
        invariant
            i <= cs@.len(),
            cs@ == s@,
            out@ == utf16_encode(cs@.take(i as int)),
        decreases cs@.len() - i,
    {
        let c = cs[i];
        let v = c as u32;
        let ghost before = out@;
        if v < 0x10000 {
            out.push(v as u16);
        } else {
            proof {
                vstd::utf8::char_is_scalar(c);
            }
            assert(v <= 0x10FFFF);
            let u = v - 0x10000;
            out.push((0xD800 + u / 0x400) as u16);
            out.push((0xDC00 + u % 0x400) as u16);
        }
        proof {
            let e = utf16_char(c);
            assert(out@ =~= before + e);
            let one = seq![c];
            assert(utf16_encode(one.drop_first()) =~= Seq::<u16>::empty());
            assert(utf16_encode(one) =~= e);
            assert(cs@.take(i + 1) =~= cs@.take(i as int) + one);
            lemma_utf16_encode_concat(cs@.take(i as int), one);
        }
        i = i + 1;
    }
    assert(cs@.take(cs@.len() as int) =~= cs@);
    out
}

/// What `String::from_utf8_lossy` makes of the bytes `b`.
pub uninterp spec fn utf8_lossy(b: Seq<u8>) -> Seq<char>;

/// `String::from_utf8_lossy`: the text of `b`, each invalid sequence
/// replaced by U+FFFD; valid UTF-8 reads as the text it encodes. The result
/// depends on the bytes alone.
#[verifier::external_body]
pub(crate) fn lossy_text(b: &[u8]) -> (r: String)
    ensures
        r@ == utf8_lossy(b@),
        valid_utf8(b@) ==> r@ == decode_utf8(b@),
{
    String::from_utf8_lossy(b).into_owned()
}

} // verus!
