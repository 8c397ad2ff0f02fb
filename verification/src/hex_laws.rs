//! What hex text reads as, stated by writing bytes out as hex: every byte
//! sequence, written with its digits in any mix of upper and lower case,
//! reads back as itself.

use vstd::prelude::*;

use crate::parse::{is_ws, spec_parse_hex};
use crate::value::ValueView;

verus! {

/// The hexadecimal digit for `d` (below 16), upper-case when `upper`.
pub open spec fn digit_char(d: int, upper: bool) -> char {
    if upper {
        seq!['0', '1', '2', '3', '4', '5', '6', '7', '8', '9', 'A', 'B', 'C', 'D', 'E', 'F'][d]
    } else {
        seq!['0', '1', '2', '3', '4', '5', '6', '7', '8', '9', 'a', 'b', 'c', 'd', 'e', 'f'][d]
    }
}

/// The bytes `b` written as hex, two digits each, high digit first; digit
/// `k` of the text is upper-case when `upper[k]`.
pub open spec fn hex_written(b: Seq<u8>, upper: Seq<bool>) -> Seq<char>
    decreases b.len(),
{
    if b.len() == 0 {
        Seq::empty()
    } else {
        seq![digit_char(b[0] as int / 16, upper[0]), digit_char(b[0] as int % 16, upper[1])] + hex_written(
            b.drop_first(),
            upper.skip(2),
        )
    }
}

proof fn lemma_digit(d: int, upper: bool)
    requires
        0 <= d < 16,
    ensures
        crate::parse::hex_digit(digit_char(d, upper)) == Some(d),
        !is_ws(digit_char(d, upper)),
        (digit_char(d, upper) as u32) < 0x80,
        digit_char(d, upper) != '+',
{
    if d == 0 {} else if d == 1 {} else if d == 2 {} else if d == 3 {} else if d == 4 {} else if d == 5 {}
    else if d == 6 {} else if d == 7 {} else if d == 8 {} else if d == 9 {} else if d == 10 {}
    else if d == 11 {} else if d == 12 {} else if d == 13 {} else if d == 14 {} else {}
}

proof fn lemma_written(b: Seq<u8>, upper: Seq<bool>)
    requires
        upper.len() >= 2 * b.len(),
    ensures
        hex_written(b, upper).len() == 2 * b.len(),
        forall|k: int| 0 <= k < hex_written(b, upper).len() ==> !is_ws(#[trigger] hex_written(b, upper)[k])
            && (hex_written(b, upper)[k] as u32) < 0x80,
        crate::parse::hex_pairs(hex_written(b, upper)) == Some(b),
    decreases b.len(),
{
    if b.len() > 0 {
        let t = hex_written(b, upper);
        let hi = b[0] as int / 16;
        let lo = b[0] as int % 16;
        lemma_digit(hi, upper[0]);
        lemma_digit(lo, upper[1]);
        lemma_written(b.drop_first(), upper.skip(2));
        let rest = hex_written(b.drop_first(), upper.skip(2));
        assert(t.subrange(2, t.len() as int) =~= rest);
        assert(((hi * 16 + lo) as u8) == b[0]);
        assert(seq![b[0]] + b.drop_first() =~= b);
        assert forall|k: int| 0 <= k < t.len() implies !is_ws(#[trigger] t[k]) && (t[k] as u32) < 0x80 by {
            if k >= 2 {
                assert(t[k] == rest[k - 2]);
            }
        }
    } else {
        assert(b =~= Seq::<u8>::empty());
    }
}

proof fn lemma_filter_keeps_all(s: Seq<char>)
    requires
        forall|k: int| 0 <= k < s.len() ==> !is_ws(#[trigger] s[k]),
    ensures
        s.filter(|c: char| !is_ws(c)) == s,
    decreases s.len(),
{
    if s.len() > 0 {
        let dl = s.drop_last();
        assert forall|k: int| 0 <= k < dl.len() implies !is_ws(#[trigger] dl[k]) by {
            assert(dl[k] == s[k]);
        }
        lemma_filter_keeps_all(dl);
        dl.lemma_filter_push(s.last(), |c: char| !is_ws(c));
        assert(dl.push(s.last()) =~= s);
        assert(!is_ws(s[s.len() - 1]));
    } else {
        assert(s.filter(|c: char| !is_ws(c)) =~= s) by {
            s.lemma_filter_len(|c: char| !is_ws(c));
        }
    }
}

/// Hex text reads back as the bytes it writes, whatever the case of each
/// digit: `A`–`F` and `a`–`f` both stand for 10–15, and `hex:FF` and
/// `hex:ff` alike give `[0xFF]`.
pub proof fn lemma_hex_reads_back(b: Seq<u8>, upper: Seq<bool>)
    requires
        upper.len() >= 2 * b.len(),
    ensures
        spec_parse_hex(hex_written(b, upper)) == Some(b),
{
    let t = hex_written(b, upper);
    lemma_written(b, upper);
    lemma_filter_keeps_all(t);
    assert(t.len() % 2 == 0);
}


/// Setting a byte-string node from `hex:` text stores the bytes the text
/// writes, whatever the case of its digits.
pub proof fn lemma_hex_edit_sets_bytes(old: Seq<u8>, b: Seq<u8>, upper: Seq<bool>, f: Result<u64, Seq<char>>)
    requires
        upper.len() >= 2 * b.len(),
    ensures
        crate::mutate::spec_set_scalar(ValueView::Bytes(old), seq!['h', 'e', 'x', ':'] + hex_written(b, upper), f)
            == Ok::<ValueView, crate::mutate::MutateErrorView>(ValueView::Bytes(b)),
{
    let t = seq!['h', 'e', 'x', ':'] + hex_written(b, upper);
    assert(t.skip(4) =~= hex_written(b, upper));
    lemma_hex_reads_back(b, upper);
}

} // verus!
