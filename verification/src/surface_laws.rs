//! The surface keys of state colours and blinks: joining a surface and an
//! id, then splitting the key, gives them back.

use vstd::prelude::*;
use vstd::utf8::*;

use crate::overview_pack::{last_byte, spec_join_surface_key, spec_split_surface_key};
use crate::parse::{dec_digit, decimal_text, digits_from, digits_text, parse_decimal, IntError};

verus! {

/// UTF-8 encodes text piece by piece.
pub proof fn lemma_encode_concat(a: Seq<char>, b: Seq<char>)
    ensures
        encode_utf8(a + b) == encode_utf8(a) + encode_utf8(b),
    decreases a.len(),
{
    if a.len() > 0 {
        assert((a + b).drop_first() =~= a.drop_first() + b);
        assert((a + b)[0] == a[0]);
        lemma_encode_concat(a.drop_first(), b);
        assert(encode_utf8(a + b) =~= encode_utf8(a) + encode_utf8(b));
    } else {
        assert(a + b =~= b);
        assert(encode_utf8(a) =~= Seq::<u8>::empty());
        assert(encode_utf8(a) + encode_utf8(b) =~= encode_utf8(b));
    }
}

/// Decimal text is made of ASCII digits and at most a leading minus sign.
pub open spec fn decimal_chars(s: Seq<char>) -> bool {
    forall|i: int| 0 <= i < s.len() ==> ('0' <= #[trigger] s[i] <= '9' || s[i] == '-')
}

proof fn lemma_digits_chars(n: nat)
    ensures
        forall|i: int| 0 <= i < digits_text(n).len() ==> '0' <= #[trigger] digits_text(n)[i] <= '9',
        digits_text(n).len() > 0,
    decreases n,
{
    if n >= 10 {
        lemma_digits_chars(n / 10);
        let t = digits_text(n / 10);
        assert forall|i: int| 0 <= i < digits_text(n).len() implies '0' <= #[trigger] digits_text(n)[i] <= '9' by {
            if i < t.len() {
                assert(digits_text(n)[i] == t[i]);
            }
        }
    }
}

/// One digit read onto `r`.
pub open spec fn digit_step(r: int, c: char, neg: bool, lo: int, hi: int) -> Result<int, IntError> {
    match dec_digit(c) {
        None => Err(IntError::InvalidDigit),
        Some(d) => {
            let next = if neg { r * 10 - d } else { r * 10 + d };
            if next > hi {
                Err(IntError::PosOverflow)
            } else if next < lo {
                Err(IntError::NegOverflow)
            } else {
                Ok(next)
            }
        },
    }
}

/// Reading one more character onto what the characters before it gave.
#[verifier::rlimit(40)]
proof fn lemma_digits_push(x: Seq<char>, c: char, acc: int, neg: bool, lo: int, hi: int)
    ensures
        digits_from(x.push(c), acc, neg, lo, hi) == match digits_from(x, acc, neg, lo, hi) {
            Ok(r) => digit_step(r, c, neg, lo, hi),
            Err(e) => Err(e),
        },
    decreases x.len(),
{
    let y = x.push(c);
    reveal_with_fuel(digits_from, 2);
    if x.len() == 0 {
        assert(y.drop_first() =~= Seq::<char>::empty());
        assert(y[0] == c);
        assert(digits_from(x, acc, neg, lo, hi) == Ok::<int, IntError>(acc));
    } else {
        assert(y.drop_first() =~= x.drop_first().push(c));
        assert(y[0] == x[0]);
        match dec_digit(x[0]) {
            None => {},
            Some(d) => {
                let next = if neg { acc * 10 - d } else { acc * 10 + d };
                if lo <= next <= hi {
                    lemma_digits_push(x.drop_first(), c, next, neg, lo, hi);
                }
            },
        }
    }
}

/// The digits of `m` read back give `m` (negated when `neg`).
proof fn lemma_digits_read(m: nat, neg: bool, lo: int, hi: int)
    requires
        lo <= 0 <= hi,
        neg ==> lo <= -m,
        !neg ==> m <= hi,
    ensures
        digits_from(digits_text(m), 0, neg, lo, hi) == Ok::<int, IntError>(if neg { -m } else { m as int }),
    decreases m,
{
    let c = ('0' as int + m % 10) as char;
    assert(dec_digit(c) == Some((m % 10) as int));
    if m < 10 {
        assert(digits_text(m) =~= Seq::<char>::empty().push(c));
        lemma_digits_push(Seq::<char>::empty(), c, 0, neg, lo, hi);
    } else {
        let q = m / 10;
        vstd::arithmetic::div_mod::lemma_fundamental_div_mod(m as int, 10);
        assert(q * 10 + m % 10 == m);
        assert(q <= m);
        lemma_digits_read(q, neg, lo, hi);
        lemma_digits_push(digits_text(q), c, 0, neg, lo, hi);
    }
}

/// Decimal text parses back to the number it was made from.
pub proof fn lemma_decimal_parses(n: int)
    requires
        i64::MIN <= n <= i64::MAX,
    ensures
        parse_decimal(decimal_text(n), true, i64::MIN as int, i64::MAX as int) == Ok::<int, IntError>(n),
        decimal_chars(decimal_text(n)),
{
    if n < 0 {
        let m = (-n) as nat;
        lemma_digits_chars(m);
        lemma_digits_read(m, true, i64::MIN as int, i64::MAX as int);
        let t = decimal_text(n);
        assert(t.drop_first() =~= digits_text(m));
        assert(t[0] == '-');
        assert forall|i: int| 0 <= i < t.len() implies ('0' <= #[trigger] t[i] <= '9' || t[i] == '-') by {
            if i > 0 {
                assert(t[i] == digits_text(m)[i - 1]);
            }
        }
    } else {
        lemma_digits_chars(n as nat);
        lemma_digits_read(n as nat, false, i64::MIN as int, i64::MAX as int);
        assert(decimal_text(n)[0] != '-' && decimal_text(n)[0] != '+');
    }
}

/// The last `x` of `a + b` is in `a` when `b` holds none.
proof fn lemma_last_byte_concat(a: Seq<u8>, b: Seq<u8>, x: u8)
    requires
        a.len() > 0,
        a.last() == x,
        forall|i: int| 0 <= i < b.len() ==> #[trigger] b[i] != x,
    ensures
        last_byte(a + b, x) == Some(a.len() - 1),
    decreases b.len(),
{
    if b.len() == 0 {
        assert(a + b =~= a);
    } else {
        assert((a + b).drop_last() =~= a + b.drop_last());
        assert((a + b).last() == b.last());
        lemma_last_byte_concat(a, b.drop_last(), x);
    }
}

/// Splitting a joined surface key gives back the surface and the id.
pub proof fn lemma_split_join_surface_key(surface: Seq<char>, id: i64)
    requires
        surface.len() > 0,
    ensures
        spec_split_surface_key(spec_join_surface_key(surface, id as int)) == Some((surface, id as int)),
{
    let d = decimal_text(id as int);
    lemma_decimal_parses(id as int);
    let us = seq!['_'];
    let key = spec_join_surface_key(surface, id as int);
    assert(key == surface + us + d);
    lemma_encode_concat(surface + us, d);
    lemma_encode_concat(surface, us);
    let es = encode_utf8(surface);
    let eu = encode_utf8(us);
    let ed = encode_utf8(d);
    assert(is_ascii_chars(us));
    is_ascii_chars_encode_utf8(us);
    assert(eu =~= seq![0x5Fu8]);
    assert(is_ascii_chars(d)) by {
        assert forall|i: int| 0 <= i < d.len() implies #[trigger] d[i] as u32 <= 0x7f by {
            assert('0' <= d[i] <= '9' || d[i] == '-');
        }
    }
    is_ascii_chars_encode_utf8(d);
    assert forall|i: int| 0 <= i < ed.len() implies #[trigger] ed[i] != 0x5Fu8 by {
        assert(d[i] as u8 == ed[i]);
        assert('0' <= d[i] <= '9' || d[i] == '-');
    }
    encode_utf8_first_scalar(surface);
    assert(es.len() > 0);
    let b = encode_utf8(key);
    assert(b == (es + eu) + ed);
    lemma_last_byte_concat(es + eu, ed, 0x5Fu8);
    let j = es.len() as int;
    assert(b.subrange(0, j) =~= es);
    assert(b.subrange(j, b.len() as int) =~= eu + ed);
    lemma_encode_concat(us, d);
    encode_utf8_decode_utf8(us + d);
    encode_utf8_decode_utf8(surface);
    assert((us + d).drop_first() =~= d);
}

} // verus!
