//! Text the editor accepts for scalar edits: surrounding-whitespace trimming,
//! decimal integers and hex byte strings.

use vstd::prelude::*;

verus! {

broadcast use vstd::std_specs::vec::group_vec_axioms;

/// Unicode `White_Space`, the set `char::is_whitespace` and `str::trim` use.
pub open spec fn is_ws(c: char) -> bool {
    let v = c as u32;
    (0x09 <= v && v <= 0x0D) || v == 0x20 || v == 0x85 || v == 0xA0 || v == 0x1680 || (0x2000
        <= v && v <= 0x200A) || v == 0x2028 || v == 0x2029 || v == 0x202F || v == 0x205F || v
        == 0x3000
}

pub fn is_whitespace(c: char) -> (r: bool)
    ensures
        r == is_ws(c),
{
    let v = c as u32;
    (0x09 <= v && v <= 0x0D) || v == 0x20 || v == 0x85 || v == 0xA0 || v == 0x1680 || (0x2000
        <= v && v <= 0x200A) || v == 0x2028 || v == 0x2029 || v == 0x202F || v == 0x205F || v
        == 0x3000
}

/// Number of leading whitespace characters.
pub open spec fn lead_ws(s: Seq<char>) -> nat
    decreases s.len(),
{
    if s.len() > 0 && is_ws(s[0]) {
        1 + lead_ws(s.drop_first())
    } else {
        0
    }
}

/// Number of trailing whitespace characters.
pub open spec fn trail_ws(s: Seq<char>) -> nat
    decreases s.len(),
{
    if s.len() > 0 && is_ws(s.last()) {
        1 + trail_ws(s.drop_last())
    } else {
        0
    }
}

/// `s` without leading and trailing whitespace.
pub open spec fn trim(s: Seq<char>) -> Seq<char> {
    let a = s.skip(lead_ws(s) as int);
    a.take(a.len() - trail_ws(a))
}

/// Decimal digit value.
pub open spec fn dec_digit(c: char) -> Option<int> {
    if '0' <= c && c <= '9' {
        Some(c as int - '0' as int)
    } else {
        None
    }
}

/// Why a decimal integer did not parse, as `core::num::IntErrorKind` names it.
#[derive(Debug, Clone, Copy, PartialEq, Eq, Structural)]
pub enum IntError {
    Empty,
    InvalidDigit,
    PosOverflow,
    NegOverflow,
}

/// Digits of `s` accumulated onto `acc` (subtracted when `neg`), stopping at
/// the first character that is no digit or that takes the value out of
/// `lo..=hi`.
pub open spec fn digits_from(s: Seq<char>, acc: int, neg: bool, lo: int, hi: int) -> Result<int, IntError>
    decreases s.len(),
{
    if s.len() == 0 {
        Ok(acc)
    } else {
        match dec_digit(s[0]) {
            None => Err(IntError::InvalidDigit),
            Some(d) => {
                let next = if neg { acc * 10 - d } else { acc * 10 + d };
                if next > hi {
                    Err(IntError::PosOverflow)
                } else if next < lo {
                    Err(IntError::NegOverflow)
                } else {
                    digits_from(s.drop_first(), next, neg, lo, hi)
                }
            },
        }
    }
}

/// `str::parse` of a decimal integer into the range `lo..=hi`: an optional
/// `+` (or `-` when `signed`) and at least one digit.
pub open spec fn parse_decimal(s: Seq<char>, signed: bool, lo: int, hi: int) -> Result<int, IntError> {
    if s.len() == 0 {
        Err(IntError::Empty)
    } else if (s[0] == '+' || s[0] == '-') && s.len() == 1 {
        Err(IntError::InvalidDigit)
    } else if s[0] == '+' {
        digits_from(s.drop_first(), 0, false, lo, hi)
    } else if s[0] == '-' && signed {
        digits_from(s.drop_first(), 0, true, lo, hi)
    } else {
        digits_from(s, 0, false, lo, hi)
    }
}

/// Hex digit value.
pub open spec fn hex_digit(c: char) -> Option<int> {
    if '0' <= c && c <= '9' {
        Some(c as int - '0' as int)
    } else if 'a' <= c && c <= 'f' {
        Some(c as int - 'a' as int + 10)
    } else if 'A' <= c && c <= 'F' {
        Some(c as int - 'A' as int + 10)
    } else {
        None
    }
}

/// `u8::from_str_radix(pair, 16)` of a two-character string: two hex digits,
/// or `+` and one.
pub open spec fn hex_pair(a: char, b: char) -> Option<u8> {
    if a == '+' {
        match hex_digit(b) {
            Some(y) => Some(y as u8),
            None => None,
        }
    } else {
        match (hex_digit(a), hex_digit(b)) {
            (Some(x), Some(y)) => Some((x * 16 + y) as u8),
            _ => None,
        }
    }
}

/// Bytes from consecutive pairs of `t`.
pub open spec fn hex_pairs(t: Seq<char>) -> Option<Seq<u8>>
    decreases t.len(),
{
    if t.len() < 2 {
        Some(Seq::empty())
    } else {
        match hex_pair(t[0], t[1]) {
            None => None,
            Some(b) => match hex_pairs(t.subrange(2, t.len() as int)) {
                None => None,
                Some(rest) => Some(seq![b] + rest),
            },
        }
    }
}

/// Hex text as bytes: whitespace anywhere is ignored; what is left must be
/// ASCII, of even length, made of pairs `hex_pair` accepts.
pub open spec fn spec_parse_hex(s: Seq<char>) -> Option<Seq<u8>> {
    let t = s.filter(|c: char| !is_ws(c));
    if exists|i: int| 0 <= i < t.len() && (t[i] as u32) >= 0x80 {
        None
    } else if t.len() % 2 != 0 {
        None
    } else {
        hex_pairs(t)
    }
}

/// The characters of `s`.
pub fn chars_of(s: &str) -> (r: Vec<char>)
    ensures
        r@ == s@,
{
    let mut out: Vec<char> = Vec::new();
    proof {
        vstd::string::axiom_spec_iter(s);
    }
    for c in it: s.chars()
        invariant
            it.seq() == s@,
            out@ == it.seq().take(it.index() as int),
    {
        out.push(c);
    }
    assert(out@ =~= s@);
    out
}

proof fn lemma_lead_ws_bound(s: Seq<char>)
    ensures
        lead_ws(s) <= s.len(),
        forall|i: int| 0 <= i < lead_ws(s) ==> is_ws(#[trigger] s[i]),
        lead_ws(s) < s.len() ==> !is_ws(s[lead_ws(s) as int]),
    decreases s.len(),
{
    if s.len() > 0 && is_ws(s[0]) {
        lemma_lead_ws_bound(s.drop_first());
        assert forall|i: int| 0 <= i < lead_ws(s) implies is_ws(#[trigger] s[i]) by {
            if i > 0 {
                assert(s[i] == s.drop_first()[i - 1]);
            }
        }
    }
}

proof fn lemma_trail_ws_bound(s: Seq<char>)
    ensures
        trail_ws(s) <= s.len(),
        forall|i: int| s.len() - trail_ws(s) <= i < s.len() ==> is_ws(#[trigger] s[i]),
        trail_ws(s) < s.len() ==> !is_ws(s[s.len() - trail_ws(s) - 1]),
    decreases s.len(),
{
    if s.len() > 0 && is_ws(s.last()) {
        lemma_trail_ws_bound(s.drop_last());
        assert forall|i: int| s.len() - trail_ws(s) <= i < s.len() implies is_ws(#[trigger] s[i]) by {
            if i < s.len() - 1 {
                assert(s[i] == s.drop_last()[i]);
            }
        }
    }
}

/// Leading whitespace count from characterising facts.
proof fn lemma_lead_ws_is(s: Seq<char>, k: nat)
    requires
        k <= s.len(),
        forall|i: int| 0 <= i < k ==> is_ws(#[trigger] s[i]),
        k < s.len() ==> !is_ws(s[k as int]),
    ensures
        lead_ws(s) == k,
    decreases k,
{
    if k > 0 {
        assert forall|i: int| 0 <= i < k - 1 implies is_ws(#[trigger] s.drop_first()[i]) by {
            assert(s.drop_first()[i] == s[i + 1]);
        }
        if k < s.len() {
            assert(s.drop_first()[k - 1] == s[k as int]);
        }
        lemma_lead_ws_is(s.drop_first(), (k - 1) as nat);
    }
}

proof fn lemma_trail_ws_is(s: Seq<char>, k: nat)
    requires
        k <= s.len(),
        forall|i: int| s.len() - k <= i < s.len() ==> is_ws(#[trigger] s[i]),
        k < s.len() ==> !is_ws(s[s.len() - k - 1]),
    ensures
        trail_ws(s) == k,
    decreases k,
{
    if k > 0 {
        let t = s.drop_last();
        assert forall|i: int| t.len() - (k - 1) <= i < t.len() implies is_ws(#[trigger] t[i]) by {
            assert(t[i] == s[i]);
        }
        if k < s.len() {
            assert(t[t.len() - (k - 1) - 1] == s[s.len() - k - 1]);
        }
        assert(s.last() == s[s.len() - 1]);
        lemma_trail_ws_is(t, (k - 1) as nat);
    }
}

/// `str::trim`, on characters.
pub fn trim_chars(s: &Vec<char>) -> (r: Vec<char>)
    ensures
        r@ == trim(s@),
{
    let mut a: usize = 0;
    while a < s.len() && is_whitespace(s[a])
        invariant
            a <= s.len(),
            forall|i: int| 0 <= i < a ==> is_ws(#[trigger] s@[i]),
        decreases s.len() - a,
    {
        a = a + 1;
    }
    proof {
        lemma_lead_ws_is(s@, a as nat);
    }
    let mut b: usize = s.len();
    while b > a && is_whitespace(s[b - 1])
        invariant
            a <= b <= s.len(),
            forall|i: int| b <= i < s.len() ==> is_ws(#[trigger] s@[i]),
        decreases b - a,
    {
        b = b - 1;
    }
    let ghost t = s@.skip(a as int);
    proof {
        assert forall|i: int| t.len() - (s.len() - b) <= i < t.len() implies is_ws(#[trigger] t[i]) by {
            assert(t[i] == s@[i + a]);
        }
        if b > a {
            assert(t[t.len() - (s.len() - b) - 1] == s@[b - 1]);
        }
        lemma_trail_ws_is(t, (s.len() - b) as nat);
    }
    let mut out: Vec<char> = Vec::new();
    let mut i: usize = a;
    while i < b
        invariant
            a <= i <= b <= s.len(),
            out@ == s@.subrange(a as int, i as int),
        decreases b - i,
    {
        out.push(s[i]);
        i = i + 1;
    }
    assert(out@ =~= trim(s@));
    out
}

/// Decimal parse, as [`parse_decimal`] states it.
pub fn parse_decimal_exec(s: &Vec<char>, signed: bool, lo: i128, hi: i128) -> (r: Result<i128, IntError>)
    requires
        lo <= 0 <= hi,
        -0x1_0000_0000_0000_0000 <= lo,
        hi <= 0x1_0000_0000_0000_0000,
    ensures
        match r {
            Ok(v) => parse_decimal(s@, signed, lo as int, hi as int) == Ok::<int, IntError>(v as int)
                && lo <= v <= hi,
            Err(e) => parse_decimal(s@, signed, lo as int, hi as int) == Err::<int, IntError>(e),
        },
{
    if s.len() == 0 {
        return Err(IntError::Empty);
    }
    if (s[0] == '+' || s[0] == '-') && s.len() == 1 {
        return Err(IntError::InvalidDigit);
    }
    let mut neg = false;
    let mut i: usize = 0;
    if s[0] == '+' {
        i = 1;
    } else if s[0] == '-' && signed {
        i = 1;
        neg = true;
    }
    let ghost digits = s@.skip(i as int);
    proof {
        assert(s@.skip(1) =~= s@.drop_first());
        assert(s@.skip(0) =~= s@);
    }
    let mut acc: i128 = 0;
    while i < s.len()
        invariant
            0 <= i <= s.len(),
            lo <= acc <= hi,
            lo <= 0 <= hi,
            -0x1_0000_0000_0000_0000 <= lo,
            hi <= 0x1_0000_0000_0000_0000,
            parse_decimal(s@, signed, lo as int, hi as int) == digits_from(
                s@.skip(i as int),
                acc as int,
                neg,
                lo as int,
                hi as int,
            ),
        decreases s.len() - i,
    {
        let c = s[i];
        assert(s@.skip(i as int)[0] == c);
        assert(s@.skip(i as int).drop_first() =~= s@.skip(i + 1));
        if !('0' <= c && c <= '9') {
            return Err(IntError::InvalidDigit);
        }
        let d = ((c as u32) - ('0' as u32)) as i128;
        let next = if neg { acc * 10 - d } else { acc * 10 + d };
        if next > hi {
            return Err(IntError::PosOverflow);
        }
        if next < lo {
            return Err(IntError::NegOverflow);
        }
        acc = next;
        i = i + 1;
    }
    assert(s@.skip(i as int) =~= Seq::<char>::empty());
    Ok(acc)
}

/// The value of a hex digit the caller has checked.
fn hex_value(c: char) -> (r: Option<u8>)
    ensures
        match r {
            Some(v) => hex_digit(c) == Some(v as int),
            None => hex_digit(c) is None,
        },
{
    let v = c as u32;
    if '0' <= c && c <= '9' {
        Some((v - ('0' as u32)) as u8)
    } else if 'a' <= c && c <= 'f' {
        Some((v - ('a' as u32) + 10) as u8)
    } else if 'A' <= c && c <= 'F' {
        Some((v - ('A' as u32) + 10) as u8)
    } else {
        None
    }
}

proof fn lemma_hex_pairs_split(t: Seq<char>, k: int, acc: Seq<u8>)
    requires
        0 <= k <= t.len(),
        k % 2 == 0,
        hex_pairs(t.subrange(0, k)) == Some(acc),
    ensures
        hex_pairs(t) == match hex_pairs(t.subrange(k, t.len() as int)) {
            Some(rest) => Some(acc + rest),
            None => None::<Seq<u8>>,
        },
    decreases k,
{
    if k == 0 {
        assert(t.subrange(0, t.len() as int) =~= t);
        assert(hex_pairs(t.subrange(0, 0)) == Some(Seq::<u8>::empty()));
        assert(acc =~= Seq::<u8>::empty());
        if let Some(rest) = hex_pairs(t) {
            assert(acc + rest =~= rest);
        }
    } else {
        let p = t.subrange(0, k);
        let b = hex_pair(t[0], t[1]);
        assert(p[0] == t[0] && p[1] == t[1]);
        let b = b->Some_0;
        let rest0 = hex_pairs(p.subrange(2, k))->Some_0;
        assert(acc == seq![b] + rest0);
        let t2 = t.subrange(2, t.len() as int);
        assert(p.subrange(2, k) =~= t2.subrange(0, k - 2));
        lemma_hex_pairs_split(t2, k - 2, rest0);
        assert(t2.subrange(k - 2, t2.len() as int) =~= t.subrange(k, t.len() as int));
        if let Some(rest) = hex_pairs(t.subrange(k, t.len() as int)) {
            assert(seq![b] + (rest0 + rest) =~= acc + rest);
        }
    }
}

/// Hex text as bytes, as [`spec_parse_hex`] states it.
pub fn parse_hex(s: &Vec<char>) -> (r: Option<Vec<u8>>)
    ensures
        match r {
            Some(b) => spec_parse_hex(s@) == Some(b@),
            None => spec_parse_hex(s@) is None,
        },
{
    let mut t: Vec<char> = Vec::new();
    let mut i: usize = 0;
    while i < s.len()
        invariant
            i <= s.len(),
            t@ == s@.subrange(0, i as int).filter(|c: char| !is_ws(c)),
        decreases s.len() - i,
    {
        let c = s[i];
        proof {
            reveal(Seq::filter);
            assert(s@.subrange(0, i + 1).drop_last() =~= s@.subrange(0, i as int));
            assert(s@.subrange(0, i + 1).last() == c);
        }
        if !is_whitespace(c) {
            t.push(c);
        }
        i = i + 1;
    }
    assert(s@.subrange(0, s.len() as int) =~= s@);
    assert(t@ == s@.filter(|c: char| !is_ws(c)));
    let mut j: usize = 0;
    while j < t.len()
        invariant
            j <= t.len(),
            t@ == s@.filter(|c: char| !is_ws(c)),
            forall|k: int| 0 <= k < j ==> (#[trigger] t@[k] as u32) < 0x80,
        decreases t.len() - j,
    {
        if (t[j] as u32) >= 0x80 {
            assert((t@[j as int] as u32) >= 0x80);
            return None;
        }
        j = j + 1;
    }
    assert(!(exists|i: int| 0 <= i < t@.len() && (t@[i] as u32) >= 0x80));
    if t.len() % 2 != 0 {
        return None;
    }
    assert(spec_parse_hex(s@) == hex_pairs(t@));
    let mut out: Vec<u8> = Vec::new();
    let mut k: usize = 0;
    assert(t@.subrange(0, 0) =~= Seq::<char>::empty());
    while k < t.len()
        invariant
            k <= t.len(),
            k % 2 == 0,
            t.len() % 2 == 0,
            spec_parse_hex(s@) == hex_pairs(t@),
            hex_pairs(t@.subrange(0, k as int)) == Some(out@),
        decreases t.len() - k,
    {
        let a = t[k];
        let b = t[k + 1];
        let v: u8;
        if a == '+' {
            match hex_value(b) {
                Some(y) => {
                    v = y;
                },
                None => {
                    proof {
                        lemma_no_pair(t@, k as int, out@);
                    }
                    return None;
                },
            }
        } else {
            match (hex_value(a), hex_value(b)) {
                (Some(x), Some(y)) => {
                    v = x * 16 + y;
                },
                _ => {
                    proof {
                        lemma_no_pair(t@, k as int, out@);
                    }
                    return None;
                },
            }
        }
        proof {
            let p = t@.subrange(0, k + 2);
            assert(p.subrange(0, k as int) =~= t@.subrange(0, k as int));
            lemma_hex_pairs_split(p, k as int, out@);
            let q = p.subrange(k as int, p.len() as int);
            assert(q[0] == a && q[1] == b);
            assert(hex_pair(a, b) == Some(v));
            assert(q.subrange(2, 2) =~= Seq::<char>::empty());
            assert(hex_pairs(q.subrange(2, 2)) == Some(Seq::<u8>::empty()));
            assert(seq![v] + Seq::<u8>::empty() =~= seq![v]);
            assert(hex_pairs(q) == Some(seq![v]));
            assert(out@.push(v) =~= out@ + seq![v]);
        }
        out.push(v);
        k = k + 2;
    }
    assert(t@.subrange(0, k as int) =~= t@);
    Some(out)
}

/// A bad pair at `k` leaves the whole text without a parse.
proof fn lemma_no_pair(t: Seq<char>, k: int, acc: Seq<u8>)
    requires
        0 <= k,
        k + 2 <= t.len(),
        k % 2 == 0,
        hex_pairs(t.subrange(0, k)) == Some(acc),
        hex_pair(t[k], t[k + 1]) is None,
    ensures
        hex_pairs(t) is None,
{
    lemma_hex_pairs_split(t, k, acc);
    let q = t.subrange(k, t.len() as int);
    assert(q[0] == t[k] && q[1] == t[k + 1]);
}


/// The decimal digits of `n`, most significant first.
pub open spec fn digits_text(n: nat) -> Seq<char>
    decreases n,
{
    if n < 10 {
        seq![('0' as int + n) as char]
    } else {
        digits_text(n / 10).push(('0' as int + n % 10) as char)
    }
}

/// `n` as Rust prints an integer: a minus sign when negative, then its digits.
pub open spec fn decimal_text(n: int) -> Seq<char> {
    if n < 0 {
        seq!['-'] + digits_text((-n) as nat)
    } else {
        digits_text(n as nat)
    }
}

/// The character of the decimal digit `d`.
fn digit_char(d: u128) -> (c: char)
    requires
        d < 10,
    ensures
        c == ('0' as int + d) as char,
{
    if d == 0 {
        '0'
    } else if d == 1 {
        '1'
    } else if d == 2 {
        '2'
    } else if d == 3 {
        '3'
    } else if d == 4 {
        '4'
    } else if d == 5 {
        '5'
    } else if d == 6 {
        '6'
    } else if d == 7 {
        '7'
    } else if d == 8 {
        '8'
    } else {
        '9'
    }
}

/// Append the decimal digits of `m` to `s`.
fn push_digits(s: &mut String, m: u128)
    ensures
        final(s)@ == old(s)@ + digits_text(m as nat),
    decreases m,
{
    if m >= 10 {
        push_digits(s, m / 10);
    }
    let c = digit_char(m % 10);
    let ghost before = s@;
    crate::discover::push_char(s, c);
    proof {
        if m >= 10 {
            assert(s@ =~= old(s)@ + digits_text((m / 10) as nat).push(c));
        } else {
            assert(s@ =~= old(s)@ + seq![c]);
        }
    }
}

/// `n` in decimal, as `n.to_string()` prints it.
pub(crate) fn decimal(n: i128) -> (r: String)
    ensures
        r@ == decimal_text(n as int),
{
    let mut s = String::new();
    if n < 0 {
        crate::discover::push_char(&mut s, '-');
        let m: u128 = ((-(n + 1)) as u128) + 1;
        push_digits(&mut s, m);
    } else {
        push_digits(&mut s, n as u128);
    }
    s
}

/// What `{:?}` prints for the text `s`: the text in double quotes, with
/// quotes, backslashes and unprintable characters escaped.
pub uninterp spec fn debug_quoted(s: Seq<char>) -> Seq<char>;

/// `format!("{:?}", s)` for a string slice.
#[verifier::external_body]
pub(crate) fn quoted(s: &str) -> (r: String)
    ensures
        r@ == debug_quoted(s@),
{
    format!("{:?}", s)
}

/// A lowercase hexadecimal digit.
pub open spec fn hex_char(d: nat) -> char {
    seq!['0', '1', '2', '3', '4', '5', '6', '7', '8', '9', 'a', 'b', 'c', 'd', 'e', 'f'][d as int]
}

/// The lowercase hexadecimal digits of `n`, without leading zeros.
pub open spec fn hex_digits(n: nat) -> Seq<char>
    decreases n,
{
    if n < 16 {
        seq![hex_char(n)]
    } else {
        hex_digits(n / 16).push(hex_char(n % 16))
    }
}

/// `n` as `{:#x}` prints it: `0x`, then its lowercase hexadecimal digits.
pub open spec fn hex_text(n: nat) -> Seq<char> {
    seq!['0', 'x'] + hex_digits(n)
}

fn push_hex_digits(s: &mut String, n: usize)
    ensures
        final(s)@ == old(s)@ + hex_digits(n as nat),
    decreases n,
{
    let table = vec!['0', '1', '2', '3', '4', '5', '6', '7', '8', '9', 'a', 'b', 'c', 'd', 'e', 'f'];
    if n >= 16 {
        push_hex_digits(s, n / 16);
    }
    let ghost mid = s@;
    crate::discover::push_char(s, table[n % 16]);
    proof {
        assert(table@ == seq!['0', '1', '2', '3', '4', '5', '6', '7', '8', '9', 'a', 'b', 'c', 'd', 'e', 'f']);
        if n >= 16 {
            assert(s@ =~= old(s)@ + hex_digits(n as nat));
        } else {
            assert(s@ =~= old(s)@ + hex_digits(n as nat));
        }
    }
}

/// `format!("{:#x}", n)`.
pub(crate) fn hex(n: usize) -> (r: String)
    ensures
        r@ == hex_text(n as nat),
{
    let mut s = String::from_str("0x");
    proof {
        reveal_strlit("0x");
    }
    push_hex_digits(&mut s, n);
    s
}

} // verus!
