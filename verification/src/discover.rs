//! Discovery of EVE settings profiles. Layout:
//!   `<root>/<install>_<server>/settings_<profile>/core_(char|user)_<id>.dat`
//! The server name is the last `_`-separated token of the install dir.
//! Walking the directories is the caller's part; this module names, sorts and
//! classifies what was found.

use std::path::PathBuf;
use vstd::prelude::*;

use crate::parse::{chars_of, parse_decimal, parse_decimal_exec};

verus! {

#[verifier::external_type_specification]
#[verifier::external_body]
pub struct ExPathBuf(PathBuf);

/// One settings profile directory.
#[derive(Debug)]
pub struct Profile {
    /// Install-directory name minus the server suffix, e.g. "c_eve_sharedcache_tq".
    pub install: String,
    /// Last underscore token of the install dir, e.g. "tranquility".
    pub server: String,
    /// The settings_<profile> suffix, e.g. "Default".
    pub profile: String,
    pub dir: PathBuf,
    pub files: Vec<SettingsFile>,
}

/// One `.dat` file of a profile.
#[derive(Debug)]
pub struct SettingsFile {
    pub path: PathBuf,
    pub file_name: String,
    pub kind: FileKind,
    /// Numeric id from core_char_<id>/core_user_<id>; None for anomalous
    /// names (real examples exist: `core_char__.dat`).
    pub id: Option<u64>,
    pub size: u64,
    pub modified_unix: Option<u64>,
}

/// What a settings file holds.
#[derive(Debug, Clone, Copy, PartialEq, Eq, Structural)]
pub enum FileKind {
    Char,
    User,
    Other,
}

/// Whether `s` starts with `p`.
pub open spec fn has_prefix(s: Seq<char>, p: Seq<char>) -> bool {
    p.len() <= s.len() && s.subrange(0, p.len() as int) == p
}

/// Whether `s` ends with `p`.
pub open spec fn has_suffix(s: Seq<char>, p: Seq<char>) -> bool {
    p.len() <= s.len() && s.subrange(s.len() - p.len(), s.len() as int) == p
}

/// `s` with every trailing repetition of `p` removed (`trim_end_matches`).
pub open spec fn trim_suffixes(s: Seq<char>, p: Seq<char>) -> Seq<char>
    decreases s.len(),
{
    if p.len() > 0 && has_suffix(s, p) {
        trim_suffixes(s.subrange(0, s.len() - p.len()), p)
    } else {
        s
    }
}

pub open spec fn dat() -> Seq<char> {
    seq!['.', 'd', 'a', 't']
}

pub open spec fn char_prefix() -> Seq<char> {
    seq!['c', 'o', 'r', 'e', '_', 'c', 'h', 'a', 'r', '_']
}

pub open spec fn user_prefix() -> Seq<char> {
    seq!['c', 'o', 'r', 'e', '_', 'u', 's', 'e', 'r', '_']
}

/// A file id: `str::parse::<u64>` of what follows the prefix.
pub open spec fn file_id(rest: Seq<char>) -> Option<u64> {
    match parse_decimal(rest, false, 0, u64::MAX as int) {
        Ok(n) => Some(n as u64),
        Err(_) => None,
    }
}

/// How a file name is read: not a settings file unless it ends in `.dat`;
/// then `core_char_<id>` or `core_user_<id>` (the id absent where it is not
/// a number), anything else `Other`.
pub open spec fn spec_classify(name: Seq<char>) -> Option<(FileKind, Option<u64>)> {
    if !has_suffix(name, dat()) {
        None
    } else {
        let stem = trim_suffixes(name, dat());
        if has_prefix(stem, char_prefix()) {
            Some((FileKind::Char, file_id(stem.skip(char_prefix().len() as int))))
        } else if has_prefix(stem, user_prefix()) {
            Some((FileKind::User, file_id(stem.skip(user_prefix().len() as int))))
        } else {
            Some((FileKind::Other, None))
        }
    }
}

pub(crate) fn starts_with(s: &Vec<char>, p: &[char]) -> (r: bool)
    ensures
        r == has_prefix(s@, p@),
{
    if p.len() > s.len() {
        return false;
    }
    let mut i: usize = 0;
    while i < p.len()
        invariant
            i <= p.len() <= s.len(),
            forall|j: int| 0 <= j < i ==> s@[j] == p@[j],
        decreases p.len() - i,
    {
        if s[i] != p[i] {
            assert(s@.subrange(0, p.len() as int)[i as int] != p@[i as int]);
            return false;
        }
        i = i + 1;
    }
    assert(s@.subrange(0, p.len() as int) =~= p@);
    true
}

pub(crate) fn ends_with(s: &Vec<char>, n: usize, p: &[char]) -> (r: bool)
    requires
        n <= s.len(),
    ensures
        r == has_suffix(s@.subrange(0, n as int), p@),
{
    let ghost t = s@.subrange(0, n as int);
    if p.len() > n {
        return false;
    }
    let off = n - p.len();
    let mut i: usize = 0;
    while i < p.len()
        invariant
            i <= p.len(),
            off + p.len() == n,
            n <= s.len(),
            t == s@.subrange(0, n as int),
            forall|j: int| 0 <= j < i ==> s@[off + j] == p@[j],
        decreases p.len() - i,
    {
        if s[off + i] != p[i] {
            assert(t.subrange(t.len() - p.len(), t.len() as int)[i as int] != p@[i as int]);
            return false;
        }
        i = i + 1;
    }
    assert(t.subrange(t.len() - p.len(), t.len() as int) =~= p@);
    true
}

pub(crate) fn copy_from(s: &Vec<char>, start: usize, end: usize) -> (r: Vec<char>)
    requires
        start <= end <= s.len(),
    ensures
        r@ == s@.subrange(start as int, end as int),
{
    let mut out: Vec<char> = Vec::new();
    let mut i: usize = start;
    while i < end
        invariant
            start <= i <= end <= s.len(),
            out@ == s@.subrange(start as int, i as int),
        decreases end - i,
    {
        out.push(s[i]);
        i = i + 1;
    }
    out
}

/// Classify a settings file by name, as [`spec_classify`] states it.
pub fn classify_file(name: &str) -> (r: Option<(FileKind, Option<u64>)>)
    ensures
        r == spec_classify(name@),
{
    let s = chars_of(name);
    let d = ['.', 'd', 'a', 't'];
    assert(d@ == dat());
    assert(s@.subrange(0, s.len() as int) =~= s@);
    if !ends_with(&s, s.len(), &d) {
        return None;
    }
    let mut n: usize = s.len();
    while ends_with(&s, n, &d)
        invariant
            n <= s.len(),
            d@ == dat(),
            trim_suffixes(s@, dat()) == trim_suffixes(s@.subrange(0, n as int), dat()),
        decreases n,
    {
        assert(s@.subrange(0, n as int).subrange(0, n - 4) =~= s@.subrange(0, n - 4));
        n = n - 4;
    }
    let stem = copy_from(&s, 0, n);
    let cp = ['c', 'o', 'r', 'e', '_', 'c', 'h', 'a', 'r', '_'];
    let up = ['c', 'o', 'r', 'e', '_', 'u', 's', 'e', 'r', '_'];
    assert(cp@ == char_prefix());
    assert(up@ == user_prefix());
    if starts_with(&stem, &cp) {
        let rest = copy_from(&stem, 10, stem.len());
        assert(rest@ =~= stem@.skip(10));
        Some((FileKind::Char, parse_id(&rest)))
    } else if starts_with(&stem, &up) {
        let rest = copy_from(&stem, 10, stem.len());
        assert(rest@ =~= stem@.skip(10));
        Some((FileKind::User, parse_id(&rest)))
    } else {
        Some((FileKind::Other, None))
    }
}

fn parse_id(rest: &Vec<char>) -> (r: Option<u64>)
    ensures
        r == file_id(rest@),
{
    match parse_decimal_exec(rest, false, 0, u64::MAX as i128) {
        Ok(n) => Some(n as u64),
        Err(_) => None,
    }
}

/// The last position of `c` in `s`.
pub open spec fn last_index(s: Seq<char>, c: char) -> Option<int>
    decreases s.len(),
{
    if s.len() == 0 {
        None
    } else if s.last() == c {
        Some(s.len() - 1)
    } else {
        last_index(s.drop_last(), c)
    }
}

proof fn lemma_last_index(s: Seq<char>, c: char)
    ensures
        last_index(s, c) matches Some(i) ==> 0 <= i < s.len() && s[i] == c,
    decreases s.len(),
{
    if s.len() > 0 && s.last() != c {
        lemma_last_index(s.drop_last(), c);
    }
}

/// An install directory's name split into install and server: at the last
/// `_` when something follows it, else the whole name and no server.
pub open spec fn spec_split_install(name: Seq<char>) -> (Seq<char>, Seq<char>) {
    match last_index(name, '_') {
        Some(i) => if i + 1 < name.len() {
            (name.subrange(0, i), name.subrange(i + 1, name.len() as int))
        } else {
            (name, Seq::empty())
        },
        None => (name, Seq::empty()),
    }
}

pub(crate) fn string_of(c: &Vec<char>) -> (r: String)
    ensures
        r@ == c@,
{
    let mut s = String::new();
    let mut i: usize = 0;
    while i < c.len()
        invariant
            i <= c.len(),
            s@ == c@.subrange(0, i as int),
        decreases c.len() - i,
    {
        push_char(&mut s, c[i]);
        i = i + 1;
    }
    assert(c@.subrange(0, c.len() as int) =~= c@);
    s
}

/// `String::push`.
#[verifier::external_body]
pub(crate) fn push_char(s: &mut String, c: char)
    ensures
        final(s)@ == old(s)@.push(c),
{
    s.push(c);
}

/// Split an install directory's name into (install, server).
pub fn split_install(name: &str) -> (r: (String, String))
    ensures
        (r.0@, r.1@) == spec_split_install(name@),
{
    let s = chars_of(name);
    let mut i: usize = s.len();
    assert(s@.subrange(0, s.len() as int) =~= s@);
    while i > 0 && s[i - 1] != '_'
        invariant
            i <= s.len(),
            last_index(s@, '_') == last_index(s@.subrange(0, i as int), '_'),
        decreases i,
    {
        assert(s@.subrange(0, i as int).drop_last() =~= s@.subrange(0, i - 1));
        i = i - 1;
    }
    if i == 0 {
        return (string_of(&s), String::new());
    }
    assert(s@.subrange(0, i as int).last() == '_');
    if i < s.len() {
        (string_of(&copy_from(&s, 0, i - 1)), string_of(&copy_from(&s, i, s.len())))
    } else {
        (string_of(&s), String::new())
    }
}

/// A settings directory's profile name: what follows `settings_`.
pub open spec fn spec_profile_name(dir_name: Seq<char>) -> Option<Seq<char>> {
    let p = seq!['s', 'e', 't', 't', 'i', 'n', 'g', 's', '_'];
    if has_prefix(dir_name, p) {
        Some(dir_name.skip(p.len() as int))
    } else {
        None
    }
}

/// The profile a settings directory holds, `None` for other directories.
pub fn profile_name(dir_name: &str) -> (r: Option<String>)
    ensures
        match r {
            Some(p) => spec_profile_name(dir_name@) == Some(p@),
            None => spec_profile_name(dir_name@) is None,
        },
{
    let s = chars_of(dir_name);
    let p = ['s', 'e', 't', 't', 'i', 'n', 'g', 's', '_'];
    assert(p@ == seq!['s', 'e', 't', 't', 'i', 'n', 'g', 's', '_']);
    if starts_with(&s, &p) {
        let rest = copy_from(&s, 9, s.len());
        assert(rest@ =~= s@.skip(9));
        Some(string_of(&rest))
    } else {
        None
    }
}

/// Strict lexicographic order by code point (the order of `str::cmp`).
pub open spec fn text_lt(a: Seq<char>, b: Seq<char>) -> bool
    decreases a.len(),
{
    if a.len() == 0 {
        b.len() > 0
    } else if b.len() == 0 {
        false
    } else if a[0] != b[0] {
        (a[0] as u32) < (b[0] as u32)
    } else {
        text_lt(a.drop_first(), b.drop_first())
    }
}

/// Whether `a` sorts strictly before `b`.
pub fn text_precedes(a: &str, b: &str) -> (r: bool)
    ensures
        r == text_lt(a@, b@),
{
    let x = chars_of(a);
    let y = chars_of(b);
    let mut i: usize = 0;
    assert(x@.skip(0) =~= x@);
    assert(y@.skip(0) =~= y@);
    while i < x.len() && i < y.len() && x[i] == y[i]
        invariant
            i <= x.len(),
            i <= y.len(),
            text_lt(a@, b@) == text_lt(x@.skip(i as int), y@.skip(i as int)),
            x@ == a@,
            y@ == b@,
        decreases x.len() - i,
    {
        assert(x@.skip(i as int).drop_first() =~= x@.skip(i + 1));
        assert(y@.skip(i as int).drop_first() =~= y@.skip(i + 1));
        i = i + 1;
    }
    if i == x.len() {
        i < y.len()
    } else if i == y.len() {
        false
    } else {
        (x[i] as u32) < (y[i] as u32)
    }
}

/// Whether profile `a` sorts strictly before `b`: by server, then profile.
pub fn profile_precedes(a: &Profile, b: &Profile) -> (r: bool)
    ensures
        r == (text_lt(a.server@, b.server@) || (a.server@ == b.server@ && text_lt(a.profile@, b.profile@))),
{
    if text_precedes(a.server.as_str(), b.server.as_str()) {
        return true;
    }
    if text_precedes(b.server.as_str(), a.server.as_str()) {
        proof {
            lemma_text_lt_asym(b.server@, a.server@);
        }
        return false;
    }
    proof {
        lemma_text_lt_total(a.server@, b.server@);
    }
    text_precedes(a.profile.as_str(), b.profile.as_str())
}

proof fn lemma_text_lt_asym(a: Seq<char>, b: Seq<char>)
    requires
        text_lt(a, b),
    ensures
        !text_lt(b, a),
        a != b,
    decreases a.len(),
{
    if a.len() > 0 && b.len() > 0 && a[0] == b[0] {
        lemma_text_lt_asym(a.drop_first(), b.drop_first());
    }
}

proof fn lemma_text_lt_total(a: Seq<char>, b: Seq<char>)
    requires
        !text_lt(a, b),
        !text_lt(b, a),
    ensures
        a == b,
    decreases a.len(),
{
    if a.len() > 0 && b.len() > 0 {
        if a[0] == b[0] {
            lemma_text_lt_total(a.drop_first(), b.drop_first());
            assert(a =~= seq![a[0]] + a.drop_first());
            assert(b =~= seq![b[0]] + b.drop_first());
        } else {
            let x = a[0] as u32;
            let y = b[0] as u32;
            vstd::utf8::char_u32_cast(a[0], x);
            vstd::utf8::char_u32_cast(b[0], y);
        }
    } else {
        assert(a.len() == 0 && b.len() == 0);
        assert(a =~= b);
    }
}

} // verus!
