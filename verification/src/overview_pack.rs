//! Overview pack vocabulary: the colour palette a pack names colours by, the
//! `surface_id` keys of its state colours and blinks, and the errors an
//! import reports.

use vstd::prelude::*;
use vstd::string::{StringExecFns, StringSliceAdditionalSpecFns};
use vstd::utf8::*;

use crate::parse::{chars_of, decimal, decimal_text, parse_decimal, parse_decimal_exec};

verus! {

/// Why a pack could not be imported.
#[derive(Debug, Clone, PartialEq, Eq)]
pub enum PackError {
    /// The file is not valid YAML.
    Yaml { message: String },
    /// Valid YAML, but the document is not a mapping (e.g. a bare list).
    NotAMapping,
    /// A mapping with no section this build recognises.
    NotAPack,
    /// A recognised section carrying the wrong YAML shape.
    BadSection { name: String },
    /// The document has no `overview` container to write into.
    NoOverview,
}

/// What an import did, for the UI's summary line.
#[derive(Debug, Clone, PartialEq, Eq)]
pub struct PackReport {
    /// Section names actually written.
    pub applied: Vec<String>,
    /// Anything ignored or skipped, in user-facing wording.
    pub warnings: Vec<String>,
}

/// The sentence the user is shown for a pack error.
pub open spec fn pack_error_text(e: PackError) -> Seq<char> {
    match e {
        PackError::Yaml { message } => "This file is not valid YAML: "@ + message@,
        PackError::NotAMapping => "This file is not an overview pack."@,
        PackError::NotAPack => "This YAML file contains no overview pack sections."@,
        PackError::BadSection { name } => "This pack's '"@ + name@ + "' section is not a list, so it cannot be applied."@,
        PackError::NoOverview => "This file has no overview settings."@,
    }
}

impl PackError {
    /// The sentence the user is shown for this error.
    pub fn message(&self) -> (r: String)
        ensures
            r@ == pack_error_text(*self),
    {
        match self {
            PackError::Yaml { message } => {
                let mut s = String::from_str("This file is not valid YAML: ");
                s.append(message.as_str());
                s
            },
            PackError::NotAMapping => String::from_str("This file is not an overview pack."),
            PackError::NotAPack => String::from_str("This YAML file contains no overview pack sections."),
            PackError::BadSection { name } => {
                let mut s = String::from_str("This pack's '");
                s.append(name.as_str());
                s.append("' section is not a list, so it cannot be applied.");
                s
            },
            PackError::NoOverview => String::from_str("This file has no overview settings."),
        }
    }
}

// ---------------------------------------------------------------------------
// Colours. A colour is four doubles (RGBA), held as their bit patterns.
// ---------------------------------------------------------------------------

/// Whether a double's bit pattern is a NaN.
pub open spec fn is_nan_bits(x: u64) -> bool {
    (x & 0x7FF0_0000_0000_0000u64) == 0x7FF0_0000_0000_0000u64 && (x & 0x000F_FFFF_FFFF_FFFFu64) != 0
}

/// Whether a double's bit pattern is a zero of either sign.
pub open spec fn is_zero_bits(x: u64) -> bool {
    (x & 0x7FFF_FFFF_FFFF_FFFFu64) == 0
}

/// IEEE equality of two doubles given by their bit patterns: NaN equals
/// nothing, the two zeros are equal, anything else by bits.
pub open spec fn float_eq(a: u64, b: u64) -> bool {
    (!is_nan_bits(a) && a == b) || (is_zero_bits(a) && is_zero_bits(b))
}

fn float_eq_exec(a: u64, b: u64) -> (r: bool)
    ensures
        r == float_eq(a, b),
{
    let a_nan = (a & 0x7FF0_0000_0000_0000u64) == 0x7FF0_0000_0000_0000u64 && (a & 0x000F_FFFF_FFFF_FFFFu64) != 0;
    (!a_nan && a == b) || ((a & 0x7FFF_FFFF_FFFF_FFFFu64) == 0 && (b & 0x7FFF_FFFF_FFFF_FFFFu64) == 0)
}

/// The named colours a pack may use, with their RGBA bit patterns.
pub open spec fn spec_palette() -> Seq<(Seq<char>, [u64; 4])> {
    seq![
        ("black"@, [0x0u64, 0x0u64, 0x0u64, 0x3ff0000000000000u64]),
        ("blue"@, [0x3fc999999999999au64, 0x3fe0000000000000u64, 0x3ff0000000000000u64, 0x3ff0000000000000u64]),
        ("darkBlue"@, [0x0u64, 0x3fc3333333333333u64, 0x3fe3333333333333u64, 0x3ff0000000000000u64]),
        ("orange"@, [0x3ff0000000000000u64, 0x3fd6666666666666u64, 0x0u64, 0x3ff0000000000000u64]),
        ("red"@, [0x3fe8000000000000u64, 0x0u64, 0x0u64, 0x3ff0000000000000u64]),
        ("white"@, [0x3fe6666666666666u64, 0x3fe6666666666666u64, 0x3fe6666666666666u64, 0x3ff0000000000000u64]),
    ]
}

/// `p` is the palette.
pub open spec fn is_palette(p: Seq<(&'static str, [u64; 4])>) -> bool {
    &&& p.len() == spec_palette().len()
    &&& forall|i: int| 0 <= i < p.len() ==> (#[trigger] p[i]).0@ == spec_palette()[i].0 && p[i].1 == spec_palette()[i].1
}

/// The palette: black, blue, darkBlue, orange, red and white, each with its
/// RGBA as double bit patterns.
pub fn palette() -> (r: Vec<(&'static str, [u64; 4])>)
    ensures
        is_palette(r@),
{
    vec![
        ("black", [0x0u64, 0x0u64, 0x0u64, 0x3ff0000000000000u64]),
        ("blue", [0x3fc999999999999au64, 0x3fe0000000000000u64, 0x3ff0000000000000u64, 0x3ff0000000000000u64]),
        ("darkBlue", [0x0u64, 0x3fc3333333333333u64, 0x3fe3333333333333u64, 0x3ff0000000000000u64]),
        ("orange", [0x3ff0000000000000u64, 0x3fd6666666666666u64, 0x0u64, 0x3ff0000000000000u64]),
        ("red", [0x3fe8000000000000u64, 0x0u64, 0x0u64, 0x3ff0000000000000u64]),
        ("white", [0x3fe6666666666666u64, 0x3fe6666666666666u64, 0x3fe6666666666666u64, 0x3ff0000000000000u64]),
    ]
}

/// The first palette entry at or after `i` satisfying `p`.
pub open spec fn palette_find(i: int, p: spec_fn((Seq<char>, [u64; 4])) -> bool) -> Option<int>
    decreases spec_palette().len() - i,
{
    if i < 0 || i >= spec_palette().len() {
        None
    } else if p(spec_palette()[i]) {
        Some(i)
    } else {
        palette_find(i + 1, p)
    }
}

/// The RGBA a colour name stands for.
pub open spec fn spec_color_rgba(name: Seq<char>) -> Option<[u64; 4]> {
    match palette_find(0, |e: (Seq<char>, [u64; 4])| e.0 == name) {
        Some(i) => Some(spec_palette()[i].1),
        None => None,
    }
}

/// The name of a colour: exact (IEEE-equal) match only, so a colour that
/// differs in the last bit keeps no name rather than a guessed one.
pub open spec fn spec_color_name(rgba: [u64; 4]) -> Option<Seq<char>> {
    match palette_find(
        0,
        |e: (Seq<char>, [u64; 4])|
            float_eq(e.1[0], rgba[0]) && float_eq(e.1[1], rgba[1]) && float_eq(e.1[2], rgba[2])
                && float_eq(e.1[3], rgba[3]),
    ) {
        Some(i) => Some(spec_palette()[i].0),
        None => None,
    }
}

pub(crate) fn same_text(a: &Vec<char>, b: &Vec<char>) -> (r: bool)
    ensures
        r == (a@ == b@),
{
    if a.len() != b.len() {
        return false;
    }
    let mut i: usize = 0;
    while i < a.len()
        invariant
            i <= a.len(),
            a.len() == b.len(),
            forall|j: int| 0 <= j < i ==> a@[j] == b@[j],
        decreases a.len() - i,
    {
        if a[i] != b[i] {
            assert(a@[i as int] != b@[i as int]);
            return false;
        }
        i = i + 1;
    }
    assert(a@ =~= b@);
    true
}

/// The RGBA a colour name stands for.
pub fn color_rgba(name: &str) -> (r: Option<[u64; 4]>)
    ensures
        r == spec_color_rgba(name@),
{
    let p = palette();
    let n = chars_of(name);
    let ghost pred = |e: (Seq<char>, [u64; 4])| e.0 == name@;
    let mut i: usize = 0;
    while i < p.len()
        invariant
            i <= p.len(),
            is_palette(p@),
            n@ == name@,
            pred == (|e: (Seq<char>, [u64; 4])| e.0 == name@),
            palette_find(0, pred) == palette_find(i as int, pred),
        decreases p.len() - i,
    {
        let c = chars_of(p[i].0);
        if same_text(&c, &n) {
            return Some(p[i].1);
        }
        i = i + 1;
    }
    None
}

/// The name of a colour, exact match only.
pub fn color_name(rgba: [u64; 4]) -> (r: Option<&'static str>)
    ensures
        match r {
            Some(s) => spec_color_name(rgba) == Some(s@),
            None => spec_color_name(rgba) is None,
        },
{
    let p = palette();
    let ghost pred = |e: (Seq<char>, [u64; 4])|
        float_eq(e.1[0], rgba[0]) && float_eq(e.1[1], rgba[1]) && float_eq(e.1[2], rgba[2]) && float_eq(
            e.1[3],
            rgba[3],
        );
    let mut i: usize = 0;
    while i < p.len()
        invariant
            i <= p.len(),
            is_palette(p@),
            pred == (|e: (Seq<char>, [u64; 4])|
                float_eq(e.1[0], rgba[0]) && float_eq(e.1[1], rgba[1]) && float_eq(e.1[2], rgba[2]) && float_eq(
                    e.1[3],
                    rgba[3],
                )),
            palette_find(0, pred) == palette_find(i as int, pred),
        decreases p.len() - i,
    {
        let c = p[i].1;
        if float_eq_exec(c[0], rgba[0]) && float_eq_exec(c[1], rgba[1]) && float_eq_exec(c[2], rgba[2])
            && float_eq_exec(c[3], rgba[3]) {
            return Some(p[i].0);
        }
        i = i + 1;
    }
    None
}

// ---------------------------------------------------------------------------
// Surface keys: `"background_16"` is `("background", 16)`.
// ---------------------------------------------------------------------------

/// The last position of byte `x` in `b`.
pub open spec fn last_byte(b: Seq<u8>, x: u8) -> Option<int>
    decreases b.len(),
{
    if b.len() == 0 {
        None
    } else if b.last() == x {
        Some(b.len() - 1)
    } else {
        last_byte(b.drop_last(), x)
    }
}

proof fn lemma_last_byte(b: Seq<u8>, x: u8)
    ensures
        last_byte(b, x) matches Some(i) ==> 0 <= i < b.len() && b[i] == x,
    decreases b.len(),
{
    if b.len() > 0 && b.last() != x {
        lemma_last_byte(b.drop_last(), x);
    }
}

/// A surface key split at its last `_` into surface and id: `None` when
/// there is no `_`, nothing precedes it, or what follows is no i64.
pub open spec fn spec_split_surface_key(s: Seq<char>) -> Option<(Seq<char>, int)> {
    let b = encode_utf8(s);
    match last_byte(b, 0x5Fu8) {
        None => None,
        Some(j) => if j == 0 {
            None
        } else {
            match parse_decimal(decode_utf8(b.subrange(j, b.len() as int)).drop_first(), true, i64::MIN as int, i64::MAX as int) {
                Ok(n) => Some((decode_utf8(b.subrange(0, j)), n)),
                Err(_) => None,
            }
        },
    }
}

/// `"background_16"` → `("background", 16)`: split on the last `_`.
pub fn split_surface_key(s: &str) -> (r: Option<(&str, i64)>)
    ensures
        match r {
            Some((a, n)) => spec_split_surface_key(s@) == Some((a@, n as int)),
            None => spec_split_surface_key(s@) is None,
        },
{
    let b = s.as_bytes();
    let ghost bs = b@;
    proof {
        encode_utf8_valid_utf8(s@);
    }
    let mut i: usize = b.len();
    assert(bs.subrange(0, b.len() as int) =~= bs);
    while i > 0 && b[i - 1] != 0x5Fu8
        invariant
            i <= b.len(),
            bs == b@,
            last_byte(bs, 0x5Fu8) == last_byte(bs.subrange(0, i as int), 0x5Fu8),
        decreases i,
    {
        assert(bs.subrange(0, i as int).drop_last() =~= bs.subrange(0, i - 1));
        i = i - 1;
    }
    if i == 0 {
        return None;
    }
    let j = i - 1;
    assert(bs.subrange(0, i as int).last() == 0x5Fu8);
    assert(last_byte(bs, 0x5Fu8) == Some(j as int));
    if j == 0 {
        return None;
    }
    proof {
        is_char_boundary_iff_is_leading_byte(bs, j as int);
        assert(is_leading_byte_width_1(bs[j as int]));
    }
    let (surface, rest) = s.split_at(j);
    proof {
        encode_utf8_decode_utf8(surface@);
        encode_utf8_decode_utf8(rest@);
        assert(rest.spec_bytes() =~= bs.subrange(j as int, bs.len() as int));
        assert(surface.spec_bytes() =~= bs.subrange(0, j as int));
    }
    let all = chars_of(rest);
    let mut id: Vec<char> = Vec::new();
    let mut k: usize = 1;
    while k < all.len()
        invariant
            1 <= k <= all.len() || all.len() == 0,
            id@ == all@.subrange(1, k as int),
        decreases all.len() - k,
    {
        id.push(all[k]);
        k = k + 1;
    }
    proof {
        if all.len() > 0 {
            assert(id@ =~= all@.drop_first());
        } else {
            assert(id@ =~= all@.drop_first());
        }
    }
    match parse_decimal_exec(&id, true, i64::MIN as i128, i64::MAX as i128) {
        Ok(n) => Some((surface, n as i64)),
        Err(_) => None,
    }
}

/// `("flag", 9)` → `"flag_9"`.
pub open spec fn spec_join_surface_key(surface: Seq<char>, id: int) -> Seq<char> {
    surface + seq!['_'] + decimal_text(id)
}

/// `("flag", 9)` → `"flag_9"`.
pub fn join_surface_key(surface: &str, id: i64) -> (r: String)
    ensures
        r@ == spec_join_surface_key(surface@, id as int),
{
    let mut s = String::from_str(surface);
    s.append("_");
    proof {
        reveal_strlit("_");
    }
    s.append(decimal(id as i128).as_str());
    s
}

// ---------------------------------------------------------------------------
// Pack documents. A pack writes a dict as a sequence of two-element
// `[key, value]` sequences, so the only real mapping in the file is its top
// level, and a node has no mapping variant.
// ---------------------------------------------------------------------------

/// A YAML scalar or sequence of a pack.
#[derive(Debug, PartialEq)]
pub enum Node {
    Null,
    Bool(bool),
    Int(i64),
    /// A double, by its bit pattern.
    Float(u64),
    Str(String),
    /// A YAML sequence.
    List(Vec<Node>),
}

/// The mathematical model of a [`Node`].
pub enum NodeView {
    Null,
    Bool(bool),
    Int(i64),
    Float(u64),
    Str(Seq<char>),
    List(Seq<NodeView>),
}

pub open spec fn node_model(n: Node) -> NodeView
    decreases n,
{
    match n {
        Node::Null => NodeView::Null,
        Node::Bool(b) => NodeView::Bool(b),
        Node::Int(i) => NodeView::Int(i),
        Node::Float(f) => NodeView::Float(f),
        Node::Str(s) => NodeView::Str(s@),
        Node::List(items) => NodeView::List(node_seq(items@)),
    }
}

pub open spec fn node_seq(s: Seq<Node>) -> Seq<NodeView>
    decreases s,
{
    if s.len() == 0 {
        Seq::empty()
    } else {
        node_seq(s.subrange(0, s.len() - 1)).push(node_model(s[s.len() - 1]))
    }
}

impl View for Node {
    type V = NodeView;

    open spec fn view(&self) -> NodeView {
        node_model(*self)
    }
}

pub proof fn lemma_node_seq(s: Seq<Node>)
    ensures
        node_seq(s).len() == s.len(),
        forall|i: int| 0 <= i < s.len() ==> #[trigger] node_seq(s)[i] == node_model(s[i]),
    decreases s.len(),
{
    if s.len() > 0 {
        lemma_node_seq(s.subrange(0, s.len() - 1));
    }
}

/// One pack. Every section is optional: a pack carrying only `presets` is a
/// preset pack and leaves every other part of the account alone.
#[derive(Debug, PartialEq)]
pub struct Pack {
    pub sections: Vec<(String, Node)>,
    /// Section names in the file that this build does not recognise:
    /// reported to the user, never applied.
    pub ignored: Vec<String>,
}

pub struct PackView {
    pub sections: Seq<(Seq<char>, NodeView)>,
    pub ignored: Seq<Seq<char>>,
}

impl View for Pack {
    type V = PackView;

    open spec fn view(&self) -> PackView {
        PackView {
            sections: self.sections@.map_values(|e: (String, Node)| (e.0@, e.1@)),
            ignored: self.ignored@.map_values(|s: String| s@),
        }
    }
}

/// The first section at or after `i` named `name`.
pub open spec fn section_from(s: Seq<(Seq<char>, NodeView)>, name: Seq<char>, i: int) -> Option<int>
    decreases s.len() - i,
{
    if i < 0 || i >= s.len() {
        None
    } else if s[i].0 == name {
        Some(i)
    } else {
        section_from(s, name, i + 1)
    }
}

proof fn lemma_section_from(s: Seq<(Seq<char>, NodeView)>, name: Seq<char>, i: int)
    requires
        0 <= i,
    ensures
        section_from(s, name, i) matches Some(j) ==> i <= j < s.len() && s[j].0 == name,
    decreases s.len() - i,
{
    if i < s.len() {
        lemma_section_from(s, name, i + 1);
    }
}

/// The section named `name`, if the pack has one.
pub open spec fn pack_get(p: PackView, name: Seq<char>) -> Option<NodeView> {
    match section_from(p.sections, name, 0) {
        Some(i) => Some(p.sections[i].1),
        None => None,
    }
}

impl Pack {
    /// The section named `name`, if the pack has one.
    pub fn get(&self, name: &str) -> (r: Option<&Node>)
        ensures
            match r {
                Some(n) => pack_get(self@, name@) == Some(n@),
                None => pack_get(self@, name@) is None,
            },
    {
        let ghost sv = self@.sections;
        let mut i: usize = 0;
        while i < self.sections.len()
            invariant
                i <= self.sections@.len(),
                sv == self@.sections,
                sv.len() == self.sections@.len(),
                forall|j: int| 0 <= j < sv.len() ==> #[trigger] sv[j] == (self.sections@[j].0@, self.sections@[j].1@),
                section_from(sv, name@, 0) == section_from(sv, name@, i as int),
            decreases self.sections@.len() - i,
        {
            if crate::overview_tabs::text_is(&self.sections[i].0, name) {
                return Some(&self.sections[i].1);
            }
            i = i + 1;
        }
        None
    }

    /// Set section `name` to `node`, replacing the one the pack has.
    pub fn set(&mut self, name: &str, node: Node)
        ensures
            final(self)@.ignored == old(self)@.ignored,
            final(self)@.sections == match section_from(old(self)@.sections, name@, 0) {
                Some(i) => old(self)@.sections.update(i, (name@, node@)),
                None => old(self)@.sections.push((name@, node@)),
            },
    {
        let ghost sv = self@.sections;
        let mut i: usize = 0;
        while i < self.sections.len()
            invariant
                i <= self.sections@.len(),
                sv == self@.sections,
                sv.len() == self.sections@.len(),
                forall|j: int| 0 <= j < sv.len() ==> #[trigger] sv[j] == (self.sections@[j].0@, self.sections@[j].1@),
                section_from(sv, name@, 0) == section_from(sv, name@, i as int),
                self.sections@ == old(self).sections@,
                self.ignored@ == old(self).ignored@,
            decreases self.sections@.len() - i,
        {
            if crate::overview_tabs::text_is(&self.sections[i].0, name) {
                let ghost before = self.sections@;
                let mut n = node;
                std::mem::swap(&mut self.sections[i].1, &mut n);
                proof {
                    assert(self@.sections =~= sv.update(i as int, (name@, node@)));
                }
                return;
            }
            i = i + 1;
        }
        self.sections.push((String::from_str(name), node));
        proof {
            assert(self@.sections =~= sv.push((name@, node@)));
        }
    }
}

// ---------------------------------------------------------------------------
// Reading pack nodes.
// ---------------------------------------------------------------------------

/// The `[key, value]` pairs among `items`; entries of any other shape are
/// skipped.
pub open spec fn pairs_in(items: Seq<NodeView>) -> Seq<(NodeView, NodeView)>
    decreases items.len(),
{
    if items.len() == 0 {
        Seq::empty()
    } else {
        let r = pairs_in(items.drop_last());
        match items.last() {
            NodeView::List(kv) => if kv.len() == 2 {
                r.push((kv[0], kv[1]))
            } else {
                r
            },
            _ => r,
        }
    }
}

/// A pack "dict": the pairs of a sequence node; nothing for a scalar.
pub open spec fn pairs_of(n: NodeView) -> Seq<(NodeView, NodeView)> {
    match n {
        NodeView::List(items) => pairs_in(items),
        _ => Seq::empty(),
    }
}

/// The integers among `items`.
pub open spec fn ints_in(items: Seq<NodeView>) -> Seq<i64>
    decreases items.len(),
{
    if items.len() == 0 {
        Seq::empty()
    } else {
        let r = ints_in(items.drop_last());
        match items.last() {
            NodeView::Int(v) => r.push(v),
            _ => r,
        }
    }
}

pub open spec fn ints_of(n: NodeView) -> Seq<i64> {
    match n {
        NodeView::List(items) => ints_in(items),
        _ => Seq::empty(),
    }
}

/// The strings among `items`.
pub open spec fn strs_in(items: Seq<NodeView>) -> Seq<Seq<char>>
    decreases items.len(),
{
    if items.len() == 0 {
        Seq::empty()
    } else {
        let r = strs_in(items.drop_last());
        match items.last() {
            NodeView::Str(s) => r.push(s),
            _ => r,
        }
    }
}

pub open spec fn strs_of(n: NodeView) -> Seq<Seq<char>> {
    match n {
        NodeView::List(items) => strs_in(items),
        _ => Seq::empty(),
    }
}

pub open spec fn str_of(n: NodeView) -> Option<Seq<char>> {
    match n {
        NodeView::Str(s) => Some(s),
        _ => None,
    }
}

/// Read a pack "dict": a sequence of two-element sequences. Entries of any
/// other shape are skipped.
pub fn pairs(n: &Node) -> (r: Vec<(&Node, &Node)>)
    ensures
        r@.len() == pairs_of(n@).len(),
        forall|i: int| 0 <= i < r@.len() ==> ((#[trigger] r@[i]).0@, r@[i].1@) == pairs_of(n@)[i],
{
    let mut r: Vec<(&Node, &Node)> = Vec::new();
    match n {
        Node::List(items) => {
            let ghost m = node_seq(items@);
            proof {
                lemma_node_seq(items@);
            }
            let mut i: usize = 0;
            assert(m.take(0) =~= Seq::<NodeView>::empty());
            while i < items.len()
                invariant
                    i <= items.len(),
                    m == node_seq(items@),
                    m.len() == items@.len(),
                    forall|j: int| 0 <= j < items@.len() ==> #[trigger] m[j] == node_model(items@[j]),
                    r@.len() == pairs_in(m.take(i as int)).len(),
                    forall|k: int|
                        0 <= k < r@.len() ==> ((#[trigger] r@[k]).0@, r@[k].1@) == pairs_in(m.take(i as int))[k],
                decreases items.len() - i,
            {
                assert(m.take(i + 1).drop_last() =~= m.take(i as int));
                assert(m.take(i + 1).last() == m[i as int]);
                match &items[i] {
                    Node::List(kv) => {
                        proof {
                            lemma_node_seq(kv@);
                        }
                        if kv.len() == 2 {
                            r.push((&kv[0], &kv[1]));
                        }
                    },
                    _ => {},
                }
                i = i + 1;
            }
            assert(m.take(m.len() as int) =~= m);
        },
        _ => {},
    }
    r
}

/// The integers of a sequence node.
pub fn ints(n: &Node) -> (r: Vec<i64>)
    ensures
        r@ == ints_of(n@),
{
    let mut r: Vec<i64> = Vec::new();
    match n {
        Node::List(items) => {
            let ghost m = node_seq(items@);
            proof {
                lemma_node_seq(items@);
            }
            let mut i: usize = 0;
            assert(m.take(0) =~= Seq::<NodeView>::empty());
            while i < items.len()
                invariant
                    i <= items.len(),
                    m == node_seq(items@),
                    m.len() == items@.len(),
                    forall|j: int| 0 <= j < items@.len() ==> #[trigger] m[j] == node_model(items@[j]),
                    r@ == ints_in(m.take(i as int)),
                decreases items.len() - i,
            {
                assert(m.take(i + 1).drop_last() =~= m.take(i as int));
                assert(m.take(i + 1).last() == m[i as int]);
                if let Node::Int(v) = &items[i] {
                    r.push(*v);
                }
                i = i + 1;
            }
            assert(m.take(m.len() as int) =~= m);
        },
        _ => {},
    }
    r
}

/// The strings of a sequence node.
pub fn strs(n: &Node) -> (r: Vec<String>)
    ensures
        r@.len() == strs_of(n@).len(),
        forall|i: int| 0 <= i < r@.len() ==> (#[trigger] r@[i])@ == strs_of(n@)[i],
{
    let mut r: Vec<String> = Vec::new();
    match n {
        Node::List(items) => {
            let ghost m = node_seq(items@);
            proof {
                lemma_node_seq(items@);
            }
            let mut i: usize = 0;
            assert(m.take(0) =~= Seq::<NodeView>::empty());
            while i < items.len()
                invariant
                    i <= items.len(),
                    m == node_seq(items@),
                    m.len() == items@.len(),
                    forall|j: int| 0 <= j < items@.len() ==> #[trigger] m[j] == node_model(items@[j]),
                    r@.len() == strs_in(m.take(i as int)).len(),
                    forall|k: int| 0 <= k < r@.len() ==> (#[trigger] r@[k])@ == strs_in(m.take(i as int))[k],
                decreases items.len() - i,
            {
                assert(m.take(i + 1).drop_last() =~= m.take(i as int));
                assert(m.take(i + 1).last() == m[i as int]);
                if let Node::Str(s) = &items[i] {
                    r.push(String::from_str(s.as_str()));
                }
                i = i + 1;
            }
            assert(m.take(m.len() as int) =~= m);
        },
        _ => {},
    }
    r
}

/// The text of a string node.
pub fn as_str(n: &Node) -> (r: Option<&str>)
    ensures
        match r {
            Some(s) => str_of(n@) == Some(s@),
            None => str_of(n@) is None,
        },
{
    match n {
        Node::Str(s) => Some(s.as_str()),
        _ => None,
    }
}

/// Node equality as the pack reader compares nodes: doubles by IEEE
/// equality, sequences element by element.
pub open spec fn node_eq(a: NodeView, b: NodeView) -> bool
    decreases a,
{
    match (a, b) {
        (NodeView::Null, NodeView::Null) => true,
        (NodeView::Bool(x), NodeView::Bool(y)) => x == y,
        (NodeView::Int(x), NodeView::Int(y)) => x == y,
        (NodeView::Float(x), NodeView::Float(y)) => float_eq(x, y),
        (NodeView::Str(x), NodeView::Str(y)) => x == y,
        (NodeView::List(xs), NodeView::List(ys)) => xs.len() == ys.len() && forall|i: int|
            0 <= i < xs.len() ==> node_eq(#[trigger] xs[i], ys[i]),
        _ => false,
    }
}

pub fn node_eq_exec(a: &Node, b: &Node) -> (r: bool)
    ensures
        r == node_eq(a@, b@),
    decreases a@,
{
    match (a, b) {
        (Node::Null, Node::Null) => true,
        (Node::Bool(x), Node::Bool(y)) => *x == *y,
        (Node::Int(x), Node::Int(y)) => *x == *y,
        (Node::Float(x), Node::Float(y)) => float_eq_exec(*x, *y),
        (Node::Str(x), Node::Str(y)) => crate::overview_tabs::text_is(x, y.as_str()),
        (Node::List(xs), Node::List(ys)) => {
            proof {
                lemma_node_seq(xs@);
                lemma_node_seq(ys@);
            }
            if xs.len() != ys.len() {
                return false;
            }
            let mut i: usize = 0;
            while i < xs.len()
                invariant
                    i <= xs.len(),
                    xs.len() == ys.len(),
                    node_seq(xs@).len() == xs@.len(),
                    node_seq(ys@).len() == ys@.len(),
                    forall|j: int| 0 <= j < xs@.len() ==> #[trigger] node_seq(xs@)[j] == node_model(xs@[j]),
                    forall|j: int| 0 <= j < ys@.len() ==> #[trigger] node_seq(ys@)[j] == node_model(ys@[j]),
                    forall|j: int| 0 <= j < i ==> node_eq(#[trigger] node_seq(xs@)[j], node_seq(ys@)[j]),
                    a@ == NodeView::List(node_seq(xs@)),
                    b@ == NodeView::List(node_seq(ys@)),
                decreases xs.len() - i,
            {
                proof {
                    assert(node_seq(xs@)[i as int] == xs@[i as int]@);
                    assert(decreases_to!(a@ => (a@)->List_0));
                    assert(decreases_to!((a@)->List_0 => node_seq(xs@)[i as int]));
                }
                if !node_eq_exec(&xs[i], &ys[i]) {
                    assert(!node_eq(node_seq(xs@)[i as int], node_seq(ys@)[i as int]));
                    return false;
                }
                i = i + 1;
            }
            true
        },
        _ => false,
    }
}

// ---------------------------------------------------------------------------
// Reading a pack file's top level.
// ---------------------------------------------------------------------------

/// The sections a pack may carry, in the order a pack file lists them.
pub open spec fn section_names() -> Seq<Seq<char>> {
    seq![
        "backgroundOrder"@,
        "backgroundStates"@,
        "columnOrder"@,
        "flagOrder"@,
        "flagStates"@,
        "overviewColumns"@,
        "presets"@,
        "shipLabelOrder"@,
        "shipLabels"@,
        "stateBlinks"@,
        "stateColorsNameList"@,
        "tabSetup"@,
        "userSettings"@,
    ]
}

fn section_names_exec() -> (r: Vec<&'static str>)
    ensures
        r@.len() == section_names().len(),
        forall|i: int| 0 <= i < r@.len() ==> (#[trigger] r@[i])@ == section_names()[i],
{
    vec![
        "backgroundOrder",
        "backgroundStates",
        "columnOrder",
        "flagOrder",
        "flagStates",
        "overviewColumns",
        "presets",
        "shipLabelOrder",
        "shipLabels",
        "stateBlinks",
        "stateColorsNameList",
        "tabSetup",
        "userSettings",
    ]
}

/// A section name as a pack knows it. A published pack drops the `2` the
/// file's state-list keys carry; both spellings are read as the published one.
pub open spec fn canonical_section(name: Seq<char>) -> Option<Seq<char>> {
    let stripped = if name == "backgroundStates2"@ {
        "backgroundStates"@
    } else if name == "backgroundOrder2"@ {
        "backgroundOrder"@
    } else if name == "flagStates2"@ {
        "flagStates"@
    } else if name == "flagOrder2"@ {
        "flagOrder"@
    } else {
        name
    };
    if section_names().contains(stripped) {
        Some(stripped)
    } else {
        None
    }
}

fn canonical_section_exec(name: &str) -> (r: Option<&'static str>)
    ensures
        match r {
            Some(s) => canonical_section(name@) == Some(s@),
            None => canonical_section(name@) is None,
        },
{
    let stripped: &str = if crate::pack_apply::str_is(name, "backgroundStates2") {
        "backgroundStates"
    } else if crate::pack_apply::str_is(name, "backgroundOrder2") {
        "backgroundOrder"
    } else if crate::pack_apply::str_is(name, "flagStates2") {
        "flagStates"
    } else if crate::pack_apply::str_is(name, "flagOrder2") {
        "flagOrder"
    } else {
        name
    };
    let ghost st = if name@ == "backgroundStates2"@ {
        "backgroundStates"@
    } else if name@ == "backgroundOrder2"@ {
        "backgroundOrder"@
    } else if name@ == "flagStates2"@ {
        "flagStates"@
    } else if name@ == "flagOrder2"@ {
        "flagOrder"@
    } else {
        name@
    };
    assert(stripped@ == st);
    let names = section_names_exec();
    let mut i: usize = 0;
    while i < names.len()
        invariant
            i <= names@.len(),
            names@.len() == section_names().len(),
            forall|j: int| 0 <= j < names@.len() ==> (#[trigger] names@[j])@ == section_names()[j],
            forall|j: int| 0 <= j < i ==> section_names()[j] != stripped@,
            stripped@ == st,
            canonical_section(name@) == if section_names().contains(st) {
                Some(st)
            } else {
                None
            },
        decreases names@.len() - i,
    {
        if crate::pack_apply::str_is(stripped, names[i]) {
            assert(section_names()[i as int] == stripped@);
            assert(section_names().contains(stripped@));
            return Some(names[i]);
        }
        i = i + 1;
    }
    assert(!section_names().contains(stripped@));
    None
}

/// A YAML document's top level, by view: its first document's entries when
/// that is a mapping (a key that is not text gives `None`), or the parse
/// error's message.
pub open spec fn document_view(doc: Result<Option<Vec<(Option<String>, Node)>>, String>) -> Result<
    Option<Seq<(Option<Seq<char>>, NodeView)>>,
    Seq<char>,
> {
    match doc {
        Ok(Some(top)) => Ok(
            Some(
                top@.map_values(
                    |e: (Option<String>, Node)|
                        (
                            match e.0 {
                                Some(k) => Some(k@),
                                None => None,
                            },
                            e.1@,
                        ),
                ),
            ),
        ),
        Ok(None) => Ok(None),
        Err(m) => Err(m@),
    }
}

/// The pack made from a top-level mapping's entries, in order: a known
/// section (by either spelling) is kept under its published name, any other
/// text key is recorded as ignored, and a key that is not text is skipped.
pub open spec fn pack_of_entries(top: Seq<(Option<Seq<char>>, NodeView)>) -> PackView
    decreases top.len(),
{
    if top.len() == 0 {
        PackView { sections: Seq::empty(), ignored: Seq::empty() }
    } else {
        let p = pack_of_entries(top.drop_last());
        match top.last().0 {
            Some(name) => match canonical_section(name) {
                Some(sec) => PackView { sections: p.sections.push((sec, top.last().1)), ignored: p.ignored },
                None => PackView { sections: p.sections, ignored: p.ignored.push(name) },
            },
            None => p,
        }
    }
}

/// Reading a pack from a parsed YAML document: the parser's error, a
/// document that is not a mapping, or a mapping with no known section are
/// refused.
pub open spec fn spec_pack_from_document(doc: Result<Option<Seq<(Option<Seq<char>>, NodeView)>>, Seq<char>>) -> Result<
    PackView,
    crate::pack_apply::PackFailure,
> {
    match doc {
        Err(m) => Err(crate::pack_apply::PackFailure::Yaml(m)),
        Ok(None) => Err(crate::pack_apply::PackFailure::NotAMapping),
        Ok(Some(top)) => if pack_of_entries(top).sections.len() == 0 {
            Err(crate::pack_apply::PackFailure::NotAPack)
        } else {
            Ok(pack_of_entries(top))
        },
    }
}

/// The pack a parsed YAML document holds, as [`spec_pack_from_document`]
/// states it. `doc` is what the YAML parser gave: its error message, or the
/// first document's top-level entries when it is a mapping.
pub fn pack_from_document(doc: Result<Option<Vec<(Option<String>, Node)>>, String>) -> (r: Result<Pack, PackError>)
    ensures
        match r {
            Ok(p) => spec_pack_from_document(document_view(doc)) == Ok::<PackView, crate::pack_apply::PackFailure>(p@),
            Err(e) => spec_pack_from_document(document_view(doc)) == Err::<PackView, crate::pack_apply::PackFailure>(
                crate::pack_apply::failure_of(e),
            ),
        },
{
    let ghost dv = document_view(doc);
    let top = match doc {
        Err(message) => return Err(PackError::Yaml { message }),
        Ok(None) => return Err(PackError::NotAMapping),
        Ok(Some(top)) => top,
    };
    let ghost tv = dv->Ok_0->Some_0;
    let mut pack = Pack { sections: Vec::new(), ignored: Vec::new() };
    assert(pack@.sections =~= Seq::<(Seq<char>, NodeView)>::empty());
    assert(pack@.ignored =~= Seq::<Seq<char>>::empty());
    assert(tv.take(0) =~= Seq::<(Option<Seq<char>>, NodeView)>::empty());
    let mut top = top;
    let ghost top0 = top@;
    let mut i: usize = 0;
    let len = top.len();
    while i < len
        invariant
            len == top0.len(),
            i <= len,
            top@.len() == len,
            tv.len() == len,
            forall|j: int| i <= j < len ==> #[trigger] top@[j] == top0[j],
            forall|j: int|
                0 <= j < len ==> #[trigger] tv[j] == (
                    match top0[j].0 {
                        Some(k) => Some(k@),
                        None => None,
                    },
                    top0[j].1@,
                ),
            pack@ == pack_of_entries(tv.take(i as int)),
        decreases len - i,
    {
        assert(tv.take(i + 1).drop_last() =~= tv.take(i as int));
        assert(tv.take(i + 1).last() == tv[i as int]);
        let mut entry: (Option<String>, Node) = (None, Node::Null);
        std::mem::swap(&mut entry, &mut top[i]);
        let (key, node) = entry;
        match key {
            Some(name) => match canonical_section_exec(name.as_str()) {
                Some(sec) => {
                    let ghost ps = pack@.sections;
                    pack.sections.push((String::from_str(sec), node));
                    proof {
                        assert(pack@.sections =~= ps.push((sec@, top0[i as int].1@)));
                    }
                },
                None => {
                    let ghost pi = pack@.ignored;
                    pack.ignored.push(name);
                    proof {
                        assert(pack@.ignored =~= pi.push(tv[i as int].0->Some_0));
                    }
                },
            },
            None => {},
        }
        i = i + 1;
    }
    assert(tv.take(len as int) =~= tv);
    if pack.sections.len() == 0 {
        return Err(PackError::NotAPack);
    }
    Ok(pack)
}

} // verus!
