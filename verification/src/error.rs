//! Error types of the codec.

use vstd::prelude::*;
use vstd::string::StringExecFns;

use crate::parse::{decimal, quoted};

verus! {

/// A decode failure, with the byte offset in the input where it happened.
#[derive(Debug, Clone, PartialEq, Eq)]
pub struct DecodeError {
    /// Byte offset in the input where decoding failed.
    pub offset: usize,
    pub kind: ErrorKind,
}

#[derive(Debug, Clone, PartialEq, Eq)]
pub enum ErrorKind {
    BadMagic(u8),
    UnexpectedEof,
    UnknownOpcode(u8),
    BadRef(usize),
    BadStringRef(usize),
    BadUtf8,
    Unsupported(&'static str),
    /// Bytes remained between the end of the root object and the tail map.
    TrailingBytes(usize),
    /// The header declared more shared-map entries than shared objects
    /// actually occurred in the stream.
    UnconsumedSharedMap { declared: usize, stored: usize },
    /// A tail-map slot number appeared more than once.
    DuplicateSharedSlot(usize),
}

/// An encode failure.
#[derive(Debug, Clone, PartialEq, Eq)]
pub struct EncodeError {
    pub kind: EncodeErrorKind,
}

#[derive(Debug, Clone, PartialEq, Eq)]
pub enum EncodeErrorKind {
    /// Object hierarchy deeper than `MAX_DEPTH`.
    TooDeep,
    /// A length, count, or shared-map size exceeds the wire format's i32 range.
    TooLong(usize),
    /// A shared store was requested on a node whose opcode does not store.
    NotStorable(&'static str),
    /// A tail-map slot number outside `1..=shared_count`.
    SlotOutOfRange { slot: u32, count: usize },
    /// A `Ref` appeared before the `Shared` node storing its slot completed.
    RefBeforeStore(u32),
    /// `StrTable(0)`: wire index 0 is rejected by the decoder.
    BadTableIndex,
    /// Two `Shared` nodes of one stream claim the same tail-map slot: the
    /// decoder rejects such a stream, so it is never written.
    DuplicateSlot(u32),
}


/// A decode failure's kind as `{:?}` prints it.
pub open spec fn error_kind_text(kind: ErrorKind) -> Seq<char> {
    match kind {
        ErrorKind::BadMagic(b) => "BadMagic("@ + crate::parse::decimal_text(b as int) + ")"@,
        ErrorKind::UnexpectedEof => "UnexpectedEof"@,
        ErrorKind::UnknownOpcode(b) => "UnknownOpcode("@ + crate::parse::decimal_text(b as int) + ")"@,
        ErrorKind::BadRef(n) => "BadRef("@ + crate::parse::decimal_text(n as int) + ")"@,
        ErrorKind::BadStringRef(n) => "BadStringRef("@ + crate::parse::decimal_text(n as int) + ")"@,
        ErrorKind::BadUtf8 => "BadUtf8"@,
        ErrorKind::Unsupported(what) => "Unsupported("@ + crate::parse::debug_quoted(what@) + ")"@,
        ErrorKind::TrailingBytes(n) => "TrailingBytes("@ + crate::parse::decimal_text(n as int) + ")"@,
        ErrorKind::UnconsumedSharedMap { declared, stored } => "UnconsumedSharedMap { declared: "@
            + crate::parse::decimal_text(declared as int) + ", stored: "@ + crate::parse::decimal_text(stored as int)
            + " }"@,
        ErrorKind::DuplicateSharedSlot(n) => "DuplicateSharedSlot("@ + crate::parse::decimal_text(n as int) + ")"@,
    }
}

/// The text of a decode failure: `decode error at offset `, the offset in
/// hexadecimal, and the kind as `{:?}` prints it.
pub open spec fn decode_error_text(offset: usize, kind: ErrorKind) -> Seq<char> {
    "decode error at offset "@ + crate::parse::hex_text(offset as nat) + ": "@ + error_kind_text(kind)
}

/// An encode failure's kind as `{:?}` prints it.
pub open spec fn encode_kind_text(kind: EncodeErrorKind) -> Seq<char> {
    match kind {
        EncodeErrorKind::TooDeep => "TooDeep"@,
        EncodeErrorKind::TooLong(n) => "TooLong("@ + crate::parse::decimal_text(n as int) + ")"@,
        EncodeErrorKind::NotStorable(what) => "NotStorable("@ + crate::parse::debug_quoted(what@) + ")"@,
        EncodeErrorKind::SlotOutOfRange { slot, count } => "SlotOutOfRange { slot: "@ + crate::parse::decimal_text(
            slot as int,
        ) + ", count: "@ + crate::parse::decimal_text(count as int) + " }"@,
        EncodeErrorKind::RefBeforeStore(slot) => "RefBeforeStore("@ + crate::parse::decimal_text(slot as int) + ")"@,
        EncodeErrorKind::BadTableIndex => "BadTableIndex"@,
        EncodeErrorKind::DuplicateSlot(slot) => "DuplicateSlot("@ + crate::parse::decimal_text(slot as int) + ")"@,
    }
}

/// The text of an encode failure: `encode error: ` and the kind as `{:?}`
/// prints it.
pub open spec fn encode_error_text(kind: EncodeErrorKind) -> Seq<char> {
    "encode error: "@ + encode_kind_text(kind)
}

/// `a`, then `b` in round brackets.
fn wrapped(a: &str, b: String) -> (r: String)
    ensures
        r@ == a@ + b@ + ")"@,
{
    let mut s = String::from_str(a);
    s.append(b.as_str());
    s.append(")");
    s
}

fn error_kind_string(kind: &ErrorKind) -> (r: String)
    ensures
        r@ == error_kind_text(*kind),
{
    match kind {
        ErrorKind::BadMagic(b) => wrapped("BadMagic(", decimal(*b as i128)),
        ErrorKind::UnexpectedEof => String::from_str("UnexpectedEof"),
        ErrorKind::UnknownOpcode(b) => wrapped("UnknownOpcode(", decimal(*b as i128)),
        ErrorKind::BadRef(n) => wrapped("BadRef(", decimal(*n as i128)),
        ErrorKind::BadStringRef(n) => wrapped("BadStringRef(", decimal(*n as i128)),
        ErrorKind::BadUtf8 => String::from_str("BadUtf8"),
        ErrorKind::Unsupported(what) => wrapped("Unsupported(", quoted(what)),
        ErrorKind::TrailingBytes(n) => wrapped("TrailingBytes(", decimal(*n as i128)),
        ErrorKind::UnconsumedSharedMap { declared, stored } => {
            let mut s = String::from_str("UnconsumedSharedMap { declared: ");
            s.append(decimal(*declared as i128).as_str());
            s.append(", stored: ");
            s.append(decimal(*stored as i128).as_str());
            s.append(" }");
            s
        },
        ErrorKind::DuplicateSharedSlot(n) => wrapped("DuplicateSharedSlot(", decimal(*n as i128)),
    }
}

fn encode_kind_string(kind: &EncodeErrorKind) -> (r: String)
    ensures
        r@ == encode_kind_text(*kind),
{
    match kind {
        EncodeErrorKind::TooDeep => String::from_str("TooDeep"),
        EncodeErrorKind::TooLong(n) => wrapped("TooLong(", decimal(*n as i128)),
        EncodeErrorKind::NotStorable(what) => wrapped("NotStorable(", quoted(what)),
        EncodeErrorKind::SlotOutOfRange { slot, count } => {
            let mut s = String::from_str("SlotOutOfRange { slot: ");
            s.append(decimal(*slot as i128).as_str());
            s.append(", count: ");
            s.append(decimal(*count as i128).as_str());
            s.append(" }");
            s
        },
        EncodeErrorKind::RefBeforeStore(slot) => wrapped("RefBeforeStore(", decimal(*slot as i128)),
        EncodeErrorKind::DuplicateSlot(slot) => wrapped("DuplicateSlot(", decimal(*slot as i128)),
        EncodeErrorKind::BadTableIndex => String::from_str("BadTableIndex"),
    }
}

impl DecodeError {
    /// The failure's text: `decode error at offset 0x..: ` and its kind.
    pub fn message(&self) -> (r: String)
        ensures
            r@ == decode_error_text(self.offset, self.kind),
    {
        let mut s = String::from_str("decode error at offset ");
        s.append(crate::parse::hex(self.offset).as_str());
        s.append(": ");
        s.append(error_kind_string(&self.kind).as_str());
        s
    }
}

impl EncodeError {
    /// The failure's text: `encode error: ` and its kind.
    pub fn message(&self) -> (r: String)
        ensures
            r@ == encode_error_text(self.kind),
    {
        let mut s = String::from_str("encode error: ");
        s.append(encode_kind_string(&self.kind).as_str());
        s
    }
}

} // verus!
