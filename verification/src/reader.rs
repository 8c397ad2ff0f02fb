//! A cursor over a byte slice with little-endian scalar reads. Every read that
//! would run past the end fails with `UnexpectedEof` at the current offset and
//! leaves the cursor where it was.

use vstd::bytes::*;
use vstd::prelude::*;

use crate::error::{DecodeError, ErrorKind};

verus! {

broadcast use vstd::slice::group_slice_axioms;

/// The end-of-input error at offset `pos`.
pub open spec fn eof_at(pos: nat) -> DecodeError {
    DecodeError { offset: pos as usize, kind: ErrorKind::UnexpectedEof }
}

/// Reading `n` raw bytes of `d` at `pos`: the next position and the bytes.
pub open spec fn spec_read_bytes(d: Seq<u8>, pos: nat, n: nat) -> Result<(nat, Seq<u8>), DecodeError> {
    if pos + n > d.len() {
        Err(eof_at(pos))
    } else {
        Ok(((pos + n) as nat, d.subrange(pos as int, (pos + n) as int)))
    }
}

pub open spec fn spec_read_u8(d: Seq<u8>, pos: nat) -> Result<(nat, u8), DecodeError> {
    match spec_read_bytes(d, pos, 1) {
        Ok((p, s)) => Ok((p, s[0])),
        Err(e) => Err(e),
    }
}

pub open spec fn spec_read_u16(d: Seq<u8>, pos: nat) -> Result<(nat, u16), DecodeError> {
    match spec_read_bytes(d, pos, 2) {
        Ok((p, s)) => Ok((p, spec_u16_from_le_bytes(s))),
        Err(e) => Err(e),
    }
}

pub open spec fn spec_read_u32(d: Seq<u8>, pos: nat) -> Result<(nat, u32), DecodeError> {
    match spec_read_bytes(d, pos, 4) {
        Ok((p, s)) => Ok((p, spec_u32_from_le_bytes(s))),
        Err(e) => Err(e),
    }
}

pub open spec fn spec_read_u64(d: Seq<u8>, pos: nat) -> Result<(nat, u64), DecodeError> {
    match spec_read_bytes(d, pos, 8) {
        Ok((p, s)) => Ok((p, spec_u64_from_le_bytes(s))),
        Err(e) => Err(e),
    }
}

/// Blue length encoding: one byte, or 0xFF followed by a u32 LE.
pub open spec fn spec_read_len(d: Seq<u8>, pos: nat) -> Result<(nat, usize), DecodeError> {
    match spec_read_u8(d, pos) {
        Err(e) => Err(e),
        Ok((p, b)) => if b == 0xFF {
            match spec_read_u32(d, p) {
                Ok((p2, v)) => Ok((p2, v as usize)),
                Err(e) => Err(e),
            }
        } else {
            Ok((p, b as usize))
        },
    }
}

pub struct Reader<'a> {
    data: &'a [u8],
    pos: usize,
}

impl<'a> Reader<'a> {
    /// The bytes read from.
    pub closed spec fn bytes(&self) -> Seq<u8> {
        self.data@
    }

    /// The current offset.
    pub closed spec fn at(&self) -> nat {
        self.pos as nat
    }

    pub open spec fn wf(&self) -> bool {
        self.at() <= self.bytes().len()
    }

    pub fn new(data: &'a [u8]) -> (r: Self)
        ensures
            r.bytes() == data@,
            r.at() == 0,
            r.wf(),
    {
        Self { data, pos: 0 }
    }

    pub fn pos(&self) -> (p: usize)
        ensures
            p == self.at(),
    {
        self.pos
    }

    pub fn remaining(&self) -> (n: usize)
        requires
            self.wf(),
        ensures
            n == self.bytes().len() - self.at(),
    {
        self.data.len() - self.pos
    }

    fn err(&self, kind: ErrorKind) -> (e: DecodeError)
        ensures
            e == (DecodeError { offset: self.pos, kind }),
    {
        DecodeError { offset: self.pos, kind }
    }

    pub fn read_bytes(&mut self, n: usize) -> (r: Result<&'a [u8], DecodeError>)
        requires
            old(self).wf(),
        ensures
            final(self).wf(),
            final(self).bytes() == old(self).bytes(),
            match spec_read_bytes(old(self).bytes(), old(self).at(), n as nat) {
                Ok((p, s)) => r matches Ok(x) && x@ == s && final(self).at() == p,
                Err(e) => r matches Err(e2) && e2 == e && final(self).at() == old(self).at(),
            },
    {
        let len = self.data.len();
        if len - self.pos < n {
            return Err(self.err(ErrorKind::UnexpectedEof));
        }
        let end = self.pos + n;
        let s = &self.data[self.pos..end];
        self.pos = end;
        Ok(s)
    }

    pub fn read_u8(&mut self) -> (r: Result<u8, DecodeError>)
        requires
            old(self).wf(),
        ensures
            final(self).wf(),
            final(self).bytes() == old(self).bytes(),
            match spec_read_u8(old(self).bytes(), old(self).at()) {
                Ok((p, v)) => r == Ok::<u8, DecodeError>(v) && final(self).at() == p,
                Err(e) => r == Err::<u8, DecodeError>(e) && final(self).at() == old(self).at(),
            },
    {
        let s = self.read_bytes(1)?;
        Ok(s[0])
    }

    /// The next byte, without consuming it.
    pub fn peek_u8(&self) -> (r: Result<u8, DecodeError>)
        requires
            self.wf(),
        ensures
            match spec_read_u8(self.bytes(), self.at()) {
                Ok((_, v)) => r == Ok::<u8, DecodeError>(v),
                Err(e) => r == Err::<u8, DecodeError>(e),
            },
    {
        if self.pos < self.data.len() {
            Ok(self.data[self.pos])
        } else {
            Err(self.err(ErrorKind::UnexpectedEof))
        }
    }

    pub fn read_u16(&mut self) -> (r: Result<u16, DecodeError>)
        requires
            old(self).wf(),
        ensures
            final(self).wf(),
            final(self).bytes() == old(self).bytes(),
            match spec_read_u16(old(self).bytes(), old(self).at()) {
                Ok((p, v)) => r == Ok::<u16, DecodeError>(v) && final(self).at() == p,
                Err(e) => r == Err::<u16, DecodeError>(e) && final(self).at() == old(self).at(),
            },
    {
        let s = self.read_bytes(2)?;
        Ok(u16_from_le_bytes(s))
    }

    pub fn read_u32(&mut self) -> (r: Result<u32, DecodeError>)
        requires
            old(self).wf(),
        ensures
            final(self).wf(),
            final(self).bytes() == old(self).bytes(),
            match spec_read_u32(old(self).bytes(), old(self).at()) {
                Ok((p, v)) => r == Ok::<u32, DecodeError>(v) && final(self).at() == p,
                Err(e) => r == Err::<u32, DecodeError>(e) && final(self).at() == old(self).at(),
            },
    {
        let s = self.read_bytes(4)?;
        Ok(u32_from_le_bytes(s))
    }

    pub fn read_u64(&mut self) -> (r: Result<u64, DecodeError>)
        requires
            old(self).wf(),
        ensures
            final(self).wf(),
            final(self).bytes() == old(self).bytes(),
            match spec_read_u64(old(self).bytes(), old(self).at()) {
                Ok((p, v)) => r == Ok::<u64, DecodeError>(v) && final(self).at() == p,
                Err(e) => r == Err::<u64, DecodeError>(e) && final(self).at() == old(self).at(),
            },
    {
        let s = self.read_bytes(8)?;
        Ok(u64_from_le_bytes(s))
    }

    pub fn read_i64(&mut self) -> (r: Result<i64, DecodeError>)
        requires
            old(self).wf(),
        ensures
            final(self).wf(),
            final(self).bytes() == old(self).bytes(),
            match spec_read_u64(old(self).bytes(), old(self).at()) {
                Ok((p, v)) => r == Ok::<i64, DecodeError>(v as i64) && final(self).at() == p,
                Err(e) => r == Err::<i64, DecodeError>(e) && final(self).at() == old(self).at(),
            },
    {
        let v = self.read_u64()?;
        Ok(v as i64)
    }

    /// Blue length encoding: one byte, or 0xFF followed by a u32 LE.
    pub fn read_len(&mut self) -> (r: Result<usize, DecodeError>)
        requires
            old(self).wf(),
        ensures
            final(self).wf(),
            final(self).bytes() == old(self).bytes(),
            match spec_read_len(old(self).bytes(), old(self).at()) {
                Ok((p, v)) => r == Ok::<usize, DecodeError>(v) && final(self).at() == p,
                Err(e) => r == Err::<usize, DecodeError>(e) && final(self).at() == if old(self).at()
                    < old(self).bytes().len() {
                    old(self).at() + 1
                } else {
                    old(self).at()
                },
            },
    {
        let b = self.read_u8()?;
        if b == 0xFF {
            let v = self.read_u32()?;
            Ok(v as usize)
        } else {
            Ok(b as usize)
        }
    }
}

} // verus!
