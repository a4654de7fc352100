//! A small big-endian pull parser over an owned byte buffer.
//!
//! Integers are read most significant byte first; a string is a one-byte
//! length followed by that many bytes, each taken as one character. A read
//! past the end answers `UnexpectedEOF`; fixed-width reads consume nothing
//! then, while a string read keeps what it had consumed so far.

use vstd::prelude::*;

use crate::{be16, be32};

verus! {

/// What can go wrong while parsing.
#[derive(Debug, Clone, PartialEq, Eq)]
pub enum Error {
    TrailingData { buffer: Vec<u8> },
    UnexpectedEOF,
    ExpectedU32,
    ValueReadFailed,
    Other(String),
}

/// Big-endian value of eight bytes.
pub open spec fn be64(
    b0: u8,
    b1: u8,
    b2: u8,
    b3: u8,
    b4: u8,
    b5: u8,
    b6: u8,
    b7: u8,
) -> u64 {
    ((be32(b0, b1, b2, b3) as u64) * 0x100000000 + (be32(b4, b5, b6, b7) as u64)) as u64
}

/// Each byte read as one character.
pub open spec fn chars_of(bytes: Seq<u8>) -> Seq<char> {
    bytes.map_values(|b: u8| b as char)
}

/// Relies on `String::push`: it appends exactly the one character given.
#[verifier::external_body]
fn push_char(s: &mut String, c: char)
    ensures
        final(s)@ == old(s)@.push(c),
{
    s.push(c);
}

/// The parser: a byte buffer and how far into it reading has come.
#[derive(Debug)]
pub struct Protohackers {
    data: Vec<u8>,
    pos: usize,
}

impl Protohackers {
    /// The bytes being parsed.
    pub closed spec fn buf(&self) -> Seq<u8> {
        self.data@
    }

    /// How many bytes have been consumed.
    pub closed spec fn pos(&self) -> int {
        self.pos as int
    }

    /// The cursor never leaves the buffer.
    pub open spec fn wf(&self) -> bool {
        0 <= self.pos() <= self.buf().len()
    }

    /// A parser over the given bytes, at their start.
    pub fn from_bytes(data: Vec<u8>) -> (r: Self)
        ensures
            r.buf() == data@,
            r.pos() == 0,
            r.wf(),
    {
        Protohackers { data, pos: 0 }
    }

    /// The next byte, without consuming it.
    pub fn peek_u8(&mut self) -> (r: Result<u8, Error>)
        requires
            old(self).wf(),
        ensures
            *final(self) == *old(self),
            match r {
                Ok(b) => old(self).pos() < old(self).buf().len() && b == old(self).buf()[old(
                    self,
                ).pos()],
                Err(e) => old(self).pos() == old(self).buf().len() && e == Error::UnexpectedEOF,
            },
    {
        if self.pos < self.data.len() {
            Ok(self.data[self.pos])
        } else {
            Err(Error::UnexpectedEOF)
        }
    }

    /// One byte.
    pub fn parse_u8(&mut self) -> (r: Result<u8, Error>)
        requires
            old(self).wf(),
        ensures
            final(self).wf(),
            final(self).buf() == old(self).buf(),
            match r {
                Ok(b) => {
                    &&& old(self).pos() < old(self).buf().len()
                    &&& b == old(self).buf()[old(self).pos()]
                    &&& final(self).pos() == old(self).pos() + 1
                },
                Err(e) => {
                    &&& old(self).pos() == old(self).buf().len()
                    &&& e == Error::UnexpectedEOF
                    &&& final(self).pos() == old(self).pos()
                },
            },
    {
        if self.pos < self.data.len() {
            let b = self.data[self.pos];
            self.pos = self.pos + 1;
            Ok(b)
        } else {
            Err(Error::UnexpectedEOF)
        }
    }

    /// Two bytes, most significant first.
    pub fn parse_u16(&mut self) -> (r: Result<u16, Error>)
        requires
            old(self).wf(),
        ensures
            final(self).wf(),
            final(self).buf() == old(self).buf(),
            match r {
                Ok(v) => {
                    &&& old(self).pos() + 2 <= old(self).buf().len()
                    &&& v == be16(
                        old(self).buf()[old(self).pos()],
                        old(self).buf()[old(self).pos() + 1],
                    )
                    &&& final(self).pos() == old(self).pos() + 2
                },
                Err(e) => {
                    &&& old(self).pos() + 2 > old(self).buf().len()
                    &&& e == Error::UnexpectedEOF
                    &&& final(self).pos() == old(self).pos()
                },
            },
    {
        if self.data.len() - self.pos >= 2 {
            let v: u16 = (self.data[self.pos] as u16) * 256 + (self.data[self.pos + 1] as u16);
            self.pos = self.pos + 2;
            Ok(v)
        } else {
            Err(Error::UnexpectedEOF)
        }
    }

    /// Four bytes, most significant first.
    pub fn parse_u32(&mut self) -> (r: Result<u32, Error>)
        requires
            old(self).wf(),
        ensures
            final(self).wf(),
            final(self).buf() == old(self).buf(),
            match r {
                Ok(v) => {
                    &&& old(self).pos() + 4 <= old(self).buf().len()
                    &&& v == be32(
                        old(self).buf()[old(self).pos()],
                        old(self).buf()[old(self).pos() + 1],
                        old(self).buf()[old(self).pos() + 2],
                        old(self).buf()[old(self).pos() + 3],
                    )
                    &&& final(self).pos() == old(self).pos() + 4
                },
                Err(e) => {
                    &&& old(self).pos() + 4 > old(self).buf().len()
                    &&& e == Error::UnexpectedEOF
                    &&& final(self).pos() == old(self).pos()
                },
            },
    {
        if self.data.len() - self.pos >= 4 {
            let hi: u32 = (self.data[self.pos] as u32) * 256 + (self.data[self.pos + 1] as u32);
            let lo: u32 = (self.data[self.pos + 2] as u32) * 256 + (self.data[self.pos + 3]
                as u32);
            self.pos = self.pos + 4;
            Ok(hi * 65536 + lo)
        } else {
            Err(Error::UnexpectedEOF)
        }
    }

    /// Eight bytes, most significant first.
    pub fn parse_u64(&mut self) -> (r: Result<u64, Error>)
        requires
            old(self).wf(),
        ensures
            final(self).wf(),
            final(self).buf() == old(self).buf(),
            match r {
                Ok(v) => {
                    &&& old(self).pos() + 8 <= old(self).buf().len()
                    &&& v == be64(
                        old(self).buf()[old(self).pos()],
                        old(self).buf()[old(self).pos() + 1],
                        old(self).buf()[old(self).pos() + 2],
                        old(self).buf()[old(self).pos() + 3],
                        old(self).buf()[old(self).pos() + 4],
                        old(self).buf()[old(self).pos() + 5],
                        old(self).buf()[old(self).pos() + 6],
                        old(self).buf()[old(self).pos() + 7],
                    )
                    &&& final(self).pos() == old(self).pos() + 8
                },
                Err(e) => {
                    &&& old(self).pos() + 8 > old(self).buf().len()
                    &&& e == Error::UnexpectedEOF
                    &&& final(self).pos() == old(self).pos()
                },
            },
    {
        if self.data.len() - self.pos >= 8 {
            let b = &self.data;
            let p = self.pos;
            let hi1: u32 = (b[p] as u32) * 256 + (b[p + 1] as u32);
            let lo1: u32 = (b[p + 2] as u32) * 256 + (b[p + 3] as u32);
            let hi2: u32 = (b[p + 4] as u32) * 256 + (b[p + 5] as u32);
            let lo2: u32 = (b[p + 6] as u32) * 256 + (b[p + 7] as u32);
            let first: u32 = hi1 * 65536 + lo1;
            let second: u32 = hi2 * 65536 + lo2;
            self.pos = p + 8;
            Ok((first as u64) * 0x100000000 + (second as u64))
        } else {
            Err(Error::UnexpectedEOF)
        }
    }

    /// One byte, as the character with that code point.
    pub fn parse_char(&mut self) -> (r: Result<char, Error>)
        requires
            old(self).wf(),
        ensures
            final(self).wf(),
            final(self).buf() == old(self).buf(),
            match r {
                Ok(c) => {
                    &&& old(self).pos() < old(self).buf().len()
                    &&& c == old(self).buf()[old(self).pos()] as char
                    &&& final(self).pos() == old(self).pos() + 1
                },
                Err(e) => {
                    &&& old(self).pos() == old(self).buf().len()
                    &&& e == Error::UnexpectedEOF
                    &&& final(self).pos() == old(self).pos()
                },
            },
    {
        match self.parse_u8() {
            Ok(b) => Ok(b as char),
            Err(e) => Err(e),
        }
    }

    /// A length-prefixed string: one length byte, then that many bytes,
    /// each read as one character. A string cut short consumes everything
    /// it found before failing.
    pub fn parse_str(&mut self) -> (r: Result<String, Error>)
        requires
            old(self).wf(),
        ensures
            final(self).wf(),
            final(self).buf() == old(self).buf(),
            match r {
                Ok(s) => {
                    &&& old(self).pos() < old(self).buf().len()
                    &&& old(self).pos() + 1 + (old(self).buf()[old(self).pos()] as int) <= old(
                        self,
                    ).buf().len()
                    &&& s@ == chars_of(
                        old(self).buf().subrange(
                            old(self).pos() + 1,
                            old(self).pos() + 1 + (old(self).buf()[old(self).pos()] as int),
                        ),
                    )
                    &&& final(self).pos() == old(self).pos() + 1 + (old(self).buf()[old(
                        self,
                    ).pos()] as int)
                },
                Err(e) => {
                    &&& e == Error::UnexpectedEOF
                    &&& (old(self).pos() == old(self).buf().len() || old(self).pos() + 1 + (old(
                        self,
                    ).buf()[old(self).pos()] as int) > old(self).buf().len())
                    &&& final(self).pos() == old(self).buf().len()
                },
            },
    {
        let l = match self.parse_u8() {
            Ok(l) => l,
            Err(e) => {
                return Err(e);
            },
        };
        let ghost start = self.pos();
        let mut s = String::new();
        let mut k: usize = 0;
        while k < l as usize
            invariant
                self.wf(),
                k <= l as usize,
                self.buf() == old(self).buf(),
                old(self).pos() < old(self).buf().len(),
                start == old(self).pos() + 1,
                l == old(self).buf()[old(self).pos()],
                self.pos() == start + k,
                start + k <= self.buf().len(),
                s@ == chars_of(self.buf().subrange(start, start + k)),
            decreases l as int - k,
        {
            let c = match self.parse_char() {
                Ok(c) => c,
                Err(e) => {
                    return Err(e);
                },
            };
            push_char(&mut s, c);
            proof {
                assert(self.buf().subrange(start, start + k + 1) =~= self.buf().subrange(
                    start,
                    start + k,
                ).push(self.buf()[start + k]));
                assert(chars_of(self.buf().subrange(start, start + k + 1)) =~= chars_of(
                    self.buf().subrange(start, start + k),
                ).push(self.buf()[start + k] as char));
            }
            k = k + 1;
        }
        Ok(s)
    }
}

} // verus!
