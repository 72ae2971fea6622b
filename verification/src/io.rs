//! Writing integers big-endian to anything that takes bytes at its end,
//! and reading them back from anything that hands bytes out in order.

use vstd::prelude::*;
use vstd::slice::{slice_subrange, slice_to_vec};
use crate::endian::{
    be_digits, be_u32, be_u64, be_value, from_be_u32, from_be_u64, get_u32, get_u64, put_u32,
    put_u64,
};

verus! {

/// A sink that takes bytes at its end and knows how many it has taken.
pub trait WriteExt {
    /// Everything written so far.
    spec fn written(&self) -> Seq<u8>;

    /// The number of bytes written so far.
    fn position(&mut self) -> (pos: u64)
        ensures
            pos == old(self).written().len(),
            final(self).written() == old(self).written(),
    ;

    /// Writes `bytes` at the end, and tells where they begin.
    fn write(&mut self, bytes: &[u8]) -> (offset: u64)
        ensures
            offset == old(self).written().len(),
            final(self).written() == old(self).written() + bytes@,
    ;

    /// Writes one byte.
    fn write_u8(&mut self, val: u8) -> (offset: u64)
        ensures
            offset == old(self).written().len(),
            final(self).written() == old(self).written().push(val),
    {
        let mut bytes: Vec<u8> = Vec::new();
        bytes.push(val);
        let offset = self.write(bytes.as_slice());
        assert(old(self).written() + bytes@ =~= old(self).written().push(val));
        offset
    }

    /// Writes `val` in two bytes, most significant first.
    fn write_u16(&mut self, val: u16) -> (offset: u64)
        ensures
            offset == old(self).written().len(),
            final(self).written() == old(self).written() + be_digits(val as nat, 2),
    {
        let mut bytes: Vec<u8> = Vec::new();
        bytes.push((val / 256) as u8);
        bytes.push((val % 256) as u8);
        proof {
            reveal_with_fuel(be_digits, 3);
            assert(bytes@ =~= be_digits(val as nat, 2));
        }
        self.write(bytes.as_slice())
    }

    /// Writes `val` in four bytes, most significant first.
    fn write_u32(&mut self, val: u32) -> (offset: u64)
        ensures
            offset == old(self).written().len(),
            final(self).written() == old(self).written() + be_u32(val),
    {
        let mut bytes: Vec<u8> = Vec::new();
        put_u32(&mut bytes, val);
        assert(bytes@ =~= be_u32(val));
        self.write(bytes.as_slice())
    }

    /// Writes `val` in eight bytes, most significant first.
    fn write_u64(&mut self, val: u64) -> (offset: u64)
        ensures
            offset == old(self).written().len(),
            final(self).written() == old(self).written() + be_u64(val),
    {
        let mut bytes: Vec<u8> = Vec::new();
        put_u64(&mut bytes, val);
        assert(bytes@ =~= be_u64(val));
        self.write(bytes.as_slice())
    }
}

/// A source that hands out its bytes in order.
pub trait ReadExt {
    /// The bytes not read yet.
    spec fn unread(&self) -> Seq<u8>;

    /// Reads the next `n` bytes. Where fewer are left, nothing is read.
    fn read(&mut self, n: usize) -> (r: Option<Vec<u8>>)
        ensures
            match r {
                Some(bytes) => {
                    &&& n <= old(self).unread().len()
                    &&& bytes@ == old(self).unread().take(n as int)
                    &&& final(self).unread() == old(self).unread().skip(n as int)
                },
                None => old(self).unread().len() < n && final(self).unread() == old(
                    self,
                ).unread(),
            },
    ;

    /// Reads one byte.
    fn read_u8(&mut self) -> (r: Option<u8>)
        ensures
            match r {
                Some(val) => {
                    &&& 1 <= old(self).unread().len()
                    &&& val == old(self).unread()[0]
                    &&& final(self).unread() == old(self).unread().skip(1)
                },
                None => old(self).unread().len() < 1 && final(self).unread() == old(
                    self,
                ).unread(),
            },
    {
        match self.read(1) {
            Some(bytes) => Some(bytes[0]),
            None => None,
        }
    }

    /// Reads a number of two bytes, most significant first.
    fn read_u16(&mut self) -> (r: Option<u16>)
        ensures
            match r {
                Some(val) => {
                    &&& 2 <= old(self).unread().len()
                    &&& val == be_value(old(self).unread().take(2))
                    &&& final(self).unread() == old(self).unread().skip(2)
                },
                None => old(self).unread().len() < 2 && final(self).unread() == old(
                    self,
                ).unread(),
            },
    {
        match self.read(2) {
            Some(bytes) => {
                let high = bytes[0] as u16;
                let low = bytes[1] as u16;
                proof {
                    reveal_with_fuel(be_value, 3);
                    assert(bytes@.drop_last().drop_last() =~= Seq::<u8>::empty());
                }
                Some(high * 256 + low)
            },
            None => None,
        }
    }

    /// Reads a number of four bytes, most significant first.
    fn read_u32(&mut self) -> (r: Option<u32>)
        ensures
            match r {
                Some(val) => {
                    &&& 4 <= old(self).unread().len()
                    &&& val == from_be_u32(old(self).unread().take(4))
                    &&& final(self).unread() == old(self).unread().skip(4)
                },
                None => old(self).unread().len() < 4 && final(self).unread() == old(
                    self,
                ).unread(),
            },
    {
        match self.read(4) {
            Some(bytes) => {
                assert(bytes@.subrange(0, 4) =~= bytes@);
                Some(get_u32(bytes.as_slice(), 0))
            },
            None => None,
        }
    }

    /// Reads a number of eight bytes, most significant first.
    fn read_u64(&mut self) -> (r: Option<u64>)
        ensures
            match r {
                Some(val) => {
                    &&& 8 <= old(self).unread().len()
                    &&& val == from_be_u64(old(self).unread().take(8))
                    &&& final(self).unread() == old(self).unread().skip(8)
                },
                None => old(self).unread().len() < 8 && final(self).unread() == old(
                    self,
                ).unread(),
            },
    {
        match self.read(8) {
            Some(bytes) => {
                assert(bytes@.subrange(0, 8) =~= bytes@);
                Some(get_u64(bytes.as_slice(), 0))
            },
            None => None,
        }
    }
}

/// A place in a byte string, from which the bytes behind it are read.
#[derive(Clone, Copy)]
pub struct Cursor<'a> {
    bytes: &'a [u8],
    pos: usize,
}

impl<'a> Cursor<'a> {
    /// The place is inside the byte string.
    pub closed spec fn wf(&self) -> bool {
        self.pos <= self.bytes@.len()
    }

    /// The byte string.
    pub closed spec fn all(&self) -> Seq<u8> {
        self.bytes@
    }

    /// The number of bytes before the place.
    pub closed spec fn offset(&self) -> nat {
        self.pos as nat
    }

    /// What lies behind the place is what is yet to be read.
    pub proof fn lemma_unread(&self)
        requires
            self.wf(),
        ensures
            self.unread() == self.all().skip(self.offset() as int),
            self.offset() <= self.all().len(),
    {
    }

    /// A cursor at byte `pos` of `bytes`, or at the end where `pos` lies
    /// behind it.
    pub fn new(bytes: &'a [u8], pos: usize) -> (cursor: Self)
        ensures
            cursor.wf(),
            cursor.all() == bytes@,
            cursor.offset() == if pos <= bytes@.len() {
                pos as nat
            } else {
                bytes@.len()
            },
    {
        if pos <= bytes.len() {
            Self { bytes, pos }
        } else {
            Self { bytes, pos: bytes.len() }
        }
    }

    /// The number of bytes before the place.
    pub fn position(&self) -> (pos: usize)
        ensures
            pos == self.offset(),
    {
        self.pos
    }

    /// The number of bytes behind the place.
    pub fn left(&self) -> (n: usize)
        ensures
            n == self.unread().len(),
    {
        if self.pos <= self.bytes.len() {
            self.bytes.len() - self.pos
        } else {
            0
        }
    }
}

impl<'a> ReadExt for Cursor<'a> {
    open spec fn unread(&self) -> Seq<u8> {
        if self.wf() {
            self.all().skip(self.offset() as int)
        } else {
            Seq::empty()
        }
    }

    fn read(&mut self, n: usize) -> (r: Option<Vec<u8>>)
        ensures
            old(self).wf() ==> final(self).wf(),
            final(self).all() == old(self).all(),
    {
        if n == 0 {
            assert(self.unread().take(0) =~= Seq::<u8>::empty());
            assert(self.unread().skip(0) =~= self.unread());
            return Some(Vec::new());
        }
        if self.pos > self.bytes.len() || n > self.bytes.len() - self.pos {
            return None;
        }
        let from = self.pos;
        let out = slice_to_vec(slice_subrange(self.bytes, from, from + n));
        self.pos = from + n;
        proof {
            assert(out@ =~= old(self).unread().take(n as int));
            assert(self.unread() =~= old(self).unread().skip(n as int));
        }
        Some(out)
    }
}

} // verus!
