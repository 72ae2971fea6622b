//! The writer of one data segment: bytes are only ever added at its end.

use vstd::prelude::*;
use crate::io::WriteExt;
use crate::record::{
    encode_put, encode_tombstone, put_record, put_record_len, tombstone_record,
};

verus! {

/// An append-only segment under construction. What has been flushed is
/// what the file behind the segment is to hold.
pub struct DiskTable {
    buf: Vec<u8>,
    flushed: usize,
}

impl View for DiskTable {
    type V = Seq<u8>;

    closed spec fn view(&self) -> Seq<u8> {
        self.buf@
    }
}

impl DiskTable {
    /// The number of bytes, from the start, that have been flushed.
    pub closed spec fn flushed(&self) -> nat {
        self.flushed as nat
    }

    /// No more is flushed than is there.
    pub closed spec fn wf(&self) -> bool {
        self.flushed <= self.buf@.len()
    }

    /// No more is flushed than is there, and what is there fits the machine.
    pub proof fn lemma_flushed(&self)
        requires
            self.wf(),
        ensures
            self.flushed() <= self@.len() <= usize::MAX,
    {
        assert(self.buf.len() == self.buf@.len());
    }

    /// Opens a writer at the end of the segment `file`, all of which
    /// counts as flushed.
    pub fn open(file: Vec<u8>) -> (table: Self)
        ensures
            table.wf(),
            table@ == file@,
            table.flushed() == file@.len(),
    {
        let flushed = file.len();
        Self { buf: file, flushed }
    }

    /// Marks everything written so far as flushed.
    pub fn flush(&mut self)
        ensures
            final(self).wf(),
            final(self)@ == old(self)@,
            final(self).flushed() == old(self)@.len(),
    {
        self.flushed = self.buf.len();
    }

    /// Tells how many bytes, from the start, have been flushed.
    pub fn flushed_len(&self) -> (n: usize)
        ensures
            n == self.flushed(),
    {
        self.flushed
    }

    /// The bytes of the segment.
    pub fn bytes(&self) -> (bytes: &[u8])
        ensures
            bytes@ == self@,
    {
        self.buf.as_slice()
    }

    /// Begins the segment `file` in place of the current one, which is
    /// handed back. Everything of `file` counts as flushed.
    pub fn replace(&mut self, file: Vec<u8>) -> (sealed: Vec<u8>)
        ensures
            final(self).wf(),
            final(self)@ == file@,
            final(self).flushed() == file@.len(),
            sealed@ == old(self)@,
    {
        let mut file = file;
        self.flushed = file.len();
        std::mem::swap(&mut self.buf, &mut file);
        file
    }

    /// Gives up the writer for the bytes of the segment.
    pub fn into_bytes(self) -> (bytes: Vec<u8>)
        ensures
            bytes@ == self@,
    {
        self.buf
    }

    /// Adds `bytes` at the end, and tells where they begin.
    pub fn append(&mut self, bytes: &[u8]) -> (offset: u64)
        requires
            old(self).wf(),
        ensures
            final(self).wf(),
            final(self)@ == old(self)@ + bytes@,
            final(self).flushed() == old(self).flushed(),
            offset == old(self)@.len(),
    {
        let offset = self.buf.len() as u64;
        self.buf.extend_from_slice(bytes);
        assert(self.buf@ =~= old(self).buf@ + bytes@);
        offset
    }

    /// The number of bytes in the segment.
    pub fn len(&self) -> (n: u64)
        ensures
            n == self@.len(),
    {
        self.buf.len() as u64
    }

    /// Appends a put record, and tells where it begins and how long it is.
    pub fn append_entry(&mut self, timestamp: u64, key: &[u8], value: &[u8]) -> (r: (u64, u64))
        requires
            old(self).wf(),
        ensures
            final(self).wf(),
            final(self)@ == old(self)@ + put_record(timestamp, key@, value@),
            final(self).flushed() == old(self).flushed(),
            r.0 == old(self)@.len(),
            r.1 == put_record_len(key@, value@),
    {
        let rec = encode_put(timestamp, key, value);
        let offset = self.append(rec.as_slice());
        (offset, rec.len() as u64)
    }

    /// Appends a tombstone.
    pub fn delete(&mut self, timestamp: u64, key: &[u8])
        requires
            old(self).wf(),
        ensures
            final(self).wf(),
            final(self)@ == old(self)@ + tombstone_record(timestamp, key@),
            final(self).flushed() == old(self).flushed(),
    {
        let rec = encode_tombstone(timestamp, key);
        self.append(rec.as_slice());
    }
}

impl WriteExt for DiskTable {
    open spec fn written(&self) -> Seq<u8> {
        self@
    }

    fn position(&mut self) -> (pos: u64)
        ensures
            final(self).flushed() == old(self).flushed(),
            old(self).wf() ==> final(self).wf(),
    {
        self.buf.len() as u64
    }

    fn write(&mut self, bytes: &[u8]) -> (offset: u64)
        ensures
            final(self).flushed() == old(self).flushed(),
            old(self).wf() ==> final(self).wf(),
    {
        let offset = self.buf.len() as u64;
        self.buf.extend_from_slice(bytes);
        assert(self.buf@ =~= old(self).buf@ + bytes@);
        offset
    }
}

} // verus!
