//! Reading records back: point reads of one record and the front-to-back
//! scan of a data segment.

use vstd::prelude::*;
use vstd::slice::{slice_subrange, slice_to_vec};
use crate::checksum::{checksum, crc32_cksum};
use crate::endian::{from_be_u32, from_be_u64, get_u32, get_u64};
use crate::error::KeyValueStoreError;
use crate::io::{Cursor, ReadExt};
use crate::record::{
    parse_record, read_at, Parsed, PUT_OVERHEAD, PUT_TAG, TOMBSTONE_OVERHEAD, TOMBSTONE_TAG,
};
use crate::snapshot::parse_snapshot_entry;
use crate::util::{
    has_data_header, has_index_header, starts_with_data_header, starts_with_index_header,
    DATA_HEADER_LEN, INDEX_HEADER_LEN,
};

verus! {

/// A value as it is read from a put record, with the record's timestamp.
#[derive(Debug, Eq, PartialEq)]
pub struct Value {
    timestamp: u64,
    data: Vec<u8>,
}

impl View for Value {
    type V = (u64, Seq<u8>);

    closed spec fn view(&self) -> (u64, Seq<u8>) {
        (self.timestamp, self.data@)
    }
}

impl Value {
    pub fn from(timestamp: u64, data: Vec<u8>) -> (value: Self)
        ensures
            value@ == (timestamp, data@),
    {
        Self { timestamp, data }
    }

    pub fn timestamp(&self) -> (timestamp: u64)
        ensures
            timestamp == self@.0,
    {
        self.timestamp
    }

    pub fn data(&self) -> (data: &[u8])
        ensures
            data@ == self@.1,
    {
        self.data.as_slice()
    }
}

/// What a scanned entry says: the record's key and timestamp, where the
/// record begins and how many bytes it has. A tombstone has size zero.
pub struct EntryView {
    pub key: Seq<u8>,
    pub file: u64,
    pub timestamp: u64,
    pub offset: u64,
    pub size: u64,
}

/// One record as the scanner or the snapshot reader emits it.
#[derive(Debug)]
pub struct Entry {
    key: Vec<u8>,
    file: u64,
    timestamp: u64,
    offset: u64,
    size: u64,
}

impl View for Entry {
    type V = EntryView;

    closed spec fn view(&self) -> EntryView {
        EntryView {
            key: self.key@,
            file: self.file,
            timestamp: self.timestamp,
            offset: self.offset,
            size: self.size,
        }
    }
}

impl Entry {
    pub fn new(key: Vec<u8>, timestamp: u64, file: u64, offset: u64, size: u64) -> (entry: Self)
        ensures
            entry@ == (EntryView { key: key@, file, timestamp, offset, size }),
    {
        Self { key, timestamp, file, offset, size }
    }

    pub fn key(&self) -> (key: &[u8])
        ensures
            key@ == self@.key,
    {
        self.key.as_slice()
    }

    pub fn file(&self) -> (file: u64)
        ensures
            file == self@.file,
    {
        self.file
    }

    pub fn timestamp(&self) -> (timestamp: u64)
        ensures
            timestamp == self@.timestamp,
    {
        self.timestamp
    }

    pub fn offset(&self) -> (offset: u64)
        ensures
            offset == self@.offset,
    {
        self.offset
    }

    pub fn size(&self) -> (size: u64)
        ensures
            size == self@.size,
    {
        self.size
    }

    /// Tells whether the entry stands for a tombstone.
    pub fn is_tombstone(&self) -> (b: bool)
        ensures
            b == (self@.size == 0),
    {
        self.size == 0
    }
}

/// The outcome of a point read, with the value taken by its view.
pub open spec fn read_result_view(r: Result<Value, KeyValueStoreError>) -> Result<
    (u64, Seq<u8>),
    KeyValueStoreError,
> {
    match r {
        Ok(value) => Ok(value@),
        Err(e) => Err(e),
    }
}

/// Reads the put record that fills `size` bytes at `offset` of `segment`:
/// checks the range, then the checksum over everything behind the stored
/// one, then the tag, and takes the value out.
pub fn read_record(segment: &[u8], offset: u64, size: u64) -> (r: Result<
    Value,
    KeyValueStoreError,
>)
    ensures
        read_result_view(r) == read_at(segment@, offset, size),
{
    let n = segment.len();
    if size > n as u64 || offset > n as u64 - size {
        return Err(KeyValueStoreError::ChecksumFailed);
    }
    let start = offset as usize;
    let len = size as usize;
    let rec = slice_subrange(segment, start, start + len);
    if len < 4 {
        return Err(KeyValueStoreError::ChecksumFailed);
    }
    let stored = get_u32(rec, 0);
    let computed = checksum(slice_subrange(rec, 4, len));
    assert(rec@.subrange(4, len as int) =~= rec@.skip(4));
    if computed != stored {
        return Err(KeyValueStoreError::ChecksumFailed);
    }
    if len < TOMBSTONE_OVERHEAD {
        return Err(KeyValueStoreError::ChecksumFailed);
    }
    let timestamp = get_u64(rec, 4);
    let tag = rec[12];
    let key_len = get_u64(rec, 13);
    if tag == TOMBSTONE_TAG {
        return Err(KeyValueStoreError::ItemDeleted);
    }
    if tag != PUT_TAG || len < PUT_OVERHEAD {
        return Err(KeyValueStoreError::ChecksumFailed);
    }
    let value_len = get_u64(rec, 21);
    let room = (len - PUT_OVERHEAD) as u64;
    if key_len > room || value_len > room - key_len {
        return Err(KeyValueStoreError::ChecksumFailed);
    }
    let from = PUT_OVERHEAD + key_len as usize;
    let data = slice_to_vec(slice_subrange(rec, from, from + value_len as usize));
    Ok(Value::from(timestamp, data))
}

/// One data segment, held for point reads.
pub struct FileMap<'a> {
    bytes: &'a [u8],
}

impl<'a> View for FileMap<'a> {
    type V = Seq<u8>;

    closed spec fn view(&self) -> Seq<u8> {
        self.bytes@
    }
}

impl<'a> FileMap<'a> {
    /// A reader over the bytes of a segment.
    pub fn new(bytes: &'a [u8]) -> (map: Self)
        ensures
            map@ == bytes@,
    {
        Self { bytes }
    }

    /// Reads the value of the put record of `size` bytes at `offset`.
    pub fn get(&self, offset: u64, size: u64) -> (r: Result<Value, KeyValueStoreError>)
        ensures
            read_result_view(r) == read_at(self@, offset, size),
    {
        read_record(self.bytes, offset, size)
    }
}

/// The entry that the scanner emits for the record `p` found at `offset`.
pub open spec fn scanned_entry(p: Parsed, offset: nat) -> EntryView {
    EntryView {
        key: p.key,
        file: 0,
        timestamp: p.timestamp,
        offset: offset as u64,
        size: if p.tombstone {
            0
        } else {
            p.len as u64
        },
    }
}

/// The entries that a scan of `s` emits, where `s` begins at byte `base`
/// of its segment: record after record, up to the first place where no
/// whole record with a matching checksum stands.
pub open spec fn scan(s: Seq<u8>, base: nat) -> Seq<EntryView>
    decreases s.len(),
{
    match parse_record(s) {
        None => Seq::empty(),
        Some(p) => if 0 < p.len <= s.len() {
            seq![scanned_entry(p, base)] + scan(s.skip(p.len as int), base + p.len)
        } else {
            Seq::empty()
        },
    }
}

/// The entries that a scan of a whole data segment emits. A segment
/// without the magic emits none.
pub open spec fn scan_segment(segment: Seq<u8>) -> Seq<EntryView> {
    if has_data_header(segment) {
        scan(segment.skip(DATA_HEADER_LEN as int), DATA_HEADER_LEN as nat)
    } else {
        Seq::empty()
    }
}

/// A record that parses has the length its fields announce and fits.
pub proof fn lemma_parse_record_len(s: Seq<u8>)
    ensures
        parse_record(s) matches Some(p) ==> {
            &&& TOMBSTONE_OVERHEAD <= p.len <= s.len()
            &&& !p.tombstone ==> PUT_OVERHEAD <= p.len
            &&& p.key.len() <= u64::MAX
        },
{
}

/// The front-to-back scanner of one data segment.
pub struct EntryReader<'a> {
    bytes: &'a [u8],
    pos: usize,
    live: bool,
}

impl<'a> EntryReader<'a> {
    /// The position is inside the segment.
    pub closed spec fn wf(&self) -> bool {
        self.pos <= self.bytes@.len()
    }

    /// The entries still to come.
    pub closed spec fn remaining(&self) -> Seq<EntryView> {
        if self.live {
            scan(self.bytes@.skip(self.pos as int), self.pos as nat)
        } else {
            Seq::empty()
        }
    }

    /// Starts a scan of `bytes` behind the magic. Where the magic is
    /// missing the scan yields nothing.
    pub fn new(bytes: &'a [u8]) -> (reader: Self)
        ensures
            reader.wf(),
            reader.remaining() == scan_segment(bytes@),
    {
        if starts_with_data_header(bytes) {
            Self { bytes, pos: DATA_HEADER_LEN, live: true }
        } else {
            Self { bytes, pos: 0, live: false }
        }
    }

    /// Emits the next entry, or `None` where the scan ends.
    pub fn next(&mut self) -> (r: Option<Entry>)
        requires
            old(self).wf(),
        ensures
            final(self).wf(),
            match r {
                Some(entry) => {
                    &&& old(self).remaining().len() > 0
                    &&& entry@ == old(self).remaining()[0]
                    &&& final(self).remaining() == old(self).remaining().skip(1)
                },
                None => old(self).remaining().len() == 0 && final(self).remaining().len() == 0,
            },
    {
        if !self.live {
            return None;
        }
        let pos = self.pos;
        let ghost s = self.bytes@.skip(pos as int);
        assert(self.bytes.len() == self.bytes@.len());
        match record_at(self.bytes, pos) {
            None => None,
            Some((timestamp, tombstone, key, len)) => {
                let size: u64 = if tombstone {
                    0
                } else {
                    len as u64
                };
                self.pos = pos + len;
                proof {
                    let p = parse_record(s).unwrap();
                    assert(s.skip(len as int) =~= self.bytes@.skip(pos + len));
                    assert(old(self).remaining() == seq![scanned_entry(p, pos as nat)] + scan(
                        s.skip(p.len as int),
                        pos as nat + p.len,
                    ));
                    assert(old(self).remaining().skip(1) =~= self.remaining());
                }
                Some(Entry::new(key, timestamp, 0, pos as u64, size))
            },
        }
    }
}

/// The head of the record at `pos` of `bytes`: its checksum, timestamp, tag
/// and key length, where at least the bytes of a tombstone without key are
/// left.
fn record_head(bytes: &[u8], pos: usize) -> (r: (u32, u64, u8, u64))
    requires
        pos + TOMBSTONE_OVERHEAD <= bytes@.len(),
    ensures
        ({
            let s = bytes@.skip(pos as int);
            &&& r.0 == from_be_u32(s.subrange(0, 4))
            &&& r.1 == from_be_u64(s.subrange(4, 12))
            &&& r.2 == s[12]
            &&& r.3 == from_be_u64(s.subrange(13, 21))
        }),
{
    let ghost s = bytes@.skip(pos as int);
    assert(bytes.len() == bytes@.len());
    let crc = get_u32(bytes, pos);
    assert(s.subrange(0, 4) =~= bytes@.subrange(pos as int, pos + 4));
    let timestamp = get_u64(bytes, pos + 4);
    assert(s.subrange(4, 12) =~= bytes@.subrange(pos + 4, pos + 12));
    let tag = bytes[pos + 12];
    let key_len = get_u64(bytes, pos + 13);
    assert(s.subrange(13, 21) =~= bytes@.subrange(pos + 13, pos + 21));
    (crc, timestamp, tag, key_len)
}

/// The checksum over `bytes` from `from` to `to`.
fn checksum_of(bytes: &[u8], pos: usize, from: usize, to: usize) -> (sum: u32)
    requires
        pos <= from <= to <= bytes@.len(),
    ensures
        sum == crc32_cksum(bytes@.skip(pos as int).subrange(from - pos, to - pos)),
{
    assert(bytes@.skip(pos as int).subrange(from - pos, to - pos) =~= bytes@.subrange(
        from as int,
        to as int,
    ));
    checksum(slice_subrange(bytes, from, to))
}

/// A copy of `bytes` from `from` to `to`.
fn copy_of(bytes: &[u8], pos: usize, from: usize, to: usize) -> (copy: Vec<u8>)
    requires
        pos <= from <= to <= bytes@.len(),
    ensures
        copy@ == bytes@.skip(pos as int).subrange(from - pos, to - pos),
{
    assert(bytes@.skip(pos as int).subrange(from - pos, to - pos) =~= bytes@.subrange(
        from as int,
        to as int,
    ));
    slice_to_vec(slice_subrange(bytes, from, to))
}

/// Reads the record that stands at `pos` of `bytes`: its timestamp, whether
/// it is a tombstone, its key, and the bytes it occupies.
pub fn record_at(bytes: &[u8], pos: usize) -> (r: Option<(u64, bool, Vec<u8>, usize)>)
    requires
        pos <= bytes@.len(),
    ensures
        match r {
            Some((timestamp, tombstone, key, len)) => {
                &&& parse_record(bytes@.skip(pos as int)) matches Some(p)
                &&& p.timestamp == timestamp
                &&& p.tombstone == tombstone
                &&& p.key == key@
                &&& p.len == len
                &&& 0 < len <= bytes@.len() - pos
            },
            None => parse_record(bytes@.skip(pos as int)) is None,
        },
{
    let avail = bytes.len() - pos;
    if avail < TOMBSTONE_OVERHEAD {
        return None;
    }
    let (crc, timestamp, tag, key_len) = record_head(bytes, pos);
    if tag == PUT_TAG {
        if avail < PUT_OVERHEAD {
            return None;
        }
        let value_len = get_u64(bytes, pos + 21);
        assert(bytes@.skip(pos as int).subrange(21, 29) =~= bytes@.subrange(pos + 21, pos + 29));
        let room = (avail - PUT_OVERHEAD) as u64;
        if key_len > room || value_len > room - key_len {
            return None;
        }
        let key_end: usize = PUT_OVERHEAD + key_len as usize;
        let len: usize = key_end + value_len as usize;
        if checksum_of(bytes, pos, pos + 4, pos + len) != crc {
            return None;
        }
        let key = copy_of(bytes, pos, pos + PUT_OVERHEAD, pos + key_end);
        Some((timestamp, false, key, len))
    } else if tag == TOMBSTONE_TAG {
        let room = (avail - TOMBSTONE_OVERHEAD) as u64;
        if key_len > room {
            return None;
        }
        let len: usize = TOMBSTONE_OVERHEAD + key_len as usize;
        if checksum_of(bytes, pos, pos + 4, pos + len) != crc {
            return None;
        }
        let key = copy_of(bytes, pos, pos + TOMBSTONE_OVERHEAD, pos + len);
        Some((timestamp, true, key, len))
    } else {
        None
    }
}

/// The reader of an index snapshot, entry after entry.
pub struct IndexReader<'a> {
    file: Cursor<'a>,
    live: bool,
}

impl<'a> IndexReader<'a> {
    /// The snapshot began with the magic.
    pub closed spec fn valid(&self) -> bool {
        self.live
    }

    /// The bytes not read yet.
    pub closed spec fn rest(&self) -> Seq<u8> {
        self.file.unread()
    }

    /// Starts reading `bytes` behind the magic.
    pub fn new(bytes: &'a [u8]) -> (reader: Self)
        ensures
            reader.valid() == has_index_header(bytes@),
            reader.valid() ==> reader.rest() == bytes@.skip(INDEX_HEADER_LEN as int),
    {
        if starts_with_index_header(bytes) {
            Self { file: Cursor::new(bytes, INDEX_HEADER_LEN), live: true }
        } else {
            Self { file: Cursor::new(bytes, 0), live: false }
        }
    }

    /// Tells whether a snapshot with the magic has been read to its end.
    pub fn at_end(&self) -> (b: bool)
        ensures
            b == (self.valid() && self.rest().len() == 0),
    {
        self.live && self.file.left() == 0
    }

    /// Reads the next entry, or `None` where no whole entry is left.
    pub fn next(&mut self) -> (r: Option<Entry>)
        ensures
            final(self).valid() == old(self).valid(),
            match r {
                Some(entry) => {
                    &&& old(self).valid()
                    &&& parse_snapshot_entry(old(self).rest()) matches Some((e, n))
                    &&& entry@ == e
                    &&& 0 < n <= old(self).rest().len()
                    &&& final(self).rest() == old(self).rest().skip(n as int)
                },
                None => {
                    &&& !old(self).valid() || parse_snapshot_entry(old(self).rest()) is None
                    &&& final(self).rest() == old(self).rest()
                },
            },
    {
        if !self.live {
            return None;
        }
        let ghost s = self.file.unread();
        let mut probe = self.file;
        let key_len = match probe.read_u64() {
            Some(len) => len,
            None => {
                return None;
            },
        };
        assert(s.take(8) =~= s.subrange(0, 8));
        let left = probe.left();
        if key_len > left as u64 {
            return None;
        }
        let k = key_len as usize;
        let key = match probe.read(k) {
            Some(key) => key,
            None => {
                return None;
            },
        };
        assert(s.skip(8).take(k as int) =~= s.subrange(8, 8 + k));
        let ghost s1 = probe.unread();
        assert(s1 =~= s.skip(8 + k));
        let timestamp = match probe.read_u64() {
            Some(val) => val,
            None => {
                return None;
            },
        };
        assert(s1.take(8) =~= s.subrange(8 + k, 16 + k));
        let ghost s2 = probe.unread();
        assert(s2 =~= s.skip(16 + k));
        let file = match probe.read_u64() {
            Some(val) => val,
            None => {
                return None;
            },
        };
        assert(s2.take(8) =~= s.subrange(16 + k, 24 + k));
        let ghost s3 = probe.unread();
        assert(s3 =~= s.skip(24 + k));
        let offset = match probe.read_u64() {
            Some(val) => val,
            None => {
                return None;
            },
        };
        assert(s3.take(8) =~= s.subrange(24 + k, 32 + k));
        let ghost s4 = probe.unread();
        assert(s4 =~= s.skip(32 + k));
        let size = match probe.read_u64() {
            Some(val) => val,
            None => {
                return None;
            },
        };
        assert(s4.take(8) =~= s.subrange(32 + k, 40 + k));
        assert(probe.unread() =~= s.skip(40 + k));
        self.file = probe;
        Some(Entry::new(key, timestamp, file, offset, size))
    }
}

/// The entries of a vector, each taken as a plain value.
pub open spec fn entry_views(v: Seq<Entry>) -> Seq<EntryView> {
    Seq::new(v.len(), |i: int| v[i]@)
}

} // verus!
