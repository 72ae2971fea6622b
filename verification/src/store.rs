//! The store: segments of records, the directory over them, and the
//! operations that keep the two in step.

use vstd::prelude::*;
use vstd::slice::{slice_subrange, slice_to_vec};
use crate::clock::timestamp_now;
use crate::disk::DiskTable;
use crate::error::KeyValueStoreError;
use crate::index::{is_listing, lemma_listed_at, pairs, place, range_of, Entry, Index};
use crate::iter::RangeIter;
use crate::order::KeyBound;
use crate::model::{
    lemma_all_located, lemma_listing_of, lemma_reconstruct_located, listing_of, located,
    merge_fold, merge_start, merge_step, read_entry, reconstruct, snapshot_of, State,
};
use crate::reader::{FileMap, Value};
use crate::record::{lemma_put_record_layout, put_record, put_record_len, tombstone_record};
use crate::settings::{Metrics, Options};
use crate::util::{data_header, DATA_FILE_HEADER};

verus! {

/// A store: the bytes of its segments, the directory over them, the bytes
/// of the snapshot, and the counts of what has become garbage.
///
/// The segments are held in the order of their numbers. All but the last
/// are sealed; the last one is the active segment, to which every record is
/// appended.
pub struct Bitcask {
    index: Index,
    sealed: Vec<Vec<u8>>,
    disk: DiskTable,
    snapshot: Option<Vec<u8>>,
    counter: u64,
    stats: Metrics,
    opts: Options,
}

/// A value that was read, or none, taken as a plain value.
pub open spec fn value_view(r: Option<Value>) -> Option<(u64, Seq<u8>)> {
    match r {
        Some(value) => Some(value@),
        None => None,
    }
}

/// The bytes of a file that may be absent, taken as a plain value.
pub open spec fn file_view(f: Option<Vec<u8>>) -> Option<Seq<u8>> {
    match f {
        Some(bytes) => Some(bytes@),
        None => None,
    }
}

/// The bytes of the files of a list, each taken as a plain value.
pub open spec fn files_view(files: Seq<Vec<u8>>) -> Seq<Seq<u8>> {
    Seq::new(files.len(), |i: int| files[i]@)
}

/// A writer at the end of a new segment, which holds the magic.
fn new_data_file() -> (disk: DiskTable)
    ensures
        disk.wf(),
        disk@ == DATA_FILE_HEADER@,
{
    DiskTable::open(data_header())
}

/// Tells whether every entry of `index` names a byte range inside one of
/// the segments `sealed` and `active`, the active one coming last.
fn covers(sealed: &Vec<Vec<u8>>, active: &Vec<u8>, index: &Index) -> (b: bool)
    requires
        index.wf(),
    ensures
        b == (forall|key: Seq<u8>| #[trigger]
            index@.contains_key(key) ==> located(
                files_view(sealed@).push(active@),
                index@[key],
            )),
{
    let ghost segments = files_view(sealed@).push(active@);
    let ghost l = index.listing();
    proof {
        index.lemma_listing();
    }
    let entries = index.entries();
    let mut i: usize = 0;
    while i < entries.len()
        invariant
            index.wf(),
            l == index.listing(),
            is_listing(l, index@),
            pairs(entries@) == l,
            segments == files_view(sealed@).push(active@),
            i <= entries@.len(),
            forall|j: int| 0 <= j < i ==> located(segments, (#[trigger] l[j]).1),
        decreases entries@.len() - i,
    {
        let entry = entries[i].1;
        assert(l[i as int].1 == entry);
        let inside = if entry.file() as u128 > sealed.len() as u128 {
            false
        } else {
            let n = if (entry.file() as u128) < sealed.len() as u128 {
                let f = entry.file() as usize;
                assert(segments[f as int] == sealed@[f as int]@);
                sealed[f].len()
            } else {
                assert(segments[entry.file as int] == active@);
                active.len()
            };
            entry.offset() as u128 + entry.size() as u128 <= n as u128
        };
        if !inside {
            proof {
                lemma_listed_at(l, i as int);
                assert(index@.contains_key(l[i as int].0));
                assert(!located(segments, index@[l[i as int].0]));
            }
            return false;
        }
        i = i + 1;
    }
    proof {
        assert forall|key: Seq<u8>| #[trigger] index@.contains_key(key) implies located(
            segments,
            index@[key],
        ) by {
            let p = place(l, key);
            lemma_listed_at(l, p);
        }
    }
    true
}

impl View for Bitcask {
    type V = State;

    closed spec fn view(&self) -> State {
        State {
            segments: files_view(self.sealed@).push(self.disk@),
            index: self.index@,
            snapshot: file_view(self.snapshot),
            bytes_deleted: self.stats.num_bytes_deleted,
            entries_deleted: self.stats.num_entries_deleted,
            limits: self.opts.limits(),
        }
    }
}

impl Bitcask {
    /// The parts of the store fit together, and its state is one that a
    /// store can be in.
    pub closed spec fn wf(&self) -> bool {
        &&& self.index.wf()
        &&& self.disk.wf()
        &&& self.counter == self.sealed@.len()
        &&& self@.wf()
    }

    /// The options the store was opened with.
    pub closed spec fn options(&self) -> Options {
        self.opts
    }

    /// The parts that fit together make a store, where every entry of the
    /// directory names a byte range inside its segment.
    proof fn lemma_establish(&self)
        requires
            self.index.wf(),
            self.disk.wf(),
            self.counter == self.sealed@.len(),
            forall|key: Seq<u8>| #[trigger]
                self.index@.contains_key(key) ==> located(self@.segments, self.index@[key]),
        ensures
            self.wf(),
    {
        self.index.lemma_listing();
        self.index.lemma_key_lengths();
        self.disk.lemma_flushed();
        assert(self.sealed.len() == self.sealed@.len());
        assert forall|i: int| 0 <= i < self@.segments.len() implies (
        #[trigger] self@.segments[i]).len() <= u64::MAX by {
            if i < self.sealed@.len() {
                assert(self.sealed@[i].len() == self.sealed@[i]@.len());
                assert(self@.segments[i] == self.sealed@[i]@);
            }
        }
        assert(is_listing(self.index.listing(), self@.index));
    }

    /// A store is in a state that a store can be in.
    pub proof fn lemma_wf(&self)
        requires
            self.wf(),
        ensures
            self@.wf(),
            self@.limits == self.options().limits(),
    {
    }

    /// A new store: an empty directory and one segment, number zero.
    pub fn create(opts: Options) -> (store: Self)
        ensures
            store.wf(),
            store@ == State::create(opts.limits()),
            store.options() == opts,
    {
        let store = Self {
            index: Index::new(),
            sealed: Vec::new(),
            disk: new_data_file(),
            snapshot: None,
            counter: 0,
            stats: Metrics::new(),
            opts,
        };
        proof {
            store.lemma_establish();
            assert(store@.segments =~= seq![DATA_FILE_HEADER@]);
        }
        store
    }

    /// Opens the store whose files are `segments`, in the order of their
    /// numbers from zero, and `snapshot`.
    ///
    /// Without segments the store is a new one. The directory is loaded
    /// from the snapshot where that is whole and every entry it gives names
    /// a byte range inside its segment. Else the directory is rebuilt by a
    /// scan of all segments in ascending order, and a snapshot of it is
    /// written. The last segment becomes the active one.
    pub fn open(opts: Options, segments: Vec<Vec<u8>>, snapshot: Option<Vec<u8>>) -> (store: Self)
        ensures
            store.wf(),
            store.options() == opts,
            store@ == State::open(opts.limits(), files_view(segments@), file_view(snapshot)),
    {
        let ghost all = files_view(segments@);
        let mut sealed = segments;
        let active = match sealed.pop() {
            Some(active) => active,
            None => {
                return Self::create(opts);
            },
        };
        assert(files_view(sealed@).push(active@) =~= all);
        let mut index = Index::new();
        let mut loaded = false;
        if let Some(bytes) = &snapshot {
            if index.open(bytes.as_slice()) {
                if covers(&sealed, &active, &index) {
                    loaded = true;
                } else {
                    index.clear();
                }
            }
        }
        proof {
            index.lemma_key_lengths();
            lemma_all_located(all, index@);
        }
        let counter = sealed.len() as u64;
        if loaded {
            let store = Self {
                index,
                sealed,
                disk: DiskTable::open(active),
                snapshot,
                counter,
                stats: Metrics::new(),
                opts,
            };
            proof {
                assert(store@.segments =~= all);
                store.lemma_establish();
            }
            return store;
        }
        let mut i: usize = 0;
        proof {
            assert(all.take(0) =~= Seq::<Seq<u8>>::empty());
        }
        while i < sealed.len()
            invariant
                i <= sealed@.len(),
                all == files_view(sealed@).push(active@),
                index.wf(),
                index@ == reconstruct(all.take(i as int)),
            decreases sealed@.len() - i,
        {
            proof {
                assert(all.take(i + 1).drop_last() =~= all.take(i as int));
                assert(all.take(i + 1).last() == sealed@[i as int]@);
            }
            index.from_data(sealed[i].as_slice(), i as u64);
            i = i + 1;
        }
        proof {
            assert(all.drop_last() =~= all.take(i as int));
            assert(all.last() == active@);
        }
        index.from_data(active.as_slice(), counter);
        let bytes = index.write();
        let store = Self {
            index,
            sealed,
            disk: DiskTable::open(active),
            snapshot: Some(bytes),
            counter,
            stats: Metrics::new(),
            opts,
        };
        proof {
            assert(store@.segments =~= all);
            assert(store.sealed.len() == store.sealed@.len());
            assert forall|i: int| 0 <= i < all.len() implies (#[trigger] all[i]).len()
                <= u64::MAX by {
                if i < store.sealed@.len() {
                    assert(store.sealed@[i].len() == store.sealed@[i]@.len());
                    assert(all[i] == store.sealed@[i]@);
                } else {
                    store.disk.lemma_flushed();
                }
            }
            lemma_reconstruct_located(all);
            store.lemma_establish();
            store.index.lemma_listing();
            lemma_listing_of(store.index.listing(), store.index@);
        }
        store
    }

    /// The directory that holds the files of the store.
    pub fn root(&self) -> (root: &str)
        ensures
            root@ == self.options().base_dir@,
    {
        self.opts.base_dir.as_str()
    }

    /// The number of the active segment.
    pub fn counter(&self) -> (counter: u64)
        requires
            self.wf(),
        ensures
            counter == self@.counter(),
    {
        self.counter
    }

    /// The bytes of the segment with the number `id`.
    pub fn segment(&self, id: u64) -> (bytes: &[u8])
        requires
            self.wf(),
            id <= self@.counter(),
        ensures
            bytes@ == self@.segments[id as int],
    {
        assert(self.sealed.len() == self.sealed@.len());
        if id < self.counter {
            let i = id as usize;
            assert(self@.segments[id as int] == self.sealed@[id as int]@);
            self.sealed[i].as_slice()
        } else {
            assert(self@.segments[id as int] == self.disk@);
            self.disk.bytes()
        }
    }

    /// The bytes of the snapshot, once one has been written.
    pub fn snapshot(&self) -> (bytes: Option<&[u8]>)
        ensures
            match bytes {
                Some(b) => self@.snapshot == Some(b@),
                None => self@.snapshot is None,
            },
    {
        match &self.snapshot {
            Some(b) => Some(b.as_slice()),
            None => None,
        }
    }

    /// The bytes of the records superseded or deleted since the store was
    /// opened or last merged.
    pub fn bytes_deleted(&self) -> (n: u64)
        ensures
            n == self@.bytes_deleted,
    {
        self.stats.num_bytes_deleted
    }

    /// The number of records superseded or deleted since the store was
    /// opened or last merged.
    pub fn entries_deleted(&self) -> (n: u64)
        ensures
            n == self@.entries_deleted,
    {
        self.stats.num_entries_deleted
    }

    /// Tells whether the directory holds `key`.
    pub fn contains(&self, key: &[u8]) -> (b: bool)
        requires
            self.wf(),
        ensures
            b == self@.contains(key@),
    {
        match self.index.get(key) {
            Some(_) => true,
            None => false,
        }
    }

    /// Reads the record that `entry` names.
    pub fn read(&self, entry: &Entry) -> (r: Option<Value>)
        requires
            self.wf(),
        ensures
            value_view(r) == read_entry(self@.segments, *entry),
    {
        if entry.file() > self.counter {
            return None;
        }
        let map = FileMap::new(self.segment(entry.file()));
        match map.get(entry.offset(), entry.size()) {
            Ok(value) => Some(value),
            Err(_) => None,
        }
    }

    /// Looks `key` up and reads its value. A record that fails its
    /// checksum, or cannot be read for any other reason, gives nothing.
    pub fn get(&self, key: &[u8]) -> (r: Option<Value>)
        requires
            self.wf(),
        ensures
            value_view(r) == self@.get(key@),
    {
        match self.index.get(key) {
            Some(entry) => self.read(entry),
            None => None,
        }
    }

    /// Flushes the active segment and writes the snapshot anew.
    pub fn flush(&mut self)
        requires
            old(self).wf(),
        ensures
            final(self).wf(),
            final(self)@ == old(self)@.flush(),
            final(self).options() == old(self).options(),
    {
        self.disk.flush();
        let bytes = self.index.write();
        self.snapshot = Some(bytes);
        proof {
            self.index.lemma_listing();
            lemma_listing_of(self.index.listing(), self.index@);
            assert(self@.segments =~= old(self)@.segments);
            self.lemma_establish();
        }
    }

    /// Seals the active segment and begins the next one.
    fn swap_file(&mut self)
        requires
            old(self).wf(),
        ensures
            final(self).wf(),
            final(self)@ == old(self)@.roll(),
            final(self).options() == old(self).options(),
    {
        self.flush();
        let sealed = self.disk.replace(data_header());
        self.sealed.push(sealed);
        self.counter = self.sealed.len() as u64;
        proof {
            assert(self@.segments =~= old(self)@.roll().segments);
            assert forall|key: Seq<u8>| #[trigger] self.index@.contains_key(key) implies located(
                self@.segments,
                self.index@[key],
            ) by {
                let e = self.index@[key];
                assert(located(old(self)@.segments, e));
                assert(self@.segments[e.file as int] == old(self)@.segments[e.file as int]);
            }
            self.lemma_establish();
        }
    }

    /// Puts `value` under `key` with the timestamp `timestamp`.
    ///
    /// A key or a value that is longer than its cap is refused and nothing
    /// changes. Else a rollover is made where the record does not fit the
    /// active segment, the record is appended, the directory is pointed at
    /// it, the record it supersedes is counted as garbage, and the store is
    /// flushed.
    pub fn insert_at(&mut self, timestamp: u64, key: &[u8], value: &[u8]) -> (r: Result<
        (),
        KeyValueStoreError,
    >)
        requires
            old(self).wf(),
        ensures
            final(self).wf(),
            final(self).options() == old(self).options(),
            old(self)@.too_large(key@, value@) ==> r == Err::<(), KeyValueStoreError>(
                KeyValueStoreError::PayloadTooLarge,
            ) && final(self)@ == old(self)@,
            !old(self)@.too_large(key@, value@) ==> r == Ok::<(), KeyValueStoreError>(())
                && final(self)@ == old(self)@.insert(timestamp, key@, value@),
    {
        let key_fits = match self.opts.max_key_size {
            Some(cap) => key.len() as u64 <= cap,
            None => true,
        };
        let value_fits = match self.opts.max_value_size {
            Some(cap) => value.len() as u64 <= cap,
            None => true,
        };
        if !key_fits || !value_fits {
            return Err(KeyValueStoreError::PayloadTooLarge);
        }
        let needed: u128 = self.disk.len() as u128 + 29 + key.len() as u128 + value.len() as u128;
        proof {
            lemma_put_record_layout(timestamp, key@, value@);
        }
        if needed > self.opts.file_size_limit as u128 {
            self.swap_file();
        }
        let ghost s = self@;
        assert(s.wf());
        assert(s == if old(self)@.must_roll(put_record_len(key@, value@)) {
            old(self)@.roll()
        } else {
            old(self)@
        }) by {
            assert(old(self)@.active() == old(self).disk@);
        }
        let (offset, size) = self.disk.append_entry(timestamp, key, value);
        let file_id = self.counter;
        match self.index.insert(key, timestamp, file_id, offset, size) {
            Some(prev) => {
                self.stats.num_entries_deleted = self.stats.num_entries_deleted.saturating_add(1);
                self.stats.num_bytes_deleted = self.stats.num_bytes_deleted.saturating_add(
                    prev.size(),
                );
            },
            None => {},
        }
        proof {
            let record = put_record(timestamp, key@, value@);
            let last = s.segments.len() - 1;
            assert(self@.segments =~= s.append(record).segments);
            assert(self@.segments[last] == s.active() + record);
            assert forall|k: Seq<u8>| #[trigger] self.index@.contains_key(k) implies located(
                self@.segments,
                self.index@[k],
            ) by {
                if k != key@ {
                    let e = s.index[k];
                    assert(s.index.contains_key(k));
                    assert(located(s.segments, e));
                    if e.file < last {
                        assert(self@.segments[e.file as int] == s.segments[e.file as int]);
                    }
                } else {
                    let e = self.index@[k];
                    assert(e.file == last);
                    assert(e.offset == s.active().len());
                    assert(e.size == record.len());
                }
            }
            self.lemma_establish();
        }
        self.flush();
        proof {
            let expected = old(self)@.insert(timestamp, key@, value@);
            assert(self@.segments =~= expected.segments);
            assert(self@.index =~= expected.index);
            assert(self@.snapshot == expected.snapshot);
            assert(self@.bytes_deleted == expected.bytes_deleted);
            assert(self@.entries_deleted == expected.entries_deleted);
            assert(self@.limits == expected.limits);
        }
        Ok(())
    }

    /// Puts `value` under `key` with the time of the call as timestamp.
    pub fn insert(&mut self, key: &[u8], value: &[u8]) -> (r: Result<(), KeyValueStoreError>)
        requires
            old(self).wf(),
        ensures
            final(self).wf(),
            final(self).options() == old(self).options(),
            old(self)@.too_large(key@, value@) ==> r == Err::<(), KeyValueStoreError>(
                KeyValueStoreError::PayloadTooLarge,
            ) && final(self)@ == old(self)@,
            !old(self)@.too_large(key@, value@) ==> r == Ok::<(), KeyValueStoreError>(())
                && exists|timestamp: u64|
                final(self)@ == #[trigger] old(self)@.insert(timestamp, key@, value@),
    {
        let timestamp = timestamp_now();
        self.insert_at(timestamp, key, value)
    }

    /// Puts `value` under `key` with the timestamp `timestamp`, unless the
    /// directory holds the key already, and tells whether it did so.
    pub fn insert_if_none_at(&mut self, timestamp: u64, key: &[u8], value: &[u8]) -> (r: Result<
        bool,
        KeyValueStoreError,
    >)
        requires
            old(self).wf(),
        ensures
            final(self).wf(),
            final(self).options() == old(self).options(),
            old(self)@.contains(key@) ==> r == Ok::<bool, KeyValueStoreError>(false)
                && final(self)@ == old(self)@,
            !old(self)@.contains(key@) && old(self)@.too_large(key@, value@) ==> r == Err::<
                bool,
                KeyValueStoreError,
            >(KeyValueStoreError::PayloadTooLarge) && final(self)@ == old(self)@,
            !old(self)@.contains(key@) && !old(self)@.too_large(key@, value@) ==> r == Ok::<
                bool,
                KeyValueStoreError,
            >(true) && final(self)@ == old(self)@.insert(timestamp, key@, value@),
    {
        if self.contains(key) {
            return Ok(false);
        }
        match self.insert_at(timestamp, key, value) {
            Ok(()) => Ok(true),
            Err(e) => Err(e),
        }
    }

    /// Puts `value` under `key` with the time of the call as timestamp,
    /// unless the directory holds the key already, and tells whether it
    /// did so.
    pub fn insert_if_none(&mut self, key: &[u8], value: &[u8]) -> (r: Result<
        bool,
        KeyValueStoreError,
    >)
        requires
            old(self).wf(),
        ensures
            final(self).wf(),
            final(self).options() == old(self).options(),
            old(self)@.contains(key@) ==> r == Ok::<bool, KeyValueStoreError>(false)
                && final(self)@ == old(self)@,
            !old(self)@.contains(key@) && old(self)@.too_large(key@, value@) ==> r == Err::<
                bool,
                KeyValueStoreError,
            >(KeyValueStoreError::PayloadTooLarge) && final(self)@ == old(self)@,
            !old(self)@.contains(key@) && !old(self)@.too_large(key@, value@) ==> r == Ok::<
                bool,
                KeyValueStoreError,
            >(true) && exists|timestamp: u64|
                final(self)@ == #[trigger] old(self)@.insert(timestamp, key@, value@),
    {
        let timestamp = timestamp_now();
        self.insert_if_none_at(timestamp, key, value)
    }

    /// Deletes `key` with the timestamp `timestamp`, and tells whether the
    /// directory held it. Where it did, the key leaves the directory, a
    /// tombstone is appended and flushed, and the record is counted as
    /// garbage; the snapshot is not written.
    pub fn delete_at(&mut self, timestamp: u64, key: &[u8]) -> (deleted: bool)
        requires
            old(self).wf(),
        ensures
            final(self).wf(),
            final(self).options() == old(self).options(),
            deleted == old(self)@.contains(key@),
            final(self)@ == old(self)@.delete(timestamp, key@),
    {
        let ghost s = self@;
        match self.index.delete(key) {
            Some(entry) => {
                self.disk.delete(timestamp, key);
                self.disk.flush();
                self.stats.num_bytes_deleted = self.stats.num_bytes_deleted.saturating_add(
                    entry.size(),
                );
                self.stats.num_entries_deleted = self.stats.num_entries_deleted.saturating_add(1);
                proof {
                    let record = tombstone_record(timestamp, key@);
                    let last = s.segments.len() - 1;
                    assert(self@.segments =~= s.append(record).segments);
                    assert(self@.segments[last] == s.active() + record);
                    assert forall|k: Seq<u8>| #[trigger]
                        self.index@.contains_key(k) implies located(
                        self@.segments,
                        self.index@[k],
                    ) by {
                        let e = s.index[k];
                        assert(s.index.contains_key(k));
                        assert(located(s.segments, e));
                        if e.file < last {
                            assert(self@.segments[e.file as int] == s.segments[e.file as int]);
                        }
                    }
                    self.lemma_establish();
                    let expected = s.delete(timestamp, key@);
                    assert(self@.segments =~= expected.segments);
                    assert(self@.index =~= expected.index);
                }
                true
            },
            None => {
                proof {
                    assert(self@.index =~= s.index);
                    assert(self@.segments =~= s.segments);
                }
                false
            },
        }
    }

    /// Deletes `key` with the time of the call as timestamp, and tells
    /// whether the directory held it.
    pub fn delete(&mut self, key: &[u8]) -> (deleted: bool)
        requires
            old(self).wf(),
        ensures
            final(self).wf(),
            final(self).options() == old(self).options(),
            deleted == old(self)@.contains(key@),
            exists|timestamp: u64| final(self)@ == #[trigger] old(self)@.delete(timestamp, key@),
    {
        let timestamp = timestamp_now();
        self.delete_at(timestamp, key)
    }

    /// The keys of the directory in ascending order.
    pub fn keys(&self) -> (keys: Vec<Vec<u8>>)
        requires
            self.wf(),
        ensures
            keys@.len() == listing_of(self@.index).len(),
            forall|i: int|
                0 <= i < keys@.len() ==> (#[trigger] keys@[i])@ == listing_of(self@.index)[i].0,
    {
        proof {
            self.index.lemma_listing();
            lemma_listing_of(self.index.listing(), self.index@);
        }
        self.index.keys()
    }

    /// The keys of the directory from `start` to `end`, both included, in
    /// ascending order.
    pub fn keys_range(&self, start: &[u8], end: &[u8]) -> (keys: Vec<Vec<u8>>)
        requires
            self.wf(),
        ensures
            keys@.len() == self@.range_keys(start@, end@).len(),
            forall|i: int|
                0 <= i < keys@.len() ==> (#[trigger] keys@[i])@ == self@.range_keys(
                    start@,
                    end@,
                )[i].0,
    {
        proof {
            self.index.lemma_listing();
            lemma_listing_of(self.index.listing(), self.index@);
        }
        let found = self.index.range(start, end);
        let ghost l = pairs(found@);
        let mut keys: Vec<Vec<u8>> = Vec::new();
        let mut i: usize = 0;
        while i < found.len()
            invariant
                i <= found@.len(),
                l == pairs(found@),
                keys@.len() == i,
                forall|j: int| 0 <= j < i ==> (#[trigger] keys@[j])@ == l[j].0,
            decreases found@.len() - i,
        {
            assert(l[i as int].0 == found@[i as int].0@);
            keys.push(slice_to_vec(found[i].0.as_slice()));
            i = i + 1;
        }
        keys
    }

    /// Rewrites the live records into new segments and drops the rest.
    ///
    /// Nothing happens where no garbage is counted. Else the records that
    /// the directory names are copied byte for byte, in ascending order of
    /// their keys, into a new sequence of segments that begins with number
    /// zero. Where a record would make the segment under construction
    /// longer than the limit, the next segment is begun and the directory
    /// under construction starts anew. The new segments and the directory
    /// of the last of them replace the old ones, the counts of garbage
    /// return to zero, and the store is flushed.
    pub fn merge(&mut self)
        requires
            old(self).wf(),
        ensures
            final(self).wf(),
            final(self).options() == old(self).options(),
            final(self)@ == old(self)@.merge(),
    {
        if self.stats.num_bytes_deleted == 0 {
            return ;
        }
        let ghost source = self@.segments;
        let ghost l = self.index.listing();
        let limit = self.opts.file_size_limit;
        proof {
            self.index.lemma_listing();
            lemma_listing_of(l, self.index@);
        }
        let entries = self.index.entries();
        let mut sealed: Vec<Vec<u8>> = Vec::new();
        let mut disk = new_data_file();
        let mut index = Index::new();
        let mut i: usize = 0;
        proof {
            assert(l.take(0) =~= Seq::<(Seq<u8>, Entry)>::empty());
            assert(files_view(sealed@).push(disk@) =~= merge_start().segments);
        }
        while i < entries.len()
            invariant
                self.wf(),
                source == self@.segments,
                l == self.index.listing(),
                is_listing(l, self.index@),
                pairs(entries@) == l,
                limit == self.opts.file_size_limit,
                i <= entries@.len(),
                index.wf(),
                disk.wf(),
                files_view(sealed@).push(disk@) == merge_fold(
                    source,
                    l.take(i as int),
                    limit,
                ).segments,
                index@ == merge_fold(source, l.take(i as int), limit).index,
                forall|key: Seq<u8>| #[trigger]
                    index@.contains_key(key) ==> index@[key].file == sealed@.len()
                        && index@[key].offset + index@[key].size <= disk@.len(),
            decreases entries@.len() - i,
        {
            let key = entries[i].0.as_slice();
            let entry = entries[i].1;
            let ghost before = merge_fold(source, l.take(i as int), limit);
            proof {
                assert(l[i as int] == (key@, entry));
                lemma_listed_at(l, i as int);
                assert(self@.index.contains_key(key@));
                assert(located(source, entry));
                assert(l.take(i + 1).drop_last() =~= l.take(i as int));
                assert(l.take(i + 1).last() == l[i as int]);
                assert(before.segments.last() == disk@);
                disk.lemma_flushed();
            }
            if disk.len() as u128 + entry.size() as u128 > limit as u128 {
                let full = disk.replace(data_header());
                let ghost old_sealed = files_view(sealed@);
                sealed.push(full);
                index.clear();
                assert(files_view(sealed@).push(disk@) =~= before.segments.push(
                    DATA_FILE_HEADER@,
                ));
            }
            let ghost rolled = files_view(sealed@).push(disk@);
            let ghost rolled_index = index@;
            let src = self.segment(entry.file());
            assert(src.len() == src@.len());
            let from = entry.offset() as usize;
            let to = (entry.offset() + entry.size()) as usize;
            let record = slice_subrange(src, from, to);
            let offset = disk.append(record);
            let file_id = sealed.len() as u64;
            index.insert(key, entry.timestamp(), file_id, offset, entry.size());
            proof {
                let after = merge_step(source, before, l[i as int], limit);
                let last = rolled.len() - 1;
                assert(files_view(sealed@).push(disk@) =~= rolled.update(
                    last,
                    rolled[last] + record@,
                ));
                assert(files_view(sealed@).push(disk@) =~= after.segments);
                assert(index@ =~= after.index);
            }
            i = i + 1;
        }
        proof {
            assert(l.take(i as int) =~= l);
        }
        self.sealed = sealed;
        self.disk = disk;
        self.disk.flush();
        self.index = index;
        self.counter = self.sealed.len() as u64;
        self.stats.num_bytes_deleted = 0;
        self.stats.num_entries_deleted = 0;
        proof {
            assert forall|key: Seq<u8>| #[trigger] self.index@.contains_key(key) implies located(
                self@.segments,
                self.index@[key],
            ) by {
                assert(self@.segments[self.index@[key].file as int] == self.disk@);
            }
            self.lemma_establish();
        }
        self.flush();
        proof {
            let expected = old(self)@.merge();
            assert(self@.segments =~= expected.segments);
            assert(self@.index =~= expected.index);
        }
    }

    /// The keys from `lower` to `upper` with their entries, in ascending
    /// order of the keys.
    pub fn entries_in(&self, lower: &KeyBound, upper: &KeyBound) -> (entries: Vec<(Vec<u8>, Entry)>)
        requires
            self.wf(),
        ensures
            pairs(entries@) == range_of(listing_of(self@.index), lower@, upper@),
    {
        proof {
            self.index.lemma_listing();
            lemma_listing_of(self.index.listing(), self.index@);
        }
        self.index.range_bounds(lower, upper)
    }

    /// An iteration over the keys from `lower` to `upper` with their
    /// values, in ascending order of the keys.
    pub fn iter<'a>(&'a self, lower: &KeyBound, upper: &KeyBound) -> (iter: RangeIter<'a>)
        requires
            self.wf(),
        ensures
            iter.wf(),
            iter.store() == self,
            iter.remaining() == self@.range(lower@, upper@),
    {
        RangeIter::new(self, lower, upper)
    }

    /// Flushes the store and gives up its files: the segments in the order
    /// of their numbers, and the snapshot.
    pub fn close(self) -> (files: (Vec<Vec<u8>>, Vec<u8>))
        requires
            self.wf(),
        ensures
            files_view(files.0@) == self@.segments,
            files.1@ == snapshot_of(self@.index),
    {
        let mut store = self;
        store.flush();
        let Bitcask { sealed, disk, snapshot, .. } = store;
        let mut segments = sealed;
        let ghost before = files_view(segments@);
        segments.push(disk.into_bytes());
        proof {
            assert(files_view(segments@) =~= before.push(disk@));
        }
        match snapshot {
            Some(bytes) => (segments, bytes),
            None => (segments, Vec::new()),
        }
    }
}

} // verus!
