//! The store as a mathematical value, and what each operation makes of it.
//!
//! A state holds the bytes of every segment, the directory, the bytes of
//! the snapshot, and the counts of what has become garbage. The executable
//! store is specified by the functions of this module.

use vstd::prelude::*;
use crate::index::{
    is_listing, lemma_listing_unique, listing_entries, range_of, replay, load, Entry, Listing,
};
use crate::order::Bound;
use crate::reader::{lemma_parse_record_len, scan, scan_segment, EntryView};
use crate::record::{parse_record, put_record, read_at, tombstone_record};
use crate::settings::Limits;
use crate::snapshot::{parse_snapshot, snapshot_bytes};
use crate::util::{DATA_FILE_HEADER, DATA_HEADER_LEN};

verus! {

/// The ascending listing of the map `m`.
pub open spec fn listing_of(m: Map<Seq<u8>, Entry>) -> Listing {
    choose|l: Listing| is_listing(l, m)
}

/// An ascending listing of a map is the listing of the map.
pub proof fn lemma_listing_of(l: Listing, m: Map<Seq<u8>, Entry>)
    requires
        is_listing(l, m),
    ensures
        listing_of(m) == l,
{
    lemma_listing_unique(listing_of(m), l);
}

/// The bytes of the snapshot of the directory `m`.
pub open spec fn snapshot_of(m: Map<Seq<u8>, Entry>) -> Seq<u8> {
    snapshot_bytes(listing_entries(listing_of(m)))
}

/// The entry `e` names a byte range that lies inside one of `segments`.
pub open spec fn located(segments: Seq<Seq<u8>>, e: Entry) -> bool {
    e.file < segments.len() && e.offset + e.size <= segments[e.file as int].len()
}

/// Every entry of `m` names a byte range inside one of `segments`, under a
/// key that fits the machine.
pub open spec fn all_located(segments: Seq<Seq<u8>>, m: Map<Seq<u8>, Entry>) -> bool {
    forall|key: Seq<u8>| #[trigger]
        m.contains_key(key) ==> key.len() <= u64::MAX && located(segments, m[key])
}

/// Keys that fit the machine are all that `all_located` asks beyond the
/// byte ranges.
pub proof fn lemma_all_located(segments: Seq<Seq<u8>>, m: Map<Seq<u8>, Entry>)
    requires
        forall|key: Seq<u8>| #[trigger] m.contains_key(key) ==> key.len() <= u64::MAX,
    ensures
        all_located(segments, m) == (forall|key: Seq<u8>| #[trigger]
            m.contains_key(key) ==> located(segments, m[key])),
{
}

/// The sum of two counts, held at the largest count where it would pass it.
pub open spec fn capped_sum(a: u64, b: u64) -> u64 {
    if a + b > u64::MAX {
        u64::MAX
    } else {
        (a + b) as u64
    }
}

/// What a read of the record that `e` names gives: the timestamp and the
/// value, or nothing where the read fails for any reason.
pub open spec fn read_entry(segments: Seq<Seq<u8>>, e: Entry) -> Option<(u64, Seq<u8>)> {
    if e.file < segments.len() {
        match read_at(segments[e.file as int], e.offset, e.size) {
            Ok(v) => Some(v),
            Err(_) => None,
        }
    } else {
        None
    }
}

/// The keys of `l` with what a read of each gives, in the order of `l`,
/// without those whose read fails.
pub open spec fn readable(segments: Seq<Seq<u8>>, l: Listing) -> Seq<(Seq<u8>, (u64, Seq<u8>))>
    decreases l.len(),
{
    if l.len() == 0 {
        Seq::empty()
    } else {
        match read_entry(segments, l[0].1) {
            Some(v) => seq![(l[0].0, v)] + readable(segments, l.skip(1)),
            None => readable(segments, l.skip(1)),
        }
    }
}

/// The directory that a scan of all of `segments` rebuilds, the segments
/// taken in ascending order of their numbers.
pub open spec fn reconstruct(segments: Seq<Seq<u8>>) -> Map<Seq<u8>, Entry>
    decreases segments.len(),
{
    if segments.len() == 0 {
        Map::empty()
    } else {
        replay(
            reconstruct(segments.drop_last()),
            scan_segment(segments.last()),
            (segments.len() - 1) as u64,
        )
    }
}

/// Every entry that a scan emits names a byte range of what was scanned,
/// and has a key that fits the machine.
pub proof fn lemma_scan_bounds(s: Seq<u8>, base: nat, i: int)
    requires
        base + s.len() <= u64::MAX,
        0 <= i < scan(s, base).len(),
    ensures
        base <= scan(s, base)[i].offset,
        scan(s, base)[i].offset + scan(s, base)[i].size <= base + s.len(),
        scan(s, base)[i].key.len() <= u64::MAX,
    decreases s.len(),
{
    let p = parse_record(s).unwrap();
    lemma_parse_record_len(s);
    if i > 0 {
        let rest = scan(s.skip(p.len as int), base + p.len);
        assert(scan(s, base)[i] == rest[i - 1]);
        lemma_scan_bounds(s.skip(p.len as int), base + p.len, i - 1);
    }
}

/// Every entry that a scan of a segment emits names a byte range of the
/// segment.
pub proof fn lemma_scan_segment_bounds(segment: Seq<u8>, i: int)
    requires
        segment.len() <= u64::MAX,
        0 <= i < scan_segment(segment).len(),
    ensures
        scan_segment(segment)[i].offset + scan_segment(segment)[i].size <= segment.len(),
        scan_segment(segment)[i].key.len() <= u64::MAX,
{
    lemma_scan_bounds(segment.skip(DATA_HEADER_LEN as int), DATA_HEADER_LEN as nat, i);
}

/// A replay of entries that name byte ranges of their segment keeps every
/// entry of the directory inside its segment.
pub proof fn lemma_replay_located(
    m: Map<Seq<u8>, Entry>,
    entries: Seq<EntryView>,
    file_id: u64,
    segments: Seq<Seq<u8>>,
)
    requires
        file_id < segments.len(),
        all_located(segments, m),
        forall|i: int|
            0 <= i < entries.len() ==> (#[trigger] entries[i]).offset + entries[i].size
                <= segments[file_id as int].len() && entries[i].key.len() <= u64::MAX,
    ensures
        all_located(segments, replay(m, entries, file_id)),
    decreases entries.len(),
{
    if entries.len() > 0 {
        let front = entries.drop_last();
        assert forall|i: int| 0 <= i < front.len() implies (#[trigger] front[i]).offset
            + front[i].size <= segments[file_id as int].len() && front[i].key.len()
            <= u64::MAX by {
            assert(front[i] == entries[i]);
        }
        lemma_replay_located(m, front, file_id, segments);
        assert(entries.last() == entries[entries.len() - 1]);
    }
}

/// Every entry of a rebuilt directory names a byte range inside its
/// segment.
pub proof fn lemma_reconstruct_located(segments: Seq<Seq<u8>>)
    requires
        segments.len() <= u64::MAX + 1,
        forall|i: int| 0 <= i < segments.len() ==> (#[trigger] segments[i]).len() <= u64::MAX,
    ensures
        all_located(segments, reconstruct(segments)),
    decreases segments.len(),
{
    if segments.len() > 0 {
        let front = segments.drop_last();
        let m = reconstruct(front);
        assert forall|i: int| 0 <= i < front.len() implies (#[trigger] front[i]).len()
            <= u64::MAX by {
            assert(front[i] == segments[i]);
        }
        lemma_reconstruct_located(front);
        assert forall|key: Seq<u8>| #[trigger] m.contains_key(key) implies key.len() <= u64::MAX
            && located(segments, m[key]) by {
            assert(located(front, m[key]));
            assert(front[m[key].file as int] == segments[m[key].file as int]);
        }
        let entries = scan_segment(segments.last());
        let file_id = (segments.len() - 1) as u64;
        assert forall|i: int| 0 <= i < entries.len() implies (#[trigger] entries[i]).offset
            + entries[i].size <= segments[file_id as int].len() && entries[i].key.len()
            <= u64::MAX by {
            lemma_scan_segment_bounds(segments.last(), i);
        }
        lemma_replay_located(m, entries, file_id, segments);
    }
}

/// The directory that the snapshot `snapshot` gives for `segments`: what
/// its entries load, if it is a whole snapshot and every loaded entry
/// names a byte range inside its segment.
pub open spec fn snapshot_index(segments: Seq<Seq<u8>>, snapshot: Option<Seq<u8>>) -> Option<
    Map<Seq<u8>, Entry>,
> {
    match snapshot {
        None => None,
        Some(bytes) => match parse_snapshot(bytes) {
            None => None,
            Some(entries) => {
                let m = load(Map::empty(), entries);
                if all_located(segments, m) {
                    Some(m)
                } else {
                    None
                }
            },
        },
    }
}

/// The segments and the directory of a merge under way.
pub struct Merged {
    pub segments: Seq<Seq<u8>>,
    pub index: Map<Seq<u8>, Entry>,
}

/// A merge that has copied nothing yet: one segment with the magic, and an
/// empty directory.
pub open spec fn merge_start() -> Merged {
    Merged { segments: seq![DATA_FILE_HEADER@], index: Map::empty() }
}

/// The merge `m` after the record of `item` has been copied from `source`.
/// Where the record would make the last segment longer than `limit`, a new
/// segment is begun first and the directory of the merge starts anew.
pub open spec fn merge_step(source: Seq<Seq<u8>>, m: Merged, item: (Seq<u8>, Entry), limit: u64)
    -> Merged {
    let e = item.1;
    let roll = m.segments.last().len() + e.size > limit;
    let segments = if roll {
        m.segments.push(DATA_FILE_HEADER@)
    } else {
        m.segments
    };
    let index = if roll {
        Map::empty()
    } else {
        m.index
    };
    let last = segments.len() - 1;
    let record = source[e.file as int].subrange(e.offset as int, e.offset + e.size);
    Merged {
        segments: segments.update(last, segments[last] + record),
        index: index.insert(
            item.0,
            Entry {
                file: last as u64,
                timestamp: e.timestamp,
                offset: segments[last].len() as u64,
                size: e.size,
            },
        ),
    }
}

/// The merge after the records of `l` have been copied from `source`, in
/// the order of `l`.
pub open spec fn merge_fold(source: Seq<Seq<u8>>, l: Listing, limit: u64) -> Merged
    decreases l.len(),
{
    if l.len() == 0 {
        merge_start()
    } else {
        merge_step(source, merge_fold(source, l.drop_last(), limit), l.last(), limit)
    }
}

/// The store as a value.
pub struct State {
    /// The bytes of the segments, each at the place of its number. The
    /// last one is the active segment.
    pub segments: Seq<Seq<u8>>,
    /// The directory.
    pub index: Map<Seq<u8>, Entry>,
    /// The bytes of the snapshot, once one has been written.
    pub snapshot: Option<Seq<u8>>,
    /// The bytes of the records superseded or deleted since the store was
    /// opened or last merged.
    pub bytes_deleted: u64,
    /// The number of those records.
    pub entries_deleted: u64,
    /// The limits the store was opened with.
    pub limits: Limits,
}

impl State {
    /// The state is one that a store can be in: there is a segment, the
    /// numbers and lengths fit the machine, the directory can be listed,
    /// and each of its entries names a byte range inside its segment.
    pub open spec fn wf(self) -> bool {
        &&& 1 <= self.segments.len() <= u64::MAX + 1
        &&& forall|i: int|
            0 <= i < self.segments.len() ==> (#[trigger] self.segments[i]).len() <= u64::MAX
        &&& exists|l: Listing| is_listing(l, self.index)
        &&& all_located(self.segments, self.index)
    }

    /// The number of the active segment.
    pub open spec fn counter(self) -> u64 {
        (self.segments.len() - 1) as u64
    }

    /// The bytes of the active segment.
    pub open spec fn active(self) -> Seq<u8> {
        self.segments.last()
    }

    /// The directory holds `key`.
    pub open spec fn contains(self, key: Seq<u8>) -> bool {
        self.index.contains_key(key)
    }

    /// What a lookup of `key` gives: the timestamp and the value of the
    /// record that the directory names for it, or nothing where the
    /// directory does not hold the key or the read fails.
    pub open spec fn get(self, key: Seq<u8>) -> Option<(u64, Seq<u8>)> {
        if self.index.contains_key(key) {
            read_entry(self.segments, self.index[key])
        } else {
            None
        }
    }

    /// The keys of the range from `lower` to `upper` with their values, in
    /// ascending order of the keys, without those whose read fails.
    pub open spec fn range(self, lower: Bound, upper: Bound) -> Seq<(Seq<u8>, (u64, Seq<u8>))> {
        readable(self.segments, range_of(listing_of(self.index), lower, upper))
    }

    /// The keys from `start` to `end`, both included, with their entries,
    /// in ascending order of the keys.
    pub open spec fn range_keys(self, start: Seq<u8>, end: Seq<u8>) -> Listing {
        range_of(listing_of(self.index), Bound::Included(start), Bound::Included(end))
    }

    /// A new store: one segment that holds the magic, nothing else.
    pub open spec fn create(limits: Limits) -> State {
        State {
            segments: seq![DATA_FILE_HEADER@],
            index: Map::empty(),
            snapshot: None,
            bytes_deleted: 0,
            entries_deleted: 0,
            limits,
        }
    }

    /// The store that opening the files `segments` and `snapshot` gives.
    /// Without segments it is a new store. The directory comes from the
    /// snapshot where that is whole and names only byte ranges that exist;
    /// else it is rebuilt by a scan, and a snapshot of it is written.
    pub open spec fn open(limits: Limits, segments: Seq<Seq<u8>>, snapshot: Option<Seq<u8>>)
        -> State {
        if segments.len() == 0 {
            State::create(limits)
        } else {
            match snapshot_index(segments, snapshot) {
                Some(index) => State {
                    segments,
                    index,
                    snapshot,
                    bytes_deleted: 0,
                    entries_deleted: 0,
                    limits,
                },
                None => {
                    let index = reconstruct(segments);
                    State {
                        segments,
                        index,
                        snapshot: Some(snapshot_of(index)),
                        bytes_deleted: 0,
                        entries_deleted: 0,
                        limits,
                    }
                },
            }
        }
    }

    /// The store with its snapshot written anew.
    pub open spec fn flush(self) -> State {
        State { snapshot: Some(snapshot_of(self.index)), ..self }
    }

    /// The store after a rollover: the snapshot written anew, and a new
    /// active segment that holds the magic.
    pub open spec fn roll(self) -> State {
        State {
            segments: self.segments.push(DATA_FILE_HEADER@),
            snapshot: Some(snapshot_of(self.index)),
            ..self
        }
    }

    /// The store with `bytes` added at the end of the active segment.
    pub open spec fn append(self, bytes: Seq<u8>) -> State {
        State {
            segments: self.segments.update(self.segments.len() - 1, self.active() + bytes),
            ..self
        }
    }

    /// An append of `n` bytes would make the active segment longer than
    /// the limit.
    pub open spec fn must_roll(self, n: nat) -> bool {
        self.active().len() + n > self.limits.file_size
    }

    /// `key` or `value` is longer than its cap.
    pub open spec fn too_large(self, key: Seq<u8>, value: Seq<u8>) -> bool {
        ||| self.limits.max_key matches Some(cap) && key.len() > cap
        ||| self.limits.max_value matches Some(cap) && value.len() > cap
    }

    /// The store with the count of garbage raised by the record of `e`.
    pub open spec fn discard(self, e: Entry) -> State {
        State {
            bytes_deleted: capped_sum(self.bytes_deleted, e.size),
            entries_deleted: capped_sum(self.entries_deleted, 1),
            ..self
        }
    }

    /// The store after `value` has been put under `key` at the time
    /// `timestamp`: a rollover where the record does not fit, the record
    /// appended, the directory pointing at it, the record it supersedes
    /// counted as garbage, and the snapshot written anew.
    pub open spec fn insert(self, timestamp: u64, key: Seq<u8>, value: Seq<u8>) -> State {
        let record = put_record(timestamp, key, value);
        let s = if self.must_roll(record.len()) {
            self.roll()
        } else {
            self
        };
        let entry = Entry {
            file: s.counter(),
            timestamp,
            offset: s.active().len() as u64,
            size: record.len() as u64,
        };
        let counted = if s.index.contains_key(key) {
            s.discard(s.index[key])
        } else {
            s
        };
        let index = s.index.insert(key, entry);
        State { index, snapshot: Some(snapshot_of(index)), ..counted.append(record) }
    }

    /// The store after `key` has been deleted at the time `timestamp`:
    /// unchanged where the directory does not hold the key; else the key
    /// taken out, a tombstone appended, and the record counted as garbage.
    /// The snapshot is not written.
    pub open spec fn delete(self, timestamp: u64, key: Seq<u8>) -> State {
        if self.index.contains_key(key) {
            State {
                index: self.index.remove(key),
                ..self.discard(self.index[key]).append(tombstone_record(timestamp, key))
            }
        } else {
            self
        }
    }

    /// The store after a merge: unchanged where no garbage is counted;
    /// else the records that the directory names copied, in ascending
    /// order of their keys, into new segments, the directory pointing at
    /// the copies of the last segment begun, the counts at zero, and the
    /// snapshot written anew.
    pub open spec fn merge(self) -> State {
        if self.bytes_deleted == 0 {
            self
        } else {
            let m = merge_fold(self.segments, listing_of(self.index), self.limits.file_size);
            State {
                segments: m.segments,
                index: m.index,
                snapshot: Some(snapshot_of(m.index)),
                bytes_deleted: 0,
                entries_deleted: 0,
                limits: self.limits,
            }
        }
    }
}

} // verus!
