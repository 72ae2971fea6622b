//! Laws of the rebuilt directory: what a scan of the segments gives, and
//! when it gives the directory that the store holds.

use vstd::prelude::*;
use crate::index::{
    ascending, entry_at, is_listing, lemma_listed_at, lemma_listing_set, lemma_listing_unset,
    listed, listing_set, listing_unset, lists, load, place, replay, replay_step, Entry,
    Listing,
};
use crate::snapshot::parse_snapshot;
use crate::order::{lemma_lex_irreflexive, lex_lt};
use crate::laws::{
    lemma_create, lemma_delete, lemma_merge_fold, lemma_snapshot_round_trip, live_bytes,
    merge_fits, room_for_put, room_for_tombstone,
};
use crate::error::KeyValueStoreError;
use crate::model::{
    lemma_reconstruct_located, listing_of, located, merge_fold, reconstruct, snapshot_index,
    snapshot_of, State,
};
use crate::reader::{lemma_parse_record_len, scan, scan_segment, scanned_entry, EntryView};
use crate::record::{
    lemma_parse_put_record, lemma_parse_tombstone_record, lemma_put_record_layout,
    lemma_tombstone_record_layout, parse_record, put_record, read_value, tombstone_record,
};
use crate::settings::Limits;
use crate::util::{has_data_header, DATA_FILE_HEADER, DATA_HEADER_LEN};

verus! {

/// `s` is whole records from end to end, each with a matching checksum.
pub open spec fn whole(s: Seq<u8>) -> bool
    decreases s.len(),
{
    if s.len() == 0 {
        true
    } else {
        match parse_record(s) {
            None => false,
            Some(p) => 0 < p.len <= s.len() && whole(s.skip(p.len as int)),
        }
    }
}

/// The segment is the magic followed by whole records.
pub open spec fn clean(segment: Seq<u8>) -> bool {
    has_data_header(segment) && whole(segment.skip(DATA_HEADER_LEN as int))
}

/// A record that stands at the front of `s` stands at the front of `s`
/// with anything behind it.
pub proof fn lemma_parse_prefix(s: Seq<u8>, more: Seq<u8>)
    requires
        parse_record(s) is Some,
    ensures
        parse_record(s + more) == parse_record(s),
{
    let p = parse_record(s).unwrap();
    let t = s + more;
    assert(t.subrange(0, 4) =~= s.subrange(0, 4));
    assert(t.subrange(4, 12) =~= s.subrange(4, 12));
    assert(t.subrange(13, 21) =~= s.subrange(13, 21));
    assert(t[12] == s[12]);
    assert(t.subrange(4, p.len as int) =~= s.subrange(4, p.len as int));
    if !p.tombstone {
        assert(t.subrange(21, 29) =~= s.subrange(21, 29));
        assert(t.subrange(29, 29 + p.key.len() as int) =~= s.subrange(29, 29 + p.key.len() as int));
        assert(t.subrange(29 + p.key.len() as int, p.len as int) =~= s.subrange(
            29 + p.key.len() as int,
            p.len as int,
        ));
    } else {
        assert(t.subrange(21, 21 + p.key.len() as int) =~= s.subrange(21, 21 + p.key.len() as int));
    }
}

/// A scan of whole records followed by one more record emits what the scan
/// of the whole records emits, and then the one more.
pub proof fn lemma_scan_append(s: Seq<u8>, base: nat, record: Seq<u8>)
    requires
        whole(s),
        parse_record(record) matches Some(p) && p.len == record.len(),
    ensures
        whole(s + record),
        scan(s + record, base) == scan(s, base).push(
            scanned_entry(parse_record(record).unwrap(), base + s.len()),
        ),
    decreases s.len(),
{
    let p = parse_record(record).unwrap();
    lemma_parse_record_len(record);
    if s.len() == 0 {
        assert(s + record =~= record);
        assert(whole(record.skip(p.len as int)));
        assert(record.skip(p.len as int) =~= Seq::<u8>::empty());
        assert(scan(record.skip(p.len as int), base + p.len) =~= Seq::<EntryView>::empty());
        assert(scan(s, base) =~= Seq::<EntryView>::empty());
        assert(scan(record, base) =~= seq![scanned_entry(p, base)]);
    } else {
        let q = parse_record(s).unwrap();
        lemma_parse_prefix(s, record);
        let rest = s.skip(q.len as int);
        assert((s + record).skip(q.len as int) =~= rest + record);
        lemma_scan_append(rest, base + q.len, record);
        assert(whole((s + record).skip(q.len as int)));
        assert(scan(s + record, base) =~= scan(s, base).push(
            scanned_entry(p, base + s.len()),
        ));
    }
}

/// A scan of a clean segment with one more record behind it emits what the
/// scan of the segment emits, and then the one more.
pub proof fn lemma_scan_segment_append(segment: Seq<u8>, record: Seq<u8>)
    requires
        clean(segment),
        parse_record(record) matches Some(p) && p.len == record.len(),
    ensures
        clean(segment + record),
        scan_segment(segment + record) == scan_segment(segment).push(
            scanned_entry(parse_record(record).unwrap(), segment.len()),
        ),
{
    let body = segment.skip(DATA_HEADER_LEN as int);
    assert((segment + record).take(DATA_HEADER_LEN as int) =~= segment.take(
        DATA_HEADER_LEN as int,
    ));
    assert((segment + record).skip(DATA_HEADER_LEN as int) =~= body + record);
    lemma_scan_append(body, DATA_HEADER_LEN as nat, record);
}

/// A segment that holds the magic and nothing else is clean, and a scan of
/// it emits nothing.
pub proof fn lemma_scan_header()
    ensures
        clean(DATA_FILE_HEADER@),
        scan_segment(DATA_FILE_HEADER@) == Seq::<EntryView>::empty(),
{
    let h = DATA_FILE_HEADER@;
    assert(h.take(DATA_HEADER_LEN as int) =~= h);
    assert(h.skip(DATA_HEADER_LEN as int) =~= Seq::<u8>::empty());
}

/// The directory rebuilt after one more record has been appended to a
/// clean last segment is the directory rebuilt before, with the entry of
/// the record replayed over it.
pub proof fn lemma_reconstruct_append(segments: Seq<Seq<u8>>, record: Seq<u8>)
    requires
        segments.len() > 0,
        clean(segments.last()),
        parse_record(record) matches Some(p) && p.len == record.len(),
    ensures
        reconstruct(segments.update(segments.len() - 1, segments.last() + record)) == replay_step(
            reconstruct(segments),
            scanned_entry(parse_record(record).unwrap(), segments.last().len()),
            (segments.len() - 1) as u64,
        ),
{
    let last = segments.len() - 1;
    let after = segments.update(last, segments.last() + record);
    lemma_scan_segment_append(segments.last(), record);
    assert(after.drop_last() =~= segments.drop_last());
    let entries = scan_segment(after.last());
    assert(entries.drop_last() =~= scan_segment(segments.last()));
}

/// The directory rebuilt after a rollover is the directory rebuilt before.
pub proof fn lemma_reconstruct_roll(segments: Seq<Seq<u8>>)
    ensures
        reconstruct(segments.push(DATA_FILE_HEADER@)) == reconstruct(segments),
{
    lemma_scan_header();
    assert(segments.push(DATA_FILE_HEADER@).drop_last() =~= segments);
}

impl State {
    /// Every segment is the magic followed by whole records.
    pub open spec fn clean_log(self) -> bool {
        forall|i: int| 0 <= i < self.segments.len() ==> clean(#[trigger] self.segments[i])
    }

    /// The directory is the one that a scan of the segments rebuilds.
    pub open spec fn in_sync(self) -> bool {
        self.index == reconstruct(self.segments)
    }
}

/// A new store has a clean log and a directory in step with it.
pub proof fn lemma_create_in_sync(limits: Limits)
    ensures
        State::create(limits).clean_log(),
        State::create(limits).in_sync(),
{
    let s = State::create(limits);
    lemma_scan_header();
    assert(s.segments.drop_last() =~= Seq::<Seq<u8>>::empty());
    assert(reconstruct(s.segments) == replay(
        reconstruct(s.segments.drop_last()),
        scan_segment(s.segments.last()),
        0,
    ));
}

/// A put keeps the log clean. It keeps the directory in step with the log
/// where its timestamp is not earlier than the one the directory holds for
/// the key.
pub proof fn lemma_insert_in_sync(s: State, timestamp: u64, key: Seq<u8>, value: Seq<u8>)
    requires
        s.wf(),
        room_for_put(s, key, value),
        s.clean_log(),
        s.in_sync(),
        s.index.contains_key(key) ==> s.index[key].timestamp <= timestamp,
    ensures
        s.insert(timestamp, key, value).clean_log(),
        s.insert(timestamp, key, value).in_sync(),
{
    let record = put_record(timestamp, key, value);
    lemma_put_record_layout(timestamp, key, value);
    lemma_parse_put_record(timestamp, key, value, Seq::empty());
    assert(record + Seq::<u8>::empty() =~= record);
    let r = if s.must_roll(record.len()) {
        s.roll()
    } else {
        s
    };
    if s.must_roll(record.len()) {
        lemma_reconstruct_roll(s.segments);
        lemma_scan_header();
        assert forall|i: int| 0 <= i < r.segments.len() implies clean(
            #[trigger] r.segments[i],
        ) by {
            if i < s.segments.len() {
                assert(r.segments[i] == s.segments[i]);
            }
        }
    }
    let t = s.insert(timestamp, key, value);
    let last = r.segments.len() - 1;
    assert(t.segments == r.segments.update(last, r.segments.last() + record));
    lemma_reconstruct_append(r.segments, record);
    lemma_scan_segment_append(r.segments.last(), record);
    assert forall|i: int| 0 <= i < t.segments.len() implies clean(#[trigger] t.segments[i]) by {
        if i < last {
            assert(t.segments[i] == r.segments[i]);
        }
    }
    assert(t.index =~= reconstruct(t.segments));
}

/// A delete keeps the log clean. It keeps the directory in step with the
/// log where its timestamp is later than the one the directory holds for
/// the key.
pub proof fn lemma_delete_in_sync(s: State, timestamp: u64, key: Seq<u8>)
    requires
        s.wf(),
        room_for_tombstone(s, key),
        s.clean_log(),
        s.in_sync(),
        s.index.contains_key(key) ==> s.index[key].timestamp < timestamp,
    ensures
        s.delete(timestamp, key).clean_log(),
        s.delete(timestamp, key).in_sync(),
{
    if s.index.contains_key(key) {
        let record = tombstone_record(timestamp, key);
        lemma_tombstone_record_layout(timestamp, key);
        lemma_parse_tombstone_record(timestamp, key, Seq::empty());
        assert(record + Seq::<u8>::empty() =~= record);
        let t = s.delete(timestamp, key);
        let last = s.segments.len() - 1;
        assert(t.segments == s.segments.update(last, s.segments.last() + record));
        lemma_reconstruct_append(s.segments, record);
        lemma_scan_segment_append(s.segments.last(), record);
        assert forall|i: int| 0 <= i < t.segments.len() implies clean(
            #[trigger] t.segments[i],
        ) by {
            if i < last {
                assert(t.segments[i] == s.segments[i]);
            }
        }
        assert(t.index =~= reconstruct(t.segments));
    }
}

/// After a delete whose timestamp is later than the one the directory
/// holds for the key, a store opened from the segments alone, without the
/// snapshot, gives nothing for the key.
pub proof fn lemma_delete_survives_reopen(s: State, timestamp: u64, key: Seq<u8>)
    requires
        s.wf(),
        room_for_tombstone(s, key),
        s.clean_log(),
        s.in_sync(),
        s.index.contains_key(key) ==> s.index[key].timestamp < timestamp,
    ensures
        State::open(s.limits, s.delete(timestamp, key).segments, None).get(key) is None,
        State::open(s.limits, s.delete(timestamp, key).segments, None).index == s.delete(
            timestamp,
            key,
        ).index,
{
    lemma_delete(s, timestamp, key);
    lemma_delete_in_sync(s, timestamp, key);
}

/// Where the directory is in step with the log, opening the files of the
/// store with its snapshot gives the same directory as opening them
/// without it.
pub proof fn lemma_open_with_or_without_snapshot(s: State)
    requires
        s.wf(),
        s.in_sync(),
    ensures
        State::open(s.limits, s.segments, Some(snapshot_of(s.index))).index == State::open(
            s.limits,
            s.segments,
            None,
        ).index,
        State::open(s.limits, s.segments, None).index == s.index,
{
    lemma_snapshot_round_trip(s.segments, s.index);
}

/// The entry `e` names the byte range of a put record of `key` with the
/// timestamp and the size that `e` gives.
pub open spec fn names_put(segments: Seq<Seq<u8>>, key: Seq<u8>, e: Entry) -> bool {
    &&& located(segments, e)
    &&& parse_record(
        segments[e.file as int].subrange(e.offset as int, e.offset + e.size),
    ) matches Some(p)
    &&& !p.tombstone
    &&& p.key == key
    &&& p.timestamp == e.timestamp
    &&& p.len == e.size
}

impl State {
    /// Every entry of the directory names a put record of its key.
    pub open spec fn faithful(self) -> bool {
        forall|key: Seq<u8>| #[trigger]
            self.index.contains_key(key) ==> names_put(self.segments, key, self.index[key])
    }
}

/// A record that stands at the front of `s` is what stands in the bytes it
/// occupies, taken alone.
pub proof fn lemma_parse_exact(s: Seq<u8>)
    requires
        parse_record(s) is Some,
    ensures
        parse_record(s.take(parse_record(s).unwrap().len as int)) == parse_record(s),
{
    let p = parse_record(s).unwrap();
    let t = s.take(p.len as int);
    assert(t.subrange(0, 4) =~= s.subrange(0, 4));
    assert(t.subrange(4, 12) =~= s.subrange(4, 12));
    assert(t.subrange(13, 21) =~= s.subrange(13, 21));
    assert(t[12] == s[12]);
    assert(t.subrange(4, p.len as int) =~= s.subrange(4, p.len as int));
    if !p.tombstone {
        assert(t.subrange(21, 29) =~= s.subrange(21, 29));
        assert(t.subrange(29, 29 + p.key.len() as int) =~= s.subrange(
            29,
            29 + p.key.len() as int,
        ));
        assert(t.subrange(29 + p.key.len() as int, p.len as int) =~= s.subrange(
            29 + p.key.len() as int,
            p.len as int,
        ));
    } else {
        assert(t.subrange(21, 21 + p.key.len() as int) =~= s.subrange(
            21,
            21 + p.key.len() as int,
        ));
    }
}

/// A point read of the bytes of a put record gives its timestamp and its
/// value.
pub proof fn lemma_read_parsed(rec: Seq<u8>)
    requires
        parse_record(rec) matches Some(p) && !p.tombstone && p.len == rec.len(),
    ensures
        read_value(rec) == Ok::<(u64, Seq<u8>), KeyValueStoreError>(
            (parse_record(rec).unwrap().timestamp, parse_record(rec).unwrap().value),
        ),
{
    assert(rec.subrange(4, rec.len() as int) =~= rec.skip(4));
}

/// Where the directory is faithful, a lookup of a key that it holds gives
/// a value, with the timestamp that the directory holds for the key.
pub proof fn lemma_faithful_get(s: State, key: Seq<u8>)
    requires
        s.faithful(),
        s.index.contains_key(key),
    ensures
        s.get(key) matches Some(v) && v.0 == s.index[key].timestamp,
{
    let e = s.index[key];
    assert(names_put(s.segments, key, e));
    lemma_read_parsed(s.segments[e.file as int].subrange(e.offset as int, e.offset + e.size));
}

/// An entry that names a put record names it still after an append to the
/// active segment.
pub proof fn lemma_names_put_append(s: State, bytes: Seq<u8>, key: Seq<u8>, e: Entry)
    requires
        s.segments.len() >= 1,
        names_put(s.segments, key, e),
    ensures
        names_put(s.append(bytes).segments, key, e),
{
    let last = s.segments.len() - 1;
    if e.file == last {
        assert((s.active() + bytes).subrange(e.offset as int, e.offset + e.size)
            =~= s.active().subrange(e.offset as int, e.offset + e.size));
    }
}

/// A new store is faithful.
pub proof fn lemma_create_faithful(limits: Limits)
    ensures
        State::create(limits).faithful(),
{
}

/// A put keeps the directory faithful.
pub proof fn lemma_insert_faithful(s: State, timestamp: u64, key: Seq<u8>, value: Seq<u8>)
    requires
        s.wf(),
        room_for_put(s, key, value),
        s.faithful(),
    ensures
        s.insert(timestamp, key, value).faithful(),
{
    let record = put_record(timestamp, key, value);
    lemma_put_record_layout(timestamp, key, value);
    lemma_parse_put_record(timestamp, key, value, Seq::empty());
    assert(record + Seq::<u8>::empty() =~= record);
    let r = if s.must_roll(record.len()) {
        s.roll()
    } else {
        s
    };
    let t = s.insert(timestamp, key, value);
    let last = r.segments.len() - 1;
    assert(t.segments == r.append(record).segments);
    assert forall|k: Seq<u8>| #[trigger] t.index.contains_key(k) implies names_put(
        t.segments,
        k,
        t.index[k],
    ) by {
        if k == key {
            let e = t.index[k];
            assert(t.segments[last].subrange(e.offset as int, e.offset + e.size) =~= record);
        } else {
            let e = s.index[k];
            assert(names_put(s.segments, k, e));
            assert(r.segments[e.file as int] == s.segments[e.file as int]);
            lemma_names_put_append(r, record, k, e);
        }
    }
}

/// A delete keeps the directory faithful.
pub proof fn lemma_delete_faithful(s: State, timestamp: u64, key: Seq<u8>)
    requires
        s.wf(),
        s.faithful(),
    ensures
        s.delete(timestamp, key).faithful(),
{
    if s.index.contains_key(key) {
        let record = tombstone_record(timestamp, key);
        let t = s.delete(timestamp, key);
        assert(t.segments == s.append(record).segments);
        assert forall|k: Seq<u8>| #[trigger] t.index.contains_key(k) implies names_put(
            t.segments,
            k,
            t.index[k],
        ) by {
            let e = s.index[k];
            assert(names_put(s.segments, k, e));
            lemma_names_put_append(s, record, k, e);
        }
    }
}

/// Every put that a scan emits stands in the bytes that its entry names.
pub proof fn lemma_scan_faithful(s: Seq<u8>, base: nat, i: int)
    requires
        base + s.len() <= u64::MAX,
        0 <= i < scan(s, base).len(),
        scan(s, base)[i].size != 0,
    ensures
        ({
            let e = scan(s, base)[i];
            &&& base <= e.offset
            &&& e.offset + e.size <= base + s.len()
            &&& parse_record(s.subrange(e.offset - base, e.offset - base + e.size)) matches Some(p)
            &&& !p.tombstone
            &&& p.key == e.key
            &&& p.timestamp == e.timestamp
            &&& p.len == e.size
        }),
    decreases s.len(),
{
    let p = parse_record(s).unwrap();
    lemma_parse_record_len(s);
    if i == 0 {
        lemma_parse_exact(s);
        assert(s.take(p.len as int) =~= s.subrange(0, p.len as int));
    } else {
        let tail = s.skip(p.len as int);
        let rest = scan(tail, base + p.len);
        assert(scan(s, base)[i] == rest[i - 1]);
        lemma_scan_faithful(tail, base + p.len, i - 1);
        let e = rest[i - 1];
        assert(tail.subrange(e.offset - (base + p.len), e.offset - (base + p.len) + e.size)
            =~= s.subrange(e.offset - base, e.offset - base + e.size));
    }
}

/// A replay of the scan of a segment keeps the directory faithful.
pub proof fn lemma_replay_faithful(
    m: Map<Seq<u8>, Entry>,
    segments: Seq<Seq<u8>>,
    file_id: u64,
    n: int,
)
    requires
        file_id < segments.len(),
        segments[file_id as int].len() <= u64::MAX,
        forall|key: Seq<u8>| #[trigger] m.contains_key(key) ==> names_put(segments, key, m[key]),
        0 <= n <= scan_segment(segments[file_id as int]).len(),
    ensures
        forall|key: Seq<u8>| #[trigger]
            replay(m, scan_segment(segments[file_id as int]).take(n), file_id).contains_key(key)
                ==> names_put(
                segments,
                key,
                replay(m, scan_segment(segments[file_id as int]).take(n), file_id)[key],
            ),
    decreases n,
{
    let segment = segments[file_id as int];
    let all = scan_segment(segment);
    if n > 0 {
        lemma_replay_faithful(m, segments, file_id, n - 1);
        let entries = all.take(n);
        assert(entries.drop_last() =~= all.take(n - 1));
        let e = entries.last();
        assert(e == all[n - 1]);
        let prev = replay(m, all.take(n - 1), file_id);
        let next = replay_step(prev, e, file_id);
        assert(replay(m, entries, file_id) == next);
        if e.size != 0 {
            let body = segment.skip(DATA_HEADER_LEN as int);
            lemma_scan_faithful(body, DATA_HEADER_LEN as nat, n - 1);
            assert(body.subrange(
                e.offset - DATA_HEADER_LEN,
                e.offset - DATA_HEADER_LEN + e.size,
            ) =~= segment.subrange(e.offset as int, e.offset + e.size));
            assert(names_put(segments, e.key, entry_at(e, file_id)));
        }
        assert forall|key: Seq<u8>| #[trigger] next.contains_key(key) implies names_put(
            segments,
            key,
            next[key],
        ) by {
            if prev.contains_key(key) && next[key] == prev[key] {
                assert(names_put(segments, key, prev[key]));
            }
        }
    } else {
        assert(all.take(0) =~= Seq::<EntryView>::empty());
    }
}

/// A rebuilt directory is faithful.
pub proof fn lemma_reconstruct_faithful(segments: Seq<Seq<u8>>)
    requires
        segments.len() <= u64::MAX + 1,
        forall|i: int| 0 <= i < segments.len() ==> (#[trigger] segments[i]).len() <= u64::MAX,
    ensures
        forall|key: Seq<u8>| #[trigger]
            reconstruct(segments).contains_key(key) ==> names_put(
                segments,
                key,
                reconstruct(segments)[key],
            ),
    decreases segments.len(),
{
    if segments.len() > 0 {
        let front = segments.drop_last();
        let m = reconstruct(front);
        assert forall|i: int| 0 <= i < front.len() implies (#[trigger] front[i]).len()
            <= u64::MAX by {
            assert(front[i] == segments[i]);
        }
        lemma_reconstruct_faithful(front);
        assert forall|key: Seq<u8>| #[trigger] m.contains_key(key) implies names_put(
            segments,
            key,
            m[key],
        ) by {
            assert(names_put(front, key, m[key]));
            assert(front[m[key].file as int] == segments[m[key].file as int]);
        }
        let file_id = (segments.len() - 1) as u64;
        let all = scan_segment(segments.last());
        lemma_replay_faithful(m, segments, file_id, all.len() as int);
        assert(all.take(all.len() as int) =~= all);
    }
}

/// A store opened from its segments alone is faithful: a lookup of every
/// key that its directory holds gives a value.
pub proof fn lemma_open_faithful(limits: Limits, segments: Seq<Seq<u8>>)
    requires
        segments.len() <= u64::MAX + 1,
        forall|i: int| 0 <= i < segments.len() ==> (#[trigger] segments[i]).len() <= u64::MAX,
    ensures
        State::open(limits, segments, None).faithful(),
{
    if segments.len() > 0 {
        lemma_reconstruct_faithful(segments);
    }
}

/// A merge of put records that fit one segment leaves a clean segment,
/// and a directory that a scan of the segment rebuilds.
pub proof fn lemma_merge_fold_rebuild(source: Seq<Seq<u8>>, l: Listing, limit: u64)
    requires
        ascending(l),
        forall|i: int| 0 <= i < l.len() ==> names_put(source, (#[trigger] l[i]).0, l[i].1),
        DATA_HEADER_LEN + live_bytes(l) <= limit,
    ensures
        merge_fold(source, l, limit).segments.len() == 1,
        clean(merge_fold(source, l, limit).segments[0]),
        reconstruct(merge_fold(source, l, limit).segments) == merge_fold(source, l, limit).index,
    decreases l.len(),
{
    let m = merge_fold(source, l, limit);
    assert forall|i: int| 0 <= i < l.len() implies located(source, (#[trigger] l[i]).1) by {
        assert(names_put(source, l[i].0, l[i].1));
    }
    lemma_merge_fold(source, l, limit);
    if l.len() == 0 {
        lemma_scan_header();
        assert(m.segments.drop_last() =~= Seq::<Seq<u8>>::empty());
        assert(reconstruct(m.segments) == replay(
            reconstruct(m.segments.drop_last()),
            scan_segment(m.segments.last()),
            0,
        ));
    } else {
        let n = l.len() - 1;
        let front = l.drop_last();
        let before = merge_fold(source, front, limit);
        assert forall|i: int, j: int| 0 <= i < j < front.len() implies lex_lt(
            #[trigger] front[i].0,
            #[trigger] front[j].0,
        ) by {
            assert(front[i] == l[i]);
            assert(front[j] == l[j]);
        }
        assert forall|i: int| 0 <= i < front.len() implies names_put(
            source,
            (#[trigger] front[i]).0,
            front[i].1,
        ) by {
            assert(front[i] == l[i]);
        }
        assert forall|i: int| 0 <= i < front.len() implies located(
            source,
            (#[trigger] front[i]).1,
        ) by {
            assert(names_put(source, front[i].0, front[i].1));
        }
        lemma_merge_fold_rebuild(source, front, limit);
        lemma_merge_fold(source, front, limit);
        let e = l[n].1;
        assert(names_put(source, l[n].0, e));
        let record = source[e.file as int].subrange(e.offset as int, e.offset + e.size);
        let p = parse_record(record).unwrap();
        lemma_parse_record_len(record);
        assert(m.segments =~= before.segments.update(0, before.segments[0] + record));
        lemma_reconstruct_append(before.segments, record);
        lemma_scan_segment_append(before.segments[0], record);
        assert(!before.index.contains_key(l[n].0)) by {
            if lists(front, l[n].0) {
                let q = place(front, l[n].0);
                assert(front[q] == l[q]);
                assert(lex_lt(l[q].0, l[n].0));
                lemma_lex_irreflexive(l[n].0);
            }
        }
        assert(m.index =~= reconstruct(m.segments));
    }
}

/// A merge of live records that fit one segment keeps the directory
/// faithful, where it was; it leaves a clean log, and a directory in step
/// with it.
pub proof fn lemma_merge_rebuild(s: State)
    requires
        s.wf(),
        s.bytes_deleted > 0,
        merge_fits(s),
        s.faithful(),
    ensures
        s.merge().faithful(),
        s.merge().clean_log(),
        s.merge().in_sync(),
{
    let l = listing_of(s.index);
    let limit = s.limits.file_size;
    let m = merge_fold(s.segments, l, limit);
    assert forall|i: int| 0 <= i < l.len() implies names_put(
        s.segments,
        (#[trigger] l[i]).0,
        l[i].1,
    ) by {
        lemma_listed_at(l, i);
        assert(s.index.contains_key(l[i].0));
    }
    assert forall|i: int| 0 <= i < l.len() implies located(s.segments, (#[trigger] l[i]).1) by {
        assert(names_put(s.segments, l[i].0, l[i].1));
    }
    lemma_merge_fold(s.segments, l, limit);
    lemma_merge_fold_rebuild(s.segments, l, limit);
    let t = s.merge();
    assert forall|key: Seq<u8>| #[trigger] t.index.contains_key(key) implies names_put(
        t.segments,
        key,
        t.index[key],
    ) by {
        assert(m.index.contains_key(key));
        assert(lists(l, key));
        let q = place(l, key);
        assert(l[q].0 == key);
        assert(names_put(s.segments, l[q].0, l[q].1));
    }
}

/// A directory that can be listed can be listed after a snapshot has been
/// loaded over it.
pub proof fn lemma_load_listable(m: Map<Seq<u8>, Entry>, entries: Seq<EntryView>)
    requires
        exists|l: Listing| is_listing(l, m),
    ensures
        exists|l: Listing| is_listing(l, load(m, entries)),
    decreases entries.len(),
{
    if entries.len() > 0 {
        lemma_load_listable(m, entries.drop_last());
        let e = entries.last();
        let before = load(m, entries.drop_last());
        let l = listing_of(before);
        lemma_listing_set(l, e.key, entry_at(e, e.file));
        assert(is_listing(listing_set(l, e.key, entry_at(e, e.file)), load(m, entries)));
    } else {
        assert(is_listing(listing_of(m), load(m, entries)));
    }
}

/// A directory that can be listed can be listed after a scan has been
/// replayed over it.
pub proof fn lemma_replay_listable(m: Map<Seq<u8>, Entry>, entries: Seq<EntryView>, file_id: u64)
    requires
        exists|l: Listing| is_listing(l, m),
    ensures
        exists|l: Listing| is_listing(l, replay(m, entries, file_id)),
    decreases entries.len(),
{
    if entries.len() > 0 {
        lemma_replay_listable(m, entries.drop_last(), file_id);
        let e = entries.last();
        let before = replay(m, entries.drop_last(), file_id);
        let after = replay(m, entries, file_id);
        let l = listing_of(before);
        lemma_listing_set(l, e.key, entry_at(e, file_id));
        lemma_listing_unset(l, e.key);
        if after == before {
            assert(is_listing(l, after));
        } else if e.size == 0 {
            assert(is_listing(listing_unset(l, e.key), after));
        } else {
            assert(is_listing(listing_set(l, e.key, entry_at(e, file_id)), after));
        }
    } else {
        assert(is_listing(listing_of(m), replay(m, entries, file_id)));
    }
}

/// A rebuilt directory can be listed.
pub proof fn lemma_reconstruct_listable(segments: Seq<Seq<u8>>)
    ensures
        exists|l: Listing| is_listing(l, reconstruct(segments)),
    decreases segments.len(),
{
    if segments.len() == 0 {
        let l = Seq::<(Seq<u8>, Entry)>::empty();
        assert(listed(l) =~= reconstruct(segments));
        assert(is_listing(l, reconstruct(segments)));
    } else {
        lemma_reconstruct_listable(segments.drop_last());
        let file_id = (segments.len() - 1) as u64;
        let before = reconstruct(segments.drop_last());
        lemma_replay_listable(before, scan_segment(segments.last()), file_id);
        let after = replay(before, scan_segment(segments.last()), file_id);
        assert(is_listing(listing_of(after), reconstruct(segments)));
    }
}

/// Opening any files that fit the machine gives a store.
pub proof fn lemma_open_wf(limits: Limits, segments: Seq<Seq<u8>>, snapshot: Option<Seq<u8>>)
    requires
        segments.len() <= u64::MAX + 1,
        forall|i: int| 0 <= i < segments.len() ==> (#[trigger] segments[i]).len() <= u64::MAX,
    ensures
        State::open(limits, segments, snapshot).wf(),
        State::open(limits, segments, snapshot).limits == limits,
        segments.len() > 0 ==> State::open(limits, segments, snapshot).segments == segments,
{
    if segments.len() == 0 {
        lemma_create(limits);
    } else {
        match snapshot_index(segments, snapshot) {
            Some(index) => {
                let entries = parse_snapshot(snapshot.unwrap()).unwrap();
                let l = Seq::<(Seq<u8>, Entry)>::empty();
                assert(listed(l) =~= Map::<Seq<u8>, Entry>::empty());
                assert(is_listing(l, Map::<Seq<u8>, Entry>::empty()));
                lemma_load_listable(Map::empty(), entries);
            },
            None => {
                lemma_reconstruct_listable(segments);
                lemma_reconstruct_located(segments);
            },
        }
    }
}

} // verus!
