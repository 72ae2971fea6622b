//! What holds of the store in every state: the laws that relate its
//! operations to each other.

use vstd::prelude::*;
use crate::checksum::crc32_cksum;
use crate::endian::{from_be_u32, lemma_be_digits_len};
use crate::error::KeyValueStoreError;
use crate::index::{
    ascending, is_listing, lemma_listed_at, lemma_listing_set, lemma_listing_unique,
    lemma_listing_unset, lemma_load_listing, lemma_range_of, lemma_slot, listed,
    listing_entries, listing_set, listing_unset, lists, place, range_of, slot, Entry, Listing,
};
use crate::order::{lemma_lex_total, lex_lt, within, Bound};
use crate::settings::Limits;
use crate::model::{
    all_located, capped_sum, listing_of, located, merge_fold, read_entry, readable,
    snapshot_index, snapshot_of, State,
};
use crate::record::{
    lemma_put_record_layout, lemma_read_put_record, lemma_tombstone_record_layout, put_payload,
    put_record, put_record_len, read_at, read_value, tombstone_payload, tombstone_record,
    tombstone_record_len, PUT_OVERHEAD, TOMBSTONE_OVERHEAD,
};
use crate::snapshot::lemma_parse_snapshot;
use crate::util::{DATA_FILE_HEADER, DATA_HEADER_LEN};

verus! {

/// The store has room for an append of `n` bytes, with a rollover before
/// it where that is due: the number of the next segment and the length of
/// the segment appended to fit the machine.
pub open spec fn room(s: State, n: nat) -> bool {
    if s.must_roll(n) {
        s.segments.len() <= u64::MAX && DATA_HEADER_LEN + n <= u64::MAX
    } else {
        s.active().len() + n <= u64::MAX
    }
}

/// The store has room for a put of `value` under `key`.
pub open spec fn room_for_put(s: State, key: Seq<u8>, value: Seq<u8>) -> bool {
    key.len() <= u64::MAX && value.len() <= u64::MAX && room(s, put_record_len(key, value))
}

/// The store has room for a tombstone of `key`.
pub open spec fn room_for_tombstone(s: State, key: Seq<u8>) -> bool {
    key.len() <= u64::MAX && s.active().len() + tombstone_record_len(key) <= u64::MAX
}

/// A store has had room for a put that has left it a store.
pub proof fn lemma_room_for_put(s: State, timestamp: u64, key: Seq<u8>, value: Seq<u8>)
    requires
        s.wf(),
        s.insert(timestamp, key, value).wf(),
    ensures
        room_for_put(s, key, value),
{
    let t = s.insert(timestamp, key, value);
    let record = put_record(timestamp, key, value);
    assert(t.index.contains_key(key));
    lemma_be_digits_len(crc32_cksum(put_payload(timestamp, key, value)) as nat, 4);
    lemma_be_digits_len(timestamp as nat, 8);
    lemma_be_digits_len((key.len() as u64) as nat, 8);
    lemma_be_digits_len((value.len() as u64) as nat, 8);
    assert(record.len() == PUT_OVERHEAD + key.len() + value.len());
    let last = t.segments.len() - 1;
    assert(t.segments[last].len() <= u64::MAX);
}

/// A store has had room for a tombstone that has left it a store.
pub proof fn lemma_room_for_tombstone(s: State, timestamp: u64, key: Seq<u8>)
    requires
        s.wf(),
        s.index.contains_key(key),
        s.delete(timestamp, key).wf(),
    ensures
        room_for_tombstone(s, key),
{
    let t = s.delete(timestamp, key);
    let record = tombstone_record(timestamp, key);
    lemma_be_digits_len(crc32_cksum(tombstone_payload(timestamp, key)) as nat, 4);
    lemma_be_digits_len(timestamp as nat, 8);
    lemma_be_digits_len((key.len() as u64) as nat, 8);
    assert(record.len() == TOMBSTONE_OVERHEAD + key.len());
    let last = t.segments.len() - 1;
    assert(t.segments[last].len() <= u64::MAX);
}

/// A read of a byte range gives the same when bytes are added behind the
/// segment.
pub proof fn lemma_read_at_append(segment: Seq<u8>, more: Seq<u8>, offset: u64, size: u64)
    requires
        offset + size <= segment.len(),
    ensures
        read_at(segment + more, offset, size) == read_at(segment, offset, size),
{
    assert((segment + more).subrange(offset as int, offset + size) =~= segment.subrange(
        offset as int,
        offset + size,
    ));
}

/// A read of an entry gives the same after an append to the active
/// segment, where the entry names a byte range of the store as it was.
pub proof fn lemma_read_entry_append(s: State, bytes: Seq<u8>, e: Entry)
    requires
        s.segments.len() >= 1,
        located(s.segments, e),
    ensures
        read_entry(s.append(bytes).segments, e) == read_entry(s.segments, e),
        located(s.append(bytes).segments, e),
{
    let last = s.segments.len() - 1;
    if e.file == last {
        lemma_read_at_append(s.active(), bytes, e.offset, e.size);
    }
}

/// A new store is a store, and holds nothing.
pub proof fn lemma_create(limits: Limits)
    ensures
        State::create(limits).wf(),
        forall|key: Seq<u8>| State::create(limits).get(key) is None,
{
    let s = State::create(limits);
    let l = Seq::<(Seq<u8>, Entry)>::empty();
    assert(listed(l) =~= s.index);
    assert(is_listing(l, s.index));
}

/// A flush changes the snapshot and nothing else.
pub proof fn lemma_flush(s: State)
    requires
        s.wf(),
    ensures
        s.flush().wf(),
        s.flush().index == s.index,
        s.flush().segments == s.segments,
        forall|key: Seq<u8>| s.flush().get(key) == s.get(key),
{
}

/// A rollover keeps the directory and every value.
pub proof fn lemma_roll(s: State)
    requires
        s.wf(),
        s.segments.len() <= u64::MAX,
    ensures
        s.roll().wf(),
        s.roll().index == s.index,
        forall|key: Seq<u8>| s.roll().get(key) == s.get(key),
{
    let t = s.roll();
    assert forall|key: Seq<u8>| #[trigger] t.index.contains_key(key) implies key.len() <= u64::MAX
        && located(t.segments, t.index[key]) by {
        let e = s.index[key];
        assert(located(s.segments, e));
        assert(t.segments[e.file as int] == s.segments[e.file as int]);
    }
    assert forall|i: int| 0 <= i < t.segments.len() implies (#[trigger] t.segments[i]).len()
        <= u64::MAX by {
        if i < s.segments.len() {
            assert(t.segments[i] == s.segments[i]);
        }
    }
    assert forall|key: Seq<u8>| t.get(key) == s.get(key) by {
        if s.index.contains_key(key) {
            let e = s.index[key];
            assert(located(s.segments, e));
            assert(t.segments[e.file as int] == s.segments[e.file as int]);
        }
    }
}

/// After a put, a lookup of the key gives the value that was put and its
/// timestamp, whatever the key held before; every other key gives what it
/// gave before; and the store is a store.
pub proof fn lemma_insert(s: State, timestamp: u64, key: Seq<u8>, value: Seq<u8>)
    requires
        s.wf(),
        room_for_put(s, key, value),
    ensures
        s.insert(timestamp, key, value).wf(),
        s.insert(timestamp, key, value).get(key) == Some((timestamp, value)),
        forall|other: Seq<u8>|
            other != key ==> s.insert(timestamp, key, value).get(other) == s.get(other),
        s.insert(timestamp, key, value).index.dom() == s.index.dom().insert(key),
        s.insert(timestamp, key, value).limits == s.limits,
{
    let record = put_record(timestamp, key, value);
    lemma_put_record_layout(timestamp, key, value);
    lemma_read_put_record(timestamp, key, value);
    let r = if s.must_roll(record.len()) {
        s.roll()
    } else {
        s
    };
    if s.must_roll(record.len()) {
        lemma_roll(s);
    }
    let t = s.insert(timestamp, key, value);
    let last = r.segments.len() - 1;
    let entry = t.index[key];
    assert(t.segments == r.append(record).segments);
    assert(t.segments[last] == r.active() + record);
    assert(t.segments[last].subrange(entry.offset as int, entry.offset + entry.size) =~= record);
    assert forall|k: Seq<u8>| #[trigger] t.index.contains_key(k) implies k.len() <= u64::MAX
        && located(t.segments, t.index[k]) by {
        if k != key {
            lemma_read_entry_append(r, record, r.index[k]);
        }
    }
    assert forall|i: int| 0 <= i < t.segments.len() implies (#[trigger] t.segments[i]).len()
        <= u64::MAX by {
        if i < last {
            assert(t.segments[i] == r.segments[i]);
        }
    }
    let l = listing_of(r.index);
    lemma_listing_set(l, key, entry);
    assert forall|other: Seq<u8>| other != key implies t.get(other) == s.get(other) by {
        if r.index.contains_key(other) {
            lemma_read_entry_append(r, record, r.index[other]);
        }
    }
    assert(t.index.dom() =~= s.index.dom().insert(key));
}

/// A put over a key that the directory holds counts the record that the
/// directory held for it as garbage: its bytes and one entry.
pub proof fn lemma_insert_counts(s: State, timestamp: u64, key: Seq<u8>, value: Seq<u8>)
    ensures
        s.index.contains_key(key) ==> {
            &&& s.insert(timestamp, key, value).bytes_deleted == capped_sum(
                s.bytes_deleted,
                s.index[key].size,
            )
            &&& s.insert(timestamp, key, value).entries_deleted == capped_sum(
                s.entries_deleted,
                1,
            )
        },
        !s.index.contains_key(key) ==> {
            &&& s.insert(timestamp, key, value).bytes_deleted == s.bytes_deleted
            &&& s.insert(timestamp, key, value).entries_deleted == s.entries_deleted
        },
{
}

/// Of two puts under one key the later one is what a lookup gives, and the
/// record of the earlier one is counted as garbage with all its bytes.
pub proof fn lemma_last_write_wins(
    s: State,
    key: Seq<u8>,
    first_time: u64,
    first: Seq<u8>,
    second_time: u64,
    second: Seq<u8>,
)
    requires
        s.wf(),
        room_for_put(s, key, first),
        room_for_put(s.insert(first_time, key, first), key, second),
    ensures
        ({
            let t = s.insert(first_time, key, first);
            let u = t.insert(second_time, key, second);
            &&& u.get(key) == Some((second_time, second))
            &&& u.bytes_deleted == capped_sum(t.bytes_deleted, put_record_len(key, first) as u64)
            &&& u.entries_deleted == capped_sum(t.entries_deleted, 1)
        }),
{
    let t = s.insert(first_time, key, first);
    lemma_insert(s, first_time, key, first);
    lemma_insert(t, second_time, key, second);
    lemma_insert_counts(t, second_time, key, second);
    lemma_put_record_layout(first_time, key, first);
}

/// After a delete, a lookup of the key gives nothing; every other key
/// gives what it gave before; and the store is a store.
pub proof fn lemma_delete(s: State, timestamp: u64, key: Seq<u8>)
    requires
        s.wf(),
        room_for_tombstone(s, key),
    ensures
        s.delete(timestamp, key).wf(),
        s.delete(timestamp, key).get(key) is None,
        forall|other: Seq<u8>| other != key ==> s.delete(timestamp, key).get(other) == s.get(other),
        s.delete(timestamp, key).index.dom() == s.index.dom().remove(key),
        s.delete(timestamp, key).snapshot == s.snapshot,
{
    let t = s.delete(timestamp, key);
    if s.index.contains_key(key) {
        let record = tombstone_record(timestamp, key);
        lemma_tombstone_record_layout(timestamp, key);
        let last = s.segments.len() - 1;
        assert(t.segments == s.append(record).segments);
        assert forall|k: Seq<u8>| #[trigger] t.index.contains_key(k) implies k.len() <= u64::MAX
            && located(t.segments, t.index[k]) by {
            lemma_read_entry_append(s, record, s.index[k]);
        }
        assert forall|i: int| 0 <= i < t.segments.len() implies (#[trigger] t.segments[i]).len()
            <= u64::MAX by {
            if i < last {
                assert(t.segments[i] == s.segments[i]);
            }
        }
        lemma_listing_unset(listing_of(s.index), key);
        assert forall|other: Seq<u8>| other != key implies t.get(other) == s.get(other) by {
            if s.index.contains_key(other) {
                lemma_read_entry_append(s, record, s.index[other]);
            }
        }
    }
    assert(t.index.dom() =~= s.index.dom().remove(key));
}

/// The snapshot of a directory loads as that directory.
pub proof fn lemma_snapshot_round_trip(segments: Seq<Seq<u8>>, index: Map<Seq<u8>, Entry>)
    requires
        exists|l: Listing| is_listing(l, index),
        all_located(segments, index),
    ensures
        snapshot_index(segments, Some(snapshot_of(index))) == Some(index),
{
    let l = listing_of(index);
    let entries = listing_entries(l);
    assert forall|i: int| 0 <= i < entries.len() implies (#[trigger] entries[i]).key.len()
        <= u64::MAX by {
        lemma_listed_at(l, i);
        assert(index.contains_key(l[i].0));
    }
    lemma_parse_snapshot(entries);
    lemma_load_listing(l);
}

/// Closing a store and opening its files again gives a store with the
/// same segments and the same directory, so that every lookup gives what
/// it gave before.
pub proof fn lemma_reopen(s: State)
    requires
        s.wf(),
    ensures
        ({
            let t = State::open(s.limits, s.segments, Some(snapshot_of(s.index)));
            &&& t.wf()
            &&& t.segments == s.segments
            &&& t.index == s.index
            &&& forall|key: Seq<u8>| t.get(key) == s.get(key)
        }),
{
    lemma_snapshot_round_trip(s.segments, s.index);
}

/// One put: a value for a key at a time.
pub struct Put {
    pub timestamp: u64,
    pub key: Seq<u8>,
    pub value: Seq<u8>,
}

/// The store after the puts `ops`, one after the other.
pub open spec fn puts(s: State, ops: Seq<Put>) -> State
    decreases ops.len(),
{
    if ops.len() == 0 {
        s
    } else {
        let op = ops.last();
        puts(s, ops.drop_last()).insert(op.timestamp, op.key, op.value)
    }
}

/// The store has room for each of the puts `ops` when its turn comes.
pub open spec fn room_for_puts(s: State, ops: Seq<Put>) -> bool {
    forall|i: int|
        0 <= i < ops.len() ==> room_for_put(
            #[trigger] puts(s, ops.take(i)),
            ops[i].key,
            ops[i].value,
        )
}

/// After a sequence of puts, a lookup of a key gives the value and the
/// timestamp of the last put under that key. With distinct keys that is
/// the one put under each key. The same holds after the store has been
/// closed and its files opened again.
pub proof fn lemma_round_trip(s: State, ops: Seq<Put>, i: int)
    requires
        s.wf(),
        room_for_puts(s, ops),
        0 <= i < ops.len(),
        forall|j: int| i < j < ops.len() ==> (#[trigger] ops[j]).key != ops[i].key,
    ensures
        puts(s, ops).wf(),
        puts(s, ops).get(ops[i].key) == Some((ops[i].timestamp, ops[i].value)),
        puts(s, ops).flush().get(ops[i].key) == Some((ops[i].timestamp, ops[i].value)),
        State::open(
            puts(s, ops).limits,
            puts(s, ops).segments,
            Some(snapshot_of(puts(s, ops).index)),
        ).get(ops[i].key) == Some((ops[i].timestamp, ops[i].value)),
    decreases ops.len(),
{
    let front = ops.drop_last();
    let op = ops.last();
    let n = ops.len() - 1;
    assert forall|j: int| 0 <= j < front.len() implies room_for_put(
        #[trigger] puts(s, front.take(j)),
        front[j].key,
        front[j].value,
    ) by {
        assert(front.take(j) =~= ops.take(j));
        assert(front[j] == ops[j]);
    }
    lemma_puts_wf(s, front);
    assert(ops.take(n) =~= front);
    lemma_insert(puts(s, front), op.timestamp, op.key, op.value);
    if i < n {
        assert(front[i] == ops[i]);
        assert forall|j: int| i < j < front.len() implies (#[trigger] front[j]).key
            != front[i].key by {
            assert(front[j] == ops[j]);
        }
        lemma_round_trip(s, front, i);
        assert(ops[n].key != ops[i].key);
    }
    lemma_flush(puts(s, ops));
    lemma_reopen(puts(s, ops));
}

/// A store stays a store under puts that it has room for.
pub proof fn lemma_puts_wf(s: State, ops: Seq<Put>)
    requires
        s.wf(),
        room_for_puts(s, ops),
    ensures
        puts(s, ops).wf(),
        puts(s, ops).limits == s.limits,
    decreases ops.len(),
{
    if ops.len() > 0 {
        let front = ops.drop_last();
        let op = ops.last();
        let n = ops.len() - 1;
        assert forall|j: int| 0 <= j < front.len() implies room_for_put(
            #[trigger] puts(s, front.take(j)),
            front[j].key,
            front[j].value,
        ) by {
            assert(front.take(j) =~= ops.take(j));
            assert(front[j] == ops[j]);
        }
        lemma_puts_wf(s, front);
        assert(ops.take(n) =~= front);
        lemma_insert(puts(s, front), op.timestamp, op.key, op.value);
    }
}

/// What a range yields comes in strictly ascending order of the keys.
pub open spec fn keys_ascend(r: Seq<(Seq<u8>, (u64, Seq<u8>))>) -> bool {
    forall|i: int, j: int| 0 <= i < j < r.len() ==> lex_lt(#[trigger] r[i].0, #[trigger] r[j].0)
}

/// `r` has an item for `key`.
pub open spec fn yields(r: Seq<(Seq<u8>, (u64, Seq<u8>))>, key: Seq<u8>) -> bool {
    exists|i: int| 0 <= i < r.len() && #[trigger] r[i].0 == key
}

/// The readable part of an ascending listing ascends; it holds each key
/// with what a read of its entry gives; and it holds every key whose entry
/// can be read.
pub proof fn lemma_readable(segments: Seq<Seq<u8>>, l: Listing)
    requires
        ascending(l),
    ensures
        keys_ascend(readable(segments, l)),
        forall|i: int|
            0 <= i < readable(segments, l).len() ==> {
                let item = #[trigger] readable(segments, l)[i];
                lists(l, item.0) && read_entry(segments, listed(l)[item.0]) == Some(item.1)
            },
        forall|key: Seq<u8>|
            lists(l, key) && read_entry(segments, listed(l)[key]) is Some ==> yields(
                readable(segments, l),
                key,
            ),
    decreases l.len(),
{
    let r = readable(segments, l);
    if l.len() > 0 {
        let tail = l.skip(1);
        let rest = readable(segments, tail);
        assert forall|i: int, j: int| 0 <= i < j < tail.len() implies lex_lt(
            #[trigger] tail[i].0,
            #[trigger] tail[j].0,
        ) by {
            assert(tail[i] == l[i + 1]);
            assert(tail[j] == l[j + 1]);
        }
        lemma_readable(segments, tail);
        lemma_listed_at(l, 0);
        assert forall|i: int| 0 <= i < rest.len() implies lex_lt(l[0].0, (#[trigger] rest[i]).0)
            && lists(l, rest[i].0) && read_entry(segments, listed(l)[rest[i].0]) == Some(
            rest[i].1,
        ) by {
            let key = rest[i].0;
            let q = place(tail, key);
            lemma_listed_at(tail, q);
            assert(tail[q] == l[q + 1]);
            lemma_listed_at(l, q + 1);
        }
        let shift: int = if read_entry(segments, l[0].1) is Some {
            1
        } else {
            0
        };
        assert forall|i: int| shift <= i < r.len() implies #[trigger] r[i] == rest[i - shift] by {}
        assert forall|i: int, j: int| 0 <= i < j < r.len() implies lex_lt(
            #[trigger] r[i].0,
            #[trigger] r[j].0,
        ) by {
            assert(r[j] == rest[j - shift]);
            if i >= shift {
                assert(r[i] == rest[i - shift]);
            }
        }
        assert forall|i: int| 0 <= i < r.len() implies {
            let item = #[trigger] r[i];
            lists(l, item.0) && read_entry(segments, listed(l)[item.0]) == Some(item.1)
        } by {
            if i >= shift {
                assert(r[i] == rest[i - shift]);
            }
        }
        assert forall|key: Seq<u8>|
            lists(l, key) && read_entry(segments, listed(l)[key]) is Some implies yields(
            r,
            key,
        ) by {
            let q = place(l, key);
            lemma_listed_at(l, q);
            if q == 0 {
                assert(r[0].0 == key);
            } else {
                assert(tail[q - 1] == l[q]);
                lemma_listed_at(tail, q - 1);
                assert(lists(tail, key));
                let i = choose|i: int| 0 <= i < rest.len() && #[trigger] rest[i].0 == key;
                assert(r[i + shift] == rest[i]);
            }
        }
    }
}

/// A range yields its keys in strictly ascending order; every key it
/// yields lies in the range and comes with what a lookup of it gives; and
/// it yields every key of the range whose lookup gives a value.
pub proof fn lemma_range(s: State, lower: Bound, upper: Bound)
    requires
        s.wf(),
    ensures
        keys_ascend(s.range(lower, upper)),
        forall|i: int|
            0 <= i < s.range(lower, upper).len() ==> {
                let item = #[trigger] s.range(lower, upper)[i];
                within(lower, upper, item.0) && s.get(item.0) == Some(item.1)
            },
        forall|key: Seq<u8>|
            within(lower, upper, key) && s.get(key) is Some ==> yields(
                s.range(lower, upper),
                key,
            ),
{
    let l = listing_of(s.index);
    let rl = range_of(l, lower, upper);
    let r = s.range(lower, upper);
    lemma_range_of(l, lower, upper);
    lemma_readable(s.segments, rl);
    assert forall|i: int| 0 <= i < r.len() implies {
        let item = #[trigger] r[i];
        within(lower, upper, item.0) && s.get(item.0) == Some(item.1)
    } by {
        let key = r[i].0;
        let q = place(rl, key);
        lemma_listed_at(rl, q);
        assert(within(lower, upper, rl[q].0));
    }
    assert forall|key: Seq<u8>| within(lower, upper, key) && s.get(key) is Some implies yields(
        r,
        key,
    ) by {
        assert(lists(rl, key));
        let q = place(rl, key);
        lemma_listed_at(rl, q);
        assert(listed(l)[rl[q].0] == rl[q].1);
    }
}

/// The bytes of the records of the puts `ops`.
pub open spec fn put_bytes(ops: Seq<Put>) -> nat
    decreases ops.len(),
{
    if ops.len() == 0 {
        0
    } else {
        put_bytes(ops.drop_last()) + put_record_len(ops.last().key, ops.last().value)
    }
}

/// Under puts into a new store, the first segment grows only while it
/// stays within the limit, and holds every record as long as it is the
/// only segment.
pub proof fn lemma_first_segment(limits: Limits, ops: Seq<Put>)
    requires
        room_for_puts(State::create(limits), ops),
    ensures
        ({
            let t = puts(State::create(limits), ops);
            &&& t.wf()
            &&& t.limits == limits
            &&& t.segments[0].len() <= limits.file_size || t.segments[0].len() == DATA_HEADER_LEN
            &&& t.segments.len() == 1 ==> t.segments[0].len() == DATA_HEADER_LEN + put_bytes(ops)
        }),
    decreases ops.len(),
{
    let s = State::create(limits);
    lemma_create(limits);
    if ops.len() > 0 {
        let front = ops.drop_last();
        let op = ops.last();
        let n = ops.len() - 1;
        assert forall|j: int| 0 <= j < front.len() implies room_for_put(
            #[trigger] puts(s, front.take(j)),
            front[j].key,
            front[j].value,
        ) by {
            assert(front.take(j) =~= ops.take(j));
            assert(front[j] == ops[j]);
        }
        lemma_first_segment(limits, front);
        assert(ops.take(n) =~= front);
        let before = puts(s, front);
        lemma_insert(before, op.timestamp, op.key, op.value);
        lemma_put_record_layout(op.timestamp, op.key, op.value);
    }
}

/// Puts whose records hold more bytes than the limit leave a new store
/// with more than one segment. The first segment stays within the limit,
/// where the limit leaves room for the magic.
pub proof fn lemma_rollover(limits: Limits, ops: Seq<Put>)
    requires
        room_for_puts(State::create(limits), ops),
        put_bytes(ops) > limits.file_size,
    ensures
        puts(State::create(limits), ops).segments.len() > 1,
        limits.file_size >= DATA_HEADER_LEN ==> puts(State::create(limits), ops).segments[0].len()
            <= limits.file_size,
{
    lemma_first_segment(limits, ops);
}

/// The bytes of the records that the entries of `l` name.
pub open spec fn live_bytes(l: Listing) -> nat
    decreases l.len(),
{
    if l.len() == 0 {
        0
    } else {
        live_bytes(l.drop_last()) + l.last().1.size as nat
    }
}

/// The bytes of all of `segments`.
pub open spec fn total_len(segments: Seq<Seq<u8>>) -> nat
    decreases segments.len(),
{
    if segments.len() == 0 {
        0
    } else {
        total_len(segments.drop_last()) + segments.last().len()
    }
}

/// The live records of the store, with the magic, fit one segment.
pub open spec fn merge_fits(s: State) -> bool {
    DATA_HEADER_LEN + live_bytes(listing_of(s.index)) <= s.limits.file_size
}

/// A merge whose records fit one segment copies each of them into that
/// segment, byte for byte, and points the directory at the copy.
pub proof fn lemma_merge_fold(source: Seq<Seq<u8>>, l: Listing, limit: u64)
    requires
        ascending(l),
        forall|i: int| 0 <= i < l.len() ==> located(source, (#[trigger] l[i]).1),
        DATA_HEADER_LEN + live_bytes(l) <= limit,
    ensures
        ({
            let m = merge_fold(source, l, limit);
            &&& m.segments.len() == 1
            &&& m.segments[0].len() == DATA_HEADER_LEN + live_bytes(l)
            &&& forall|key: Seq<u8>| m.index.contains_key(key) <==> lists(l, key)
            &&& forall|i: int|
                0 <= i < l.len() ==> {
                    let old = (#[trigger] l[i]).1;
                    let new = m.index[l[i].0];
                    &&& new.file == 0
                    &&& new.timestamp == old.timestamp
                    &&& new.size == old.size
                    &&& DATA_HEADER_LEN <= new.offset
                    &&& new.offset + new.size <= m.segments[0].len()
                    &&& m.segments[0].subrange(new.offset as int, new.offset + new.size)
                        == source[old.file as int].subrange(
                        old.offset as int,
                        old.offset + old.size,
                    )
                }
        }),
    decreases l.len(),
{
    let m = merge_fold(source, l, limit);
    if l.len() > 0 {
        let n = l.len() - 1;
        let front = l.drop_last();
        let before = merge_fold(source, front, limit);
        assert forall|i: int, j: int| 0 <= i < j < front.len() implies lex_lt(
            #[trigger] front[i].0,
            #[trigger] front[j].0,
        ) by {
            assert(front[i] == l[i]);
            assert(front[j] == l[j]);
        }
        assert forall|i: int| 0 <= i < front.len() implies located(
            source,
            (#[trigger] front[i]).1,
        ) by {
            assert(front[i] == l[i]);
        }
        lemma_merge_fold(source, front, limit);
        let e = l[n].1;
        assert(located(source, e));
        let record = source[e.file as int].subrange(e.offset as int, e.offset + e.size);
        assert(m.segments =~= seq![before.segments[0] + record]);
        assert forall|key: Seq<u8>| m.index.contains_key(key) <==> lists(l, key) by {
            if lists(l, key) {
                let q = place(l, key);
                if q < n {
                    assert(front[q] == l[q]);
                    assert(lists(front, key));
                }
            }
            if lists(front, key) {
                let q = place(front, key);
                assert(front[q] == l[q]);
            }
            assert(l[n].0 == l.last().0);
        }
        assert forall|i: int| 0 <= i < l.len() implies {
            let old = (#[trigger] l[i]).1;
            let new = m.index[l[i].0];
            &&& new.file == 0
            &&& new.timestamp == old.timestamp
            &&& new.size == old.size
            &&& DATA_HEADER_LEN <= new.offset
            &&& new.offset + new.size <= m.segments[0].len()
            &&& m.segments[0].subrange(new.offset as int, new.offset + new.size)
                == source[old.file as int].subrange(old.offset as int, old.offset + old.size)
        } by {
            if i < n {
                assert(front[i] == l[i]);
                assert(lex_lt(l[i].0, l[n].0));
                lemma_lex_total(l[i].0, l[n].0);
                let new = before.index[l[i].0];
                assert(m.index[l[i].0] == new);
                assert(m.segments[0].subrange(new.offset as int, new.offset + new.size)
                    =~= before.segments[0].subrange(new.offset as int, new.offset + new.size));
            } else {
                let new = m.index[l[n].0];
                assert(m.segments[0].subrange(new.offset as int, new.offset + new.size)
                    =~= record);
            }
        }
    } else {
        assert(m.segments[0] == DATA_FILE_HEADER@);
    }
}

/// A merge of live records that fit one segment keeps what every lookup
/// gives, leaves one segment that holds the magic and the live records,
/// and counts no garbage.
pub proof fn lemma_merge(s: State)
    requires
        s.wf(),
        s.bytes_deleted > 0,
        merge_fits(s),
    ensures
        s.merge().wf(),
        forall|key: Seq<u8>| s.merge().get(key) == s.get(key),
        s.merge().index.dom() == s.index.dom(),
        s.merge().bytes_deleted == 0,
        s.merge().entries_deleted == 0,
        s.merge().segments.len() == 1,
        total_len(s.merge().segments) == DATA_HEADER_LEN + live_bytes(listing_of(s.index)),
{
    let l = listing_of(s.index);
    let limit = s.limits.file_size;
    let m = merge_fold(s.segments, l, limit);
    let t = s.merge();
    assert forall|i: int| 0 <= i < l.len() implies located(s.segments, (#[trigger] l[i]).1) by {
        lemma_listed_at(l, i);
        assert(s.index.contains_key(l[i].0));
    }
    lemma_merge_fold(s.segments, l, limit);
    assert(t.index.dom() =~= s.index.dom());
    let l2 = Seq::new(l.len(), |i: int| (l[i].0, m.index[l[i].0]));
    assert forall|i: int, j: int| 0 <= i < j < l2.len() implies lex_lt(
        #[trigger] l2[i].0,
        #[trigger] l2[j].0,
    ) by {
        assert(lex_lt(l[i].0, l[j].0));
    }
    assert forall|key: Seq<u8>| listed(l2).contains_key(key) <==> m.index.contains_key(key) by {
        if lists(l2, key) {
            let q = place(l2, key);
            assert(l[q].0 == key);
        }
        if lists(l, key) {
            let q = place(l, key);
            assert(l2[q].0 == key);
        }
    }
    assert forall|key: Seq<u8>| listed(l2).contains_key(key) implies listed(l2)[key]
        == m.index[key] by {
        let q = place(l2, key);
        lemma_listed_at(l2, q);
    }
    assert(listed(l2) =~= m.index);
    assert(is_listing(l2, t.index));
    assert forall|key: Seq<u8>| #[trigger] t.index.contains_key(key) implies key.len() <= u64::MAX
        && located(t.segments, t.index[key]) by {
        let q = place(l, key);
        assert(l[q].0 == key);
    }
    assert forall|key: Seq<u8>| t.get(key) == s.get(key) by {
        if s.index.contains_key(key) {
            let q = place(l, key);
            lemma_listed_at(l, q);
            let old = l[q].1;
            let new = m.index[key];
            assert(located(s.segments, old));
        }
    }
    assert(t.segments.drop_last() =~= Seq::<Seq<u8>>::empty());
    assert(total_len(t.segments) == total_len(t.segments.drop_last()) + t.segments.last().len());
}

/// Whatever the number of segments that a merge fills, every key that
/// its directory holds is a key of the listing, and the directory points
/// at a copy, byte for byte, of the record that the listing names for it.
pub proof fn lemma_merge_fold_copies(source: Seq<Seq<u8>>, l: Listing, limit: u64)
    requires
        ascending(l),
        l.len() <= u64::MAX,
        forall|i: int| 0 <= i < l.len() ==> located(source, (#[trigger] l[i]).1),
    ensures
        ({
            let m = merge_fold(source, l, limit);
            &&& 1 <= m.segments.len() <= l.len() + 1
            &&& forall|key: Seq<u8>| #[trigger]
                m.index.contains_key(key) ==> {
                    let old = listed(l)[key];
                    let new = m.index[key];
                    &&& lists(l, key)
                    &&& new.file == m.segments.len() - 1
                    &&& new.timestamp == old.timestamp
                    &&& new.size == old.size
                    &&& new.offset + new.size <= m.segments.last().len()
                    &&& m.segments.last().subrange(new.offset as int, new.offset + new.size)
                        == source[old.file as int].subrange(
                        old.offset as int,
                        old.offset + old.size,
                    )
                }
        }),
    decreases l.len(),
{
    let m = merge_fold(source, l, limit);
    if l.len() > 0 {
        let n = l.len() - 1;
        let front = l.drop_last();
        let before = merge_fold(source, front, limit);
        assert forall|i: int, j: int| 0 <= i < j < front.len() implies lex_lt(
            #[trigger] front[i].0,
            #[trigger] front[j].0,
        ) by {
            assert(front[i] == l[i]);
            assert(front[j] == l[j]);
        }
        assert forall|i: int| 0 <= i < front.len() implies located(
            source,
            (#[trigger] front[i]).1,
        ) by {
            assert(front[i] == l[i]);
        }
        lemma_merge_fold_copies(source, front, limit);
        let e = l[n].1;
        assert(located(source, e));
        lemma_listed_at(l, n);
        let record = source[e.file as int].subrange(e.offset as int, e.offset + e.size);
        let roll = before.segments.last().len() + e.size > limit;
        assert forall|key: Seq<u8>| #[trigger] m.index.contains_key(key) implies {
            let old = listed(l)[key];
            let new = m.index[key];
            &&& lists(l, key)
            &&& new.file == m.segments.len() - 1
            &&& new.timestamp == old.timestamp
            &&& new.size == old.size
            &&& new.offset + new.size <= m.segments.last().len()
            &&& m.segments.last().subrange(new.offset as int, new.offset + new.size)
                == source[old.file as int].subrange(old.offset as int, old.offset + old.size)
        } by {
            let new = m.index[key];
            if key == l[n].0 {
                assert(m.segments.last().subrange(new.offset as int, new.offset + new.size)
                    =~= record);
            } else {
                assert(!roll);
                assert(before.index.contains_key(key));
                let q = place(front, key);
                assert(front[q] == l[q]);
                lemma_listed_at(front, q);
                lemma_listed_at(l, q);
                assert(m.segments.last().subrange(new.offset as int, new.offset + new.size)
                    =~= before.segments.last().subrange(
                    new.offset as int,
                    new.offset + new.size,
                ));
            }
        }
    }
}

/// After a merge, a lookup of every key that the directory holds gives
/// what it gave before the merge, whatever the number of segments that
/// the merge has filled.
pub proof fn lemma_merge_keeps(s: State, key: Seq<u8>)
    requires
        s.wf(),
        listing_of(s.index).len() <= u64::MAX,
        s.merge().index.contains_key(key),
    ensures
        s.index.contains_key(key),
        s.merge().get(key) == s.get(key),
{
    if s.bytes_deleted > 0 {
        let l = listing_of(s.index);
        let limit = s.limits.file_size;
        let m = merge_fold(s.segments, l, limit);
        assert forall|i: int| 0 <= i < l.len() implies located(s.segments, (#[trigger] l[i]).1) by {
            lemma_listed_at(l, i);
            assert(s.index.contains_key(l[i].0));
        }
        lemma_merge_fold_copies(s.segments, l, limit);
        assert(m.index.contains_key(key));
        let old = s.index[key];
        let new = m.index[key];
        assert(located(s.segments, old));
    }
}

/// Putting an entry into a listing adds the bytes of its record.
pub proof fn lemma_live_bytes_insert(l: Listing, p: int, item: (Seq<u8>, Entry))
    requires
        0 <= p <= l.len(),
    ensures
        live_bytes(l.insert(p, item)) == live_bytes(l) + item.1.size,
    decreases l.len() - p,
{
    let l2 = l.insert(p, item);
    if p == l.len() {
        assert(l2.drop_last() =~= l);
    } else {
        lemma_live_bytes_insert(l.drop_last(), p, item);
        assert(l2.drop_last() =~= l.drop_last().insert(p, item));
        assert(l2.last() == l.last());
    }
}

/// Taking an entry out of a listing takes the bytes of its record away.
pub proof fn lemma_live_bytes_remove(l: Listing, p: int)
    requires
        0 <= p < l.len(),
    ensures
        live_bytes(l.remove(p)) + l[p].1.size == live_bytes(l),
    decreases l.len() - p,
{
    let l2 = l.remove(p);
    if p == l.len() - 1 {
        assert(l2 =~= l.drop_last());
    } else {
        lemma_live_bytes_remove(l.drop_last(), p);
        assert(l2.drop_last() =~= l.drop_last().remove(p));
        assert(l2.last() == l.last());
    }
}

/// Changing an entry of a listing trades the bytes of the one record for
/// those of the other.
pub proof fn lemma_live_bytes_update(l: Listing, p: int, item: (Seq<u8>, Entry))
    requires
        0 <= p < l.len(),
    ensures
        live_bytes(l.update(p, item)) + l[p].1.size == live_bytes(l) + item.1.size,
{
    lemma_live_bytes_remove(l, p);
    lemma_live_bytes_insert(l.remove(p), p, item);
    assert(l.remove(p).insert(p, item) =~= l.update(p, item));
}

/// An append to the last segment adds its bytes to the total.
pub proof fn lemma_total_len_append(segments: Seq<Seq<u8>>, bytes: Seq<u8>)
    requires
        segments.len() > 0,
    ensures
        total_len(segments.update(segments.len() - 1, segments.last() + bytes)) == total_len(
            segments,
        ) + bytes.len(),
{
    let after = segments.update(segments.len() - 1, segments.last() + bytes);
    assert(after.drop_last() =~= segments.drop_last());
}

/// A new segment adds its bytes to the total.
pub proof fn lemma_total_len_push(segments: Seq<Seq<u8>>, segment: Seq<u8>)
    ensures
        total_len(segments.push(segment)) == total_len(segments) + segment.len(),
{
    assert(segments.push(segment).drop_last() =~= segments);
}

/// The segments hold at least their magics and the records that the
/// directory names: the live records lie apart from each other and from
/// the magics.
pub open spec fn accounted(s: State) -> bool {
    DATA_HEADER_LEN * s.segments.len() + live_bytes(listing_of(s.index)) <= total_len(s.segments)
}

/// A new store holds its magic and nothing else.
pub proof fn lemma_create_accounted(limits: Limits)
    ensures
        accounted(State::create(limits)),
{
    let s = State::create(limits);
    lemma_create(limits);
    let l = Seq::<(Seq<u8>, Entry)>::empty();
    assert(listed(l) =~= s.index);
    lemma_listing_unique(listing_of(s.index), l);
    assert(s.segments.drop_last() =~= Seq::<Seq<u8>>::empty());
    assert(total_len(s.segments) == total_len(s.segments.drop_last()) + s.segments.last().len());
}

/// A put keeps the segments holding their magics and the live records.
pub proof fn lemma_insert_accounted(s: State, timestamp: u64, key: Seq<u8>, value: Seq<u8>)
    requires
        s.wf(),
        room_for_put(s, key, value),
        accounted(s),
    ensures
        accounted(s.insert(timestamp, key, value)),
{
    let record = put_record(timestamp, key, value);
    lemma_put_record_layout(timestamp, key, value);
    let rolls = s.must_roll(record.len());
    let r = if rolls {
        s.roll()
    } else {
        s
    };
    if rolls {
        lemma_total_len_push(s.segments, DATA_FILE_HEADER@);
    }
    let t = s.insert(timestamp, key, value);
    lemma_total_len_append(r.segments, record);
    assert(t.segments == r.segments.update(r.segments.len() - 1, r.segments.last() + record));
    let l = listing_of(s.index);
    let entry = t.index[key];
    lemma_listing_set(l, key, entry);
    lemma_listing_unique(listing_of(t.index), listing_set(l, key, entry));
    lemma_slot(l, key);
    if lists(l, key) {
        lemma_live_bytes_update(l, slot(l, key), (key, entry));
    } else {
        lemma_live_bytes_insert(l, slot(l, key), (key, entry));
    }
}

/// A delete keeps the segments holding their magics and the live records.
pub proof fn lemma_delete_accounted(s: State, timestamp: u64, key: Seq<u8>)
    requires
        s.wf(),
        accounted(s),
    ensures
        accounted(s.delete(timestamp, key)),
{
    if s.index.contains_key(key) {
        let record = tombstone_record(timestamp, key);
        let t = s.delete(timestamp, key);
        lemma_total_len_append(s.segments, record);
        assert(t.segments == s.segments.update(s.segments.len() - 1, s.segments.last() + record));
        let l = listing_of(s.index);
        lemma_listing_unset(l, key);
        lemma_listing_unique(listing_of(t.index), listing_unset(l, key));
        lemma_slot(l, key);
        lemma_live_bytes_remove(l, slot(l, key));
    }
}

/// A merge of live records that fit one segment leaves no more bytes in
/// the segments than there were, where the segments held their magics and
/// the live records; and they hold them afterwards.
pub proof fn lemma_merge_shrinks(s: State)
    requires
        s.wf(),
        s.bytes_deleted > 0,
        merge_fits(s),
        accounted(s),
    ensures
        total_len(s.merge().segments) <= total_len(s.segments),
        accounted(s.merge()),
{
    lemma_merge(s);
    let l = listing_of(s.index);
    let t = s.merge();
    let m = merge_fold(s.segments, l, s.limits.file_size);
    assert forall|i: int| 0 <= i < l.len() implies located(s.segments, (#[trigger] l[i]).1) by {
        lemma_listed_at(l, i);
        assert(s.index.contains_key(l[i].0));
    }
    lemma_merge_fold(s.segments, l, s.limits.file_size);
    let l2 = Seq::new(l.len(), |i: int| (l[i].0, m.index[l[i].0]));
    assert forall|i: int, j: int| 0 <= i < j < l2.len() implies lex_lt(
        #[trigger] l2[i].0,
        #[trigger] l2[j].0,
    ) by {
        assert(lex_lt(l[i].0, l[j].0));
    }
    assert forall|key: Seq<u8>| listed(l2).contains_key(key) <==> m.index.contains_key(key) by {
        if lists(l2, key) {
            let q = place(l2, key);
            assert(l[q].0 == key);
        }
        if lists(l, key) {
            let q = place(l, key);
            assert(l2[q].0 == key);
        }
    }
    assert forall|key: Seq<u8>| listed(l2).contains_key(key) implies listed(l2)[key]
        == m.index[key] by {
        let q = place(l2, key);
        lemma_listed_at(l2, q);
    }
    assert(listed(l2) =~= m.index);
    lemma_listing_unique(listing_of(t.index), l2);
    lemma_live_bytes_same_sizes(l, l2);
}

/// Listings whose entries name records of the same sizes name the same
/// number of bytes.
pub proof fn lemma_live_bytes_same_sizes(a: Listing, b: Listing)
    requires
        a.len() == b.len(),
        forall|i: int| 0 <= i < a.len() ==> (#[trigger] a[i]).1.size == b[i].1.size,
    ensures
        live_bytes(a) == live_bytes(b),
    decreases a.len(),
{
    if a.len() > 0 {
        let a0 = a.drop_last();
        let b0 = b.drop_last();
        assert forall|i: int| 0 <= i < a0.len() implies (#[trigger] a0[i]).1.size
            == b0[i].1.size by {
            assert(a0[i] == a[i]);
            assert(b0[i] == b[i]);
        }
        lemma_live_bytes_same_sizes(a0, b0);
        assert(a.last() == a[a.len() - 1]);
        assert(b.last() == b[b.len() - 1]);
    }
}

/// A point read gives a value only where the checksum stored in front of
/// the record is the checksum of what follows it.
pub proof fn lemma_read_checks(rec: Seq<u8>)
    ensures
        read_value(rec) is Ok ==> rec.len() >= PUT_OVERHEAD && crc32_cksum(rec.skip(4))
            == from_be_u32(rec.subrange(0, 4)),
{
}

/// Where bytes behind the stored checksum of a readable record change, a
/// point read fails with a checksum failure, unless the changed bytes have
/// the checksum of the bytes they replace.
pub proof fn lemma_corruption_detected(rec: Seq<u8>, changed: Seq<u8>)
    requires
        read_value(rec) is Ok,
        changed.len() == rec.len(),
        changed.subrange(0, 4) == rec.subrange(0, 4),
        crc32_cksum(changed.skip(4)) != crc32_cksum(rec.skip(4)),
    ensures
        read_value(changed) == Err::<(u64, Seq<u8>), KeyValueStoreError>(
            KeyValueStoreError::ChecksumFailed,
        ),
{
}

/// A point read depends on the bytes of its range alone: segments that
/// agree there give the same.
pub proof fn lemma_read_at_local(a: Seq<u8>, b: Seq<u8>, offset: u64, size: u64)
    requires
        offset + size <= a.len(),
        offset + size <= b.len(),
        a.subrange(offset as int, offset + size) == b.subrange(offset as int, offset + size),
    ensures
        read_at(a, offset, size) == read_at(b, offset, size),
{
}

/// Where the bytes of the record of a key change behind its stored
/// checksum, a lookup of the key gives nothing, unless the changed bytes
/// have the checksum of the bytes they replace.
pub proof fn lemma_damaged_record(s: State, t: State, key: Seq<u8>)
    requires
        s.wf(),
        s.get(key) is Some,
        t.index == s.index,
        t.segments.len() == s.segments.len(),
        ({
            let e = s.index[key];
            let before = s.segments[e.file as int];
            let after = t.segments[e.file as int];
            &&& after.len() == before.len()
            &&& after.subrange(e.offset as int, e.offset + 4) == before.subrange(
                e.offset as int,
                e.offset + 4,
            )
            &&& crc32_cksum(after.subrange(e.offset + 4, e.offset + e.size)) != crc32_cksum(
                before.subrange(e.offset + 4, e.offset + e.size),
            )
        }),
    ensures
        t.get(key) is None,
{
    let e = s.index[key];
    let before = s.segments[e.file as int];
    let after = t.segments[e.file as int];
    assert(located(s.segments, e));
    let rec = before.subrange(e.offset as int, e.offset + e.size);
    let changed = after.subrange(e.offset as int, e.offset + e.size);
    assert(rec.subrange(0, 4) =~= before.subrange(e.offset as int, e.offset + 4));
    assert(changed.subrange(0, 4) =~= after.subrange(e.offset as int, e.offset + 4));
    assert(rec.skip(4) =~= before.subrange(e.offset + 4, e.offset + e.size));
    assert(changed.skip(4) =~= after.subrange(e.offset + 4, e.offset + e.size));
    lemma_corruption_detected(rec, changed);
}

/// A lookup of a key gives the same in two stores with the same directory
/// whose segments agree on the bytes of the record of the key, whatever
/// has changed elsewhere.
pub proof fn lemma_untouched_record(s: State, t: State, key: Seq<u8>)
    requires
        t.index == s.index,
        s.index.contains_key(key),
        located(s.segments, s.index[key]),
        located(t.segments, s.index[key]),
        ({
            let e = s.index[key];
            t.segments[e.file as int].subrange(e.offset as int, e.offset + e.size)
                == s.segments[e.file as int].subrange(e.offset as int, e.offset + e.size)
        }),
    ensures
        t.get(key) == s.get(key),
{
}

} // verus!
