//! The layout of the index snapshot: the magic, then for each key in
//! ascending order `key_len | key | timestamp | segment | offset | size`,
//! all integers big-endian.

use vstd::prelude::*;
use crate::endian::{be_u64, from_be_u64, lemma_be_u64_round_trip};
use crate::reader::EntryView;
use crate::util::{has_index_header, INDEX_FILE_HEADER, INDEX_HEADER_LEN};

verus! {

/// Bytes of a snapshot entry besides its key.
pub const SNAPSHOT_ENTRY_OVERHEAD: usize = 40;

/// The bytes of one snapshot entry.
pub open spec fn snapshot_entry(e: EntryView) -> Seq<u8> {
    be_u64(e.key.len() as u64) + e.key + be_u64(e.timestamp) + be_u64(e.file) + be_u64(e.offset)
        + be_u64(e.size)
}

/// The bytes of the entries of a snapshot, one after the other.
pub open spec fn snapshot_body(entries: Seq<EntryView>) -> Seq<u8>
    decreases entries.len(),
{
    if entries.len() == 0 {
        Seq::empty()
    } else {
        snapshot_body(entries.drop_last()) + snapshot_entry(entries.last())
    }
}

/// The bytes of a whole snapshot.
pub open spec fn snapshot_bytes(entries: Seq<EntryView>) -> Seq<u8> {
    INDEX_FILE_HEADER@ + snapshot_body(entries)
}

/// The entry at the front of `s` and the bytes it occupies, if a whole
/// entry stands there.
pub open spec fn parse_snapshot_entry(s: Seq<u8>) -> Option<(EntryView, nat)> {
    if s.len() < 8 {
        None
    } else {
        let key_len = from_be_u64(s.subrange(0, 8)) as int;
        let len = SNAPSHOT_ENTRY_OVERHEAD as int + key_len;
        if s.len() < len {
            None
        } else {
            Some(
                (
                    EntryView {
                        key: s.subrange(8, 8 + key_len),
                        timestamp: from_be_u64(s.subrange(8 + key_len, 16 + key_len)),
                        file: from_be_u64(s.subrange(16 + key_len, 24 + key_len)),
                        offset: from_be_u64(s.subrange(24 + key_len, 32 + key_len)),
                        size: from_be_u64(s.subrange(32 + key_len, 40 + key_len)),
                    },
                    len as nat,
                ),
            )
        }
    }
}

/// The entries that `s` holds, if `s` is whole entries from end to end.
pub open spec fn parse_snapshot_body(s: Seq<u8>) -> Option<Seq<EntryView>>
    decreases s.len(),
{
    if s.len() == 0 {
        Some(Seq::empty())
    } else {
        match parse_snapshot_entry(s) {
            None => None,
            Some((e, n)) => if 0 < n <= s.len() {
                after(seq![e], parse_snapshot_body(s.skip(n as int)))
            } else {
                None
            },
        }
    }
}

/// `front` followed by what `rest` holds, where `rest` holds anything.
pub open spec fn after(front: Seq<EntryView>, rest: Option<Seq<EntryView>>) -> Option<
    Seq<EntryView>,
> {
    match rest {
        Some(entries) => Some(front + entries),
        None => None,
    }
}

/// The entries of a snapshot, if it has the magic and is whole entries
/// behind it.
pub open spec fn parse_snapshot(s: Seq<u8>) -> Option<Seq<EntryView>> {
    if has_index_header(s) {
        parse_snapshot_body(s.skip(INDEX_HEADER_LEN as int))
    } else {
        None
    }
}

/// A snapshot entry followed by anything is read back as that entry.
pub proof fn lemma_parse_snapshot_entry(e: EntryView, rest: Seq<u8>)
    requires
        e.key.len() <= u64::MAX,
    ensures
        snapshot_entry(e).len() == SNAPSHOT_ENTRY_OVERHEAD + e.key.len(),
        parse_snapshot_entry(snapshot_entry(e) + rest) == Some((e, snapshot_entry(e).len())),
{
    let r = snapshot_entry(e);
    let s = r + rest;
    let k = e.key.len() as int;
    lemma_be_u64_round_trip(e.key.len() as u64);
    lemma_be_u64_round_trip(e.timestamp);
    lemma_be_u64_round_trip(e.file);
    lemma_be_u64_round_trip(e.offset);
    lemma_be_u64_round_trip(e.size);
    assert(s.subrange(0, 8) =~= be_u64(e.key.len() as u64));
    assert(s.subrange(8, 8 + k) =~= e.key);
    assert(s.subrange(8 + k, 16 + k) =~= be_u64(e.timestamp));
    assert(s.subrange(16 + k, 24 + k) =~= be_u64(e.file));
    assert(s.subrange(24 + k, 32 + k) =~= be_u64(e.offset));
    assert(s.subrange(32 + k, 40 + k) =~= be_u64(e.size));
}

/// The body of a snapshot begins with its first entry.
pub proof fn lemma_snapshot_body_front(entries: Seq<EntryView>)
    requires
        entries.len() > 0,
    ensures
        snapshot_body(entries) == snapshot_entry(entries[0]) + snapshot_body(entries.skip(1)),
    decreases entries.len(),
{
    if entries.len() == 1 {
        assert(entries.drop_last() =~= Seq::<EntryView>::empty());
        assert(entries.skip(1) =~= Seq::<EntryView>::empty());
        assert(snapshot_body(entries) =~= snapshot_entry(entries[0]) + snapshot_body(
            entries.skip(1),
        ));
    } else {
        let front = entries.drop_last();
        lemma_snapshot_body_front(front);
        assert(front.skip(1) =~= entries.skip(1).drop_last());
        assert(entries.skip(1).last() == entries.last());
        assert(snapshot_body(entries) =~= snapshot_entry(entries[0]) + snapshot_body(
            entries.skip(1),
        ));
    }
}

/// The body of a snapshot is read back as the entries it was made from.
pub proof fn lemma_parse_snapshot_body(entries: Seq<EntryView>)
    requires
        forall|i: int| 0 <= i < entries.len() ==> (#[trigger] entries[i]).key.len() <= u64::MAX,
    ensures
        parse_snapshot_body(snapshot_body(entries)) == Some(entries),
    decreases entries.len(),
{
    if entries.len() > 0 {
        let e = entries[0];
        let rest = entries.skip(1);
        lemma_snapshot_body_front(entries);
        lemma_parse_snapshot_entry(e, snapshot_body(rest));
        assert forall|i: int| 0 <= i < rest.len() implies (#[trigger] rest[i]).key.len()
            <= u64::MAX by {
            assert(rest[i] == entries[i + 1]);
        }
        lemma_parse_snapshot_body(rest);
        let s = snapshot_body(entries);
        assert(s.skip(snapshot_entry(e).len() as int) =~= snapshot_body(rest));
        assert(seq![e] + rest =~= entries);
    } else {
        assert(entries =~= Seq::<EntryView>::empty());
    }
}

/// A snapshot is read back as the entries it was made from.
pub proof fn lemma_parse_snapshot(entries: Seq<EntryView>)
    requires
        forall|i: int| 0 <= i < entries.len() ==> (#[trigger] entries[i]).key.len() <= u64::MAX,
    ensures
        parse_snapshot(snapshot_bytes(entries)) == Some(entries),
{
    let s = snapshot_bytes(entries);
    assert(s.take(INDEX_HEADER_LEN as int) =~= INDEX_FILE_HEADER@);
    assert(s.skip(INDEX_HEADER_LEN as int) =~= snapshot_body(entries));
    lemma_parse_snapshot_body(entries);
}

} // verus!
