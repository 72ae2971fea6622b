use key_value_store::clock::timestamp_of;
use key_value_store::error::KeyValueStoreError;
use key_value_store::index::Index;
use key_value_store::iter::RangeIter;
use key_value_store::order::KeyBound;
use key_value_store::record::{encode_put, encode_tombstone};
use key_value_store::settings::Metrics;
use key_value_store::util::data_header;
use key_value_store::{Bitcask, Options, Value};

fn small(limit: u64) -> Options {
    let mut opts = Options::new("db");
    opts.file_size_limit = limit;
    opts
}

fn files_of(store: &Bitcask) -> Vec<Vec<u8>> {
    (0..=store.counter()).map(|i| store.segment(i).to_vec()).collect()
}

fn total_bytes(store: &Bitcask) -> usize {
    files_of(store).iter().map(|s| s.len()).sum()
}

fn data_of(store: &Bitcask, key: &[u8]) -> Option<Vec<u8>> {
    store.get(key).map(|v| v.data().to_vec())
}

fn collect(store: &Bitcask, lower: KeyBound, upper: KeyBound) -> Vec<(Vec<u8>, Vec<u8>)> {
    let mut it = store.iter(&lower, &upper);
    let mut out = Vec::new();
    while let Some((k, v)) = it.next() {
        out.push((k, v.data().to_vec()));
    }
    out
}

#[test]
fn default_options_match_the_documented_defaults() {
    let opts = Options::new("./hello-kv");
    assert_eq!(opts.base_dir, "./hello-kv");
    assert_eq!(opts.file_size_limit, 2 * 1024 * 1024 * 1024);
    assert_eq!(opts.cache_size, 8);
    assert_eq!(opts.max_key_size, None);
    assert_eq!(opts.max_value_size, None);
    assert_eq!(opts.bytes_deleted_percent, 50);
    assert_eq!(opts.entries_deleted_percent, 50);
}

#[test]
fn new_metrics_count_nothing() {
    let m = Metrics::new();
    assert_eq!(m.num_bytes_deleted, 0);
    assert_eq!(m.num_entries_deleted, 0);
    assert_eq!(m.bytes_deleted_limit, 81920);
    assert_eq!(m.entries_deleted_percent, 50);
}

#[test]
fn created_store_has_one_segment_with_the_magic() {
    let store = Bitcask::create(Options::new("db"));
    assert_eq!(store.root(), "db");
    assert_eq!(store.counter(), 0);
    assert_eq!(store.segment(0), &data_header()[..]);
    assert!(store.snapshot().is_none());
    assert!(store.keys().is_empty());
    assert!(store.get(b"k").is_none());
    assert!(!store.contains(b"k"));
    assert_eq!(store.bytes_deleted(), 0);
    assert_eq!(store.entries_deleted(), 0);
}

#[test]
fn open_without_segments_creates_a_store() {
    let store = Bitcask::open(Options::new("db"), Vec::new(), None);
    assert_eq!(store.counter(), 0);
    assert_eq!(store.segment(0), &data_header()[..]);
    assert!(store.snapshot().is_none());
}

#[test]
fn round_trip_returns_each_last_written_value() {
    let mut store = Bitcask::create(Options::new("db"));
    store.insert_at(1, b"a", b"one").unwrap();
    store.insert_at(2, b"b", b"two").unwrap();
    store.insert_at(3, b"c", b"").unwrap();
    store.flush();
    assert_eq!(store.get(b"a"), Some(Value::from(1, b"one".to_vec())));
    assert_eq!(store.get(b"b"), Some(Value::from(2, b"two".to_vec())));
    assert_eq!(store.get(b"c"), Some(Value::from(3, Vec::new())));
    assert_eq!(store.get(b"d"), None);
    let opts = Options::new("db");
    let (segments, snapshot) = store.close();
    let reopened = Bitcask::open(opts, segments, Some(snapshot));
    assert_eq!(reopened.get(b"a"), Some(Value::from(1, b"one".to_vec())));
    assert_eq!(reopened.get(b"b"), Some(Value::from(2, b"two".to_vec())));
    assert_eq!(reopened.get(b"c"), Some(Value::from(3, Vec::new())));
}

#[test]
fn insert_appends_the_record_and_points_the_directory_at_it() {
    let mut store = Bitcask::create(Options::new("db"));
    store.insert_at(7, b"key", b"value").unwrap();
    let mut expected = data_header();
    expected.extend_from_slice(&encode_put(7, b"key", b"value"));
    assert_eq!(store.segment(0), &expected[..]);
    let mut index = Index::new();
    index.insert(b"key", 7, 0, 21, 37);
    assert_eq!(store.snapshot(), Some(&index.write()[..]));
}

#[test]
fn last_write_wins_and_counts_the_superseded_record() {
    let mut store = Bitcask::create(Options::new("db"));
    store.insert_at(1, b"k", b"first").unwrap();
    assert_eq!(store.bytes_deleted(), 0);
    store.insert_at(2, b"k", b"second!").unwrap();
    assert_eq!(store.get(b"k"), Some(Value::from(2, b"second!".to_vec())));
    assert_eq!(store.bytes_deleted(), 29 + 1 + 5);
    assert_eq!(store.entries_deleted(), 1);
    store.insert_at(2, b"k", b"3").unwrap();
    assert_eq!(data_of(&store, b"k"), Some(b"3".to_vec()));
    assert_eq!(store.bytes_deleted(), (29 + 1 + 5) + (29 + 1 + 7));
    assert_eq!(store.entries_deleted(), 2);
}

#[test]
fn insert_if_none_at_inserts_only_once() {
    let mut store = Bitcask::create(Options::new("db"));
    assert_eq!(store.insert_if_none_at(1, b"k", b"first"), Ok(true));
    let before = files_of(&store);
    assert_eq!(store.insert_if_none_at(2, b"k", b"second"), Ok(false));
    assert_eq!(files_of(&store), before);
    assert_eq!(store.get(b"k"), Some(Value::from(1, b"first".to_vec())));
    assert_eq!(store.bytes_deleted(), 0);
}

#[test]
fn insert_refuses_a_key_over_its_cap() {
    let mut opts = Options::new("db");
    opts.max_key_size = Some(3);
    let mut store = Bitcask::create(opts);
    assert_eq!(store.insert_at(1, b"abc", b"fits"), Ok(()));
    assert_eq!(store.insert_at(1, b"abcd", b"v"), Err(KeyValueStoreError::PayloadTooLarge));
    assert_eq!(store.insert_if_none_at(1, b"abcd", b"v"), Err(KeyValueStoreError::PayloadTooLarge));
    assert_eq!(store.insert(b"abcd", b"v"), Err(KeyValueStoreError::PayloadTooLarge));
    assert!(!store.contains(b"abcd"));
    assert_eq!(store.segment(0).len(), 21 + 29 + 3 + 4);
}

#[test]
fn insert_refuses_a_value_over_its_cap() {
    let mut opts = Options::new("db");
    opts.max_value_size = Some(2);
    let mut store = Bitcask::create(opts);
    assert_eq!(store.insert_at(1, b"k", b"ab"), Ok(()));
    assert_eq!(store.insert_at(1, b"k", b"abc"), Err(KeyValueStoreError::PayloadTooLarge));
    assert_eq!(data_of(&store, b"k"), Some(b"ab".to_vec()));
}

#[test]
fn insert_with_the_clock_stores_a_recent_timestamp() {
    let mut store = Bitcask::create(Options::new("db"));
    store.insert(b"k", b"v").unwrap();
    let got = store.get(b"k").unwrap();
    assert_eq!(got.data(), b"v");
    assert!(got.timestamp() > 1_600_000_000);
    assert!(got.timestamp() < 100_000_000_000);
    assert_eq!(store.insert_if_none(b"k", b"w"), Ok(false));
    assert_eq!(store.insert_if_none(b"l", b"w"), Ok(true));
    assert!(store.delete(b"k"));
    assert!(!store.delete(b"k"));
}

#[test]
fn delete_removes_the_key_and_appends_a_tombstone() {
    let mut store = Bitcask::create(Options::new("db"));
    store.insert_at(1, b"k", b"value").unwrap();
    let snapshot = store.snapshot().map(|s| s.to_vec());
    assert!(store.delete_at(2, b"k"));
    assert_eq!(store.get(b"k"), None);
    assert!(!store.contains(b"k"));
    assert_eq!(store.bytes_deleted(), 29 + 1 + 5);
    assert_eq!(store.entries_deleted(), 1);
    let mut expected = data_header();
    expected.extend_from_slice(&encode_put(1, b"k", b"value"));
    expected.extend_from_slice(&encode_tombstone(2, b"k"));
    assert_eq!(store.segment(0), &expected[..]);
    assert_eq!(store.snapshot().map(|s| s.to_vec()), snapshot);
}

#[test]
fn delete_of_an_absent_key_changes_nothing() {
    let mut store = Bitcask::create(Options::new("db"));
    store.insert_at(1, b"k", b"value").unwrap();
    let before = files_of(&store);
    assert!(!store.delete_at(2, b"other"));
    assert_eq!(files_of(&store), before);
    assert_eq!(store.bytes_deleted(), 0);
}

#[test]
fn tombstone_suppresses_the_key_after_reopen_without_snapshot() {
    let mut store = Bitcask::create(Options::new("db"));
    store.insert_at(1, b"k", b"value").unwrap();
    store.insert_at(1, b"l", b"stays").unwrap();
    assert!(store.delete_at(2, b"k"));
    let (segments, _) = store.close();
    let reopened = Bitcask::open(Options::new("db"), segments, None);
    assert_eq!(reopened.get(b"k"), None);
    assert_eq!(data_of(&reopened, b"l"), Some(b"stays".to_vec()));
    assert_eq!(reopened.keys(), vec![b"l".to_vec()]);
}

#[test]
fn tombstone_with_the_same_timestamp_does_not_suppress_after_reopen() {
    let mut store = Bitcask::create(Options::new("db"));
    store.insert_at(5, b"k", b"value").unwrap();
    assert!(store.delete_at(5, b"k"));
    assert_eq!(store.get(b"k"), None);
    let (segments, _) = store.close();
    let reopened = Bitcask::open(Options::new("db"), segments, None);
    assert_eq!(data_of(&reopened, b"k"), Some(b"value".to_vec()));
}

#[test]
fn rollover_begins_a_new_segment_before_the_limit_is_crossed() {
    let mut store = Bitcask::create(small(100));
    store.insert_at(1, b"a", b"0123456789").unwrap();
    assert_eq!(store.counter(), 0);
    assert_eq!(store.segment(0).len(), 21 + 40);
    store.insert_at(2, b"b", b"0123456789").unwrap();
    assert_eq!(store.counter(), 1);
    assert_eq!(store.segment(0).len(), 61);
    assert_eq!(store.segment(1).len(), 61);
    store.insert_at(3, b"c", b"012345678").unwrap();
    assert_eq!(store.counter(), 1);
    assert_eq!(store.segment(1).len(), 100);
    store.insert_at(4, b"d", b"").unwrap();
    assert_eq!(store.counter(), 2);
    for (k, v) in [(b"a", &b"0123456789"[..]), (b"b", b"0123456789"), (b"c", b"012345678"), (b"d", b"")] {
        assert_eq!(data_of(&store, k), Some(v.to_vec()));
    }
    assert!(files_of(&store).iter().all(|s| s.len() <= 100));
    assert!(total_bytes(&store) > 100);
}

#[test]
fn oversized_record_gets_a_segment_of_its_own() {
    let mut store = Bitcask::create(small(30));
    store.insert_at(1, b"k", b"value").unwrap();
    assert_eq!(store.counter(), 1);
    assert_eq!(store.segment(0), &data_header()[..]);
    assert_eq!(store.segment(1).len(), 21 + 35);
    assert_eq!(data_of(&store, b"k"), Some(b"value".to_vec()));
}

#[test]
fn keys_and_keys_range_ascend() {
    let mut store = Bitcask::create(Options::new("db"));
    for k in [&b"m"[..], b"a", b"z", b"ab"] {
        store.insert_at(1, k, b"v").unwrap();
    }
    assert_eq!(
        store.keys(),
        vec![b"a".to_vec(), b"ab".to_vec(), b"m".to_vec(), b"z".to_vec()]
    );
    assert_eq!(store.keys_range(b"ab", b"m"), vec![b"ab".to_vec(), b"m".to_vec()]);
    assert_eq!(store.keys_range(b"b", b"c"), Vec::<Vec<u8>>::new());
    assert_eq!(store.keys_range(b"z", b"a"), Vec::<Vec<u8>>::new());
}

#[test]
fn range_iteration_yields_keys_in_order_within_bounds_with_their_values() {
    let mut store = Bitcask::create(small(120));
    for (i, k) in [&b"d"[..], b"b", b"a", b"c", b"e"].iter().enumerate() {
        let mut v = b"value-".to_vec();
        v.extend_from_slice(k);
        store.insert_at(i as u64, k, &v).unwrap();
    }
    assert!(store.counter() >= 1);
    let got = collect(&store, KeyBound::Excluded(b"a".to_vec()), KeyBound::Included(b"d".to_vec()));
    assert_eq!(
        got,
        vec![
            (b"b".to_vec(), b"value-b".to_vec()),
            (b"c".to_vec(), b"value-c".to_vec()),
            (b"d".to_vec(), b"value-d".to_vec()),
        ]
    );
    for (k, v) in &got {
        assert_eq!(data_of(&store, k).as_ref(), Some(v));
    }
    let all = collect(&store, KeyBound::Unbounded, KeyBound::Unbounded);
    assert_eq!(all.len(), 5);
    assert!(all.windows(2).all(|w| w[0].0 < w[1].0));
    let none = collect(&store, KeyBound::Included(b"x".to_vec()), KeyBound::Unbounded);
    assert!(none.is_empty());
    let upto = collect(&store, KeyBound::Unbounded, KeyBound::Excluded(b"b".to_vec()));
    assert_eq!(upto, vec![(b"a".to_vec(), b"value-a".to_vec())]);
}

#[test]
fn range_iteration_passes_over_records_that_cannot_be_read() {
    let mut store = Bitcask::create(Options::new("db"));
    store.insert_at(1, b"a", b"one").unwrap();
    store.insert_at(2, b"b", b"two").unwrap();
    store.insert_at(3, b"c", b"three").unwrap();
    let snapshot = store.snapshot().unwrap().to_vec();
    let mut segments = files_of(&store);
    segments[0][21 + 33 + 30] ^= 0x01;
    let damaged = Bitcask::open(Options::new("db"), segments, Some(snapshot));
    assert_eq!(damaged.get(b"b"), None);
    assert!(damaged.contains(b"b"));
    let got = collect(&damaged, KeyBound::Unbounded, KeyBound::Unbounded);
    assert_eq!(
        got,
        vec![(b"a".to_vec(), b"one".to_vec()), (b"c".to_vec(), b"three".to_vec())]
    );
}

#[test]
fn range_iter_new_is_what_iter_gives() {
    let mut store = Bitcask::create(Options::new("db"));
    store.insert_at(1, b"a", b"one").unwrap();
    let mut it = RangeIter::new(&store, &KeyBound::Unbounded, &KeyBound::Unbounded);
    let (k, v) = it.next().unwrap();
    assert_eq!((k, v), (b"a".to_vec(), Value::from(1, b"one".to_vec())));
    assert!(it.next().is_none());
    assert!(it.next().is_none());
}

#[test]
fn get_reports_not_found_for_any_flipped_byte_of_the_record() {
    let mut store = Bitcask::create(Options::new("db"));
    store.insert_at(1, b"target", b"payload").unwrap();
    store.insert_at(2, b"other", b"untouched").unwrap();
    let snapshot = store.snapshot().unwrap().to_vec();
    let clean = files_of(&store);
    let start = 21 + 4;
    let end = 21 + 29 + 6 + 7;
    for i in start..end {
        let mut segments = clean.clone();
        segments[0][i] ^= 0x80;
        let mut damaged = Bitcask::open(Options::new("db"), segments, Some(snapshot.clone()));
        assert_eq!(damaged.get(b"target"), None, "byte {}", i);
        assert_eq!(data_of(&damaged, b"other"), Some(b"untouched".to_vec()));
        damaged.insert_at(3, b"target", b"again").unwrap();
        assert_eq!(data_of(&damaged, b"target"), Some(b"again".to_vec()));
    }
}

#[test]
fn merge_without_garbage_changes_nothing() {
    let mut store = Bitcask::create(Options::new("db"));
    store.insert_at(1, b"a", b"one").unwrap();
    let before = files_of(&store);
    store.merge();
    assert_eq!(files_of(&store), before);
}

#[test]
fn merge_keeps_live_values_and_drops_garbage() {
    let mut store = Bitcask::create(Options::new("db"));
    store.insert_at(1, b"b", b"old").unwrap();
    store.insert_at(2, b"a", b"one").unwrap();
    store.insert_at(3, b"b", b"new").unwrap();
    store.insert_at(4, b"c", b"gone").unwrap();
    store.delete_at(5, b"c");
    let before = total_bytes(&store);
    assert!(store.bytes_deleted() > 0);
    store.merge();
    assert_eq!(store.bytes_deleted(), 0);
    assert_eq!(store.entries_deleted(), 0);
    assert_eq!(store.counter(), 0);
    assert_eq!(store.keys(), vec![b"a".to_vec(), b"b".to_vec()]);
    assert_eq!(store.get(b"a"), Some(Value::from(2, b"one".to_vec())));
    assert_eq!(store.get(b"b"), Some(Value::from(3, b"new".to_vec())));
    assert_eq!(store.get(b"c"), None);
    let mut expected = data_header();
    expected.extend_from_slice(&encode_put(2, b"a", b"one"));
    expected.extend_from_slice(&encode_put(3, b"b", b"new"));
    assert_eq!(store.segment(0), &expected[..]);
    assert!(total_bytes(&store) <= before);
    let mut index = Index::new();
    index.insert(b"a", 2, 0, 21, 33);
    index.insert(b"b", 3, 0, 54, 33);
    assert_eq!(store.snapshot(), Some(&index.write()[..]));
    store.insert_at(6, b"d", b"after").unwrap();
    assert_eq!(data_of(&store, b"d"), Some(b"after".to_vec()));
    assert_eq!(data_of(&store, b"a"), Some(b"one".to_vec()));
}

#[test]
fn merge_over_several_segments_keeps_the_directory_of_the_last_one() {
    let mut store = Bitcask::create(small(21 + 70));
    store.insert_at(1, b"a", b"1").unwrap();
    store.insert_at(2, b"b", b"2").unwrap();
    store.insert_at(3, b"c", b"3").unwrap();
    store.insert_at(4, b"c", b"4").unwrap();
    assert!(store.bytes_deleted() > 0);
    store.merge();
    assert_eq!(store.counter(), 1);
    assert_eq!(store.segment(0).len(), 21 + 62);
    assert_eq!(store.segment(1).len(), 21 + 31);
    assert_eq!(store.keys(), vec![b"c".to_vec()]);
    assert_eq!(data_of(&store, b"c"), Some(b"4".to_vec()));
    let (segments, _) = store.close();
    let reopened = Bitcask::open(small(21 + 70), segments, None);
    assert_eq!(reopened.keys(), vec![b"a".to_vec(), b"b".to_vec(), b"c".to_vec()]);
    assert_eq!(data_of(&reopened, b"a"), Some(b"1".to_vec()));
}

#[test]
fn open_with_snapshot_gives_the_directory_of_open_without() {
    let mut store = Bitcask::create(small(100));
    for i in 0..10u64 {
        let key = [b'k', b'0' + (i % 4) as u8];
        store.insert_at(100 + i, &key, &[b'v', b'0' + i as u8]).unwrap();
    }
    store.delete_at(200, b"k1");
    store.flush();
    let snapshot = store.snapshot().unwrap().to_vec();
    let segments = files_of(&store);
    let with = Bitcask::open(small(100), segments.clone(), Some(snapshot.clone()));
    let without = Bitcask::open(small(100), segments, None);
    assert_eq!(with.keys(), without.keys());
    assert_eq!(with.keys(), store.keys());
    for key in with.keys() {
        assert_eq!(with.get(&key), without.get(&key));
        assert_eq!(with.get(&key), store.get(&key));
    }
    assert_eq!(with.snapshot(), Some(&snapshot[..]));
    assert_eq!(without.snapshot(), Some(&snapshot[..]));
}

#[test]
fn open_falls_back_to_a_scan_when_the_snapshot_is_damaged() {
    let mut store = Bitcask::create(Options::new("db"));
    store.insert_at(1, b"a", b"one").unwrap();
    store.insert_at(2, b"b", b"two").unwrap();
    let segments = files_of(&store);
    let good = store.snapshot().unwrap().to_vec();
    let truncated = good[..good.len() - 3].to_vec();
    let reopened = Bitcask::open(Options::new("db"), segments.clone(), Some(truncated));
    assert_eq!(reopened.keys(), vec![b"a".to_vec(), b"b".to_vec()]);
    assert_eq!(reopened.snapshot(), Some(&good[..]));
    let mut beyond = Index::new();
    beyond.insert(b"ghost", 1, 0, 50, 1000);
    let reopened = Bitcask::open(Options::new("db"), segments.clone(), Some(beyond.write()));
    assert_eq!(reopened.keys(), vec![b"a".to_vec(), b"b".to_vec()]);
    let mut elsewhere = Index::new();
    elsewhere.insert(b"ghost", 1, 7, 21, 30);
    let reopened = Bitcask::open(Options::new("db"), segments, Some(elsewhere.write()));
    assert_eq!(reopened.keys(), vec![b"a".to_vec(), b"b".to_vec()]);
}

#[test]
fn open_trusts_a_whole_snapshot_over_the_segments() {
    let mut store = Bitcask::create(Options::new("db"));
    store.insert_at(1, b"a", b"one").unwrap();
    store.insert_at(2, b"b", b"two").unwrap();
    let stale = store.snapshot().unwrap().to_vec();
    store.delete_at(3, b"a");
    let segments = files_of(&store);
    let reopened = Bitcask::open(Options::new("db"), segments, Some(stale));
    assert_eq!(data_of(&reopened, b"a"), Some(b"one".to_vec()));
    assert_eq!(reopened.counter(), 0);
    assert_eq!(reopened.bytes_deleted(), 0);
}

#[test]
fn open_makes_the_last_segment_the_active_one() {
    let mut store = Bitcask::create(small(70));
    store.insert_at(1, b"a", b"one").unwrap();
    store.insert_at(2, b"b", b"two").unwrap();
    assert_eq!(store.counter(), 1);
    let (segments, snapshot) = store.close();
    let mut reopened = Bitcask::open(small(700), segments, Some(snapshot));
    assert_eq!(reopened.counter(), 1);
    reopened.insert_at(3, b"c", b"three").unwrap();
    assert_eq!(reopened.counter(), 1);
    assert_eq!(reopened.segment(1).len(), 21 + 33 + 35);
    assert_eq!(data_of(&reopened, b"a"), Some(b"one".to_vec()));
}

#[test]
fn read_of_an_entry_outside_the_store_gives_nothing() {
    let mut store = Bitcask::create(Options::new("db"));
    store.insert_at(1, b"a", b"one").unwrap();
    let e = key_value_store::index::Entry::from(1, 3, 21, 33);
    assert_eq!(store.read(&e), None);
    let e = key_value_store::index::Entry::from(1, 0, 21, 33);
    assert_eq!(store.read(&e), Some(Value::from(1, b"one".to_vec())));
    let e = key_value_store::index::Entry::from(1, 0, 22, 33);
    assert_eq!(store.read(&e), None);
}

#[test]
fn entries_in_lists_the_directory_of_a_range() {
    let mut store = Bitcask::create(Options::new("db"));
    store.insert_at(1, b"a", b"one").unwrap();
    store.insert_at(2, b"b", b"two").unwrap();
    store.insert_at(3, b"c", b"three").unwrap();
    let got = store.entries_in(&KeyBound::Included(b"b".to_vec()), &KeyBound::Unbounded);
    assert_eq!(got.len(), 2);
    assert_eq!(got[0].0, b"b".to_vec());
    assert_eq!(got[0].1, key_value_store::index::Entry::from(2, 0, 21 + 33, 33));
    assert_eq!(got[1].0, b"c".to_vec());
    assert_eq!(got[1].1, key_value_store::index::Entry::from(3, 0, 21 + 66, 35));
}

#[test]
fn close_hands_back_the_segments_and_the_snapshot() {
    let mut store = Bitcask::create(small(70));
    store.insert_at(1, b"a", b"one").unwrap();
    store.insert_at(2, b"b", b"two").unwrap();
    store.delete_at(3, b"a");
    let segments = files_of(&store);
    let mut index = Index::new();
    index.insert(b"b", 2, 1, 21, 33);
    let (closed, snapshot) = store.close();
    assert_eq!(closed, segments);
    assert_eq!(closed.len(), 2);
    assert_eq!(snapshot, index.write());
}

#[test]
fn timestamp_of_keeps_seconds_from_the_epoch_on_and_wraps_earlier_ones() {
    assert_eq!(timestamp_of(0), 0);
    assert_eq!(timestamp_of(1_700_000_000), 1_700_000_000);
    assert_eq!(timestamp_of(i64::MAX), 9_223_372_036_854_775_807);
    assert_eq!(timestamp_of(-1), u64::MAX);
    assert_eq!(timestamp_of(i64::MIN), 9_223_372_036_854_775_808);
}
