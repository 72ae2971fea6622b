use key_value_store::endian::put_u64;
use key_value_store::index::{Entry, Index};
use key_value_store::order::{key_within, rank_keys, KeyBound, Rank};
use key_value_store::record::{encode_put, encode_tombstone};
use key_value_store::util::{data_header, index_header};

fn sample() -> Index {
    let mut index = Index::new();
    index.insert(b"m", 1, 0, 21, 30);
    index.insert(b"a", 2, 0, 51, 31);
    index.insert(b"z", 3, 1, 21, 32);
    index.insert(b"ab", 4, 1, 53, 33);
    index
}

fn keys_of(entries: &[(Vec<u8>, Entry)]) -> Vec<Vec<u8>> {
    entries.iter().map(|(k, _)| k.clone()).collect()
}

#[test]
fn keys_rank_lexicographically() {
    assert_eq!(rank_keys(b"", b""), Rank::Same);
    assert_eq!(rank_keys(b"", b"a"), Rank::Below);
    assert_eq!(rank_keys(b"a", b""), Rank::Above);
    assert_eq!(rank_keys(b"abc", b"abd"), Rank::Below);
    assert_eq!(rank_keys(b"ab", b"abc"), Rank::Below);
    assert_eq!(rank_keys(b"b", b"abc"), Rank::Above);
    assert_eq!(rank_keys(&[0xFF], &[0x00, 0xFF]), Rank::Above);
    assert_eq!(rank_keys(b"same", b"same"), Rank::Same);
}

#[test]
fn key_within_honours_each_kind_of_bound() {
    let inc = KeyBound::Included(b"b".to_vec());
    let exc = KeyBound::Excluded(b"b".to_vec());
    let un = KeyBound::Unbounded;
    assert!(key_within(&inc, &un, b"b"));
    assert!(!key_within(&exc, &un, b"b"));
    assert!(key_within(&exc, &un, b"ba"));
    assert!(!key_within(&inc, &un, b"a"));
    assert!(key_within(&un, &inc, b"b"));
    assert!(!key_within(&un, &exc, b"b"));
    assert!(key_within(&un, &exc, b"a"));
    assert!(!key_within(&un, &inc, b"c"));
    assert!(key_within(&un, &un, b""));
}

#[test]
fn index_entry_getters_return_the_fields() {
    let e = Entry::from(1, 2, 3, 4);
    assert_eq!(e.timestamp(), 1);
    assert_eq!(e.file(), 2);
    assert_eq!(e.offset(), 3);
    assert_eq!(e.size(), 4);
    assert_eq!(e, Entry { file: 2, timestamp: 1, offset: 3, size: 4 });
}

#[test]
fn new_index_is_empty() {
    let index = Index::new();
    assert_eq!(index.len(), 0);
    assert!(index.get(b"a").is_none());
    assert!(index.keys().is_empty());
    assert!(index.entries().is_empty());
}

#[test]
fn index_insert_returns_the_previous_entry() {
    let mut index = Index::new();
    assert_eq!(index.insert(b"k", 1, 2, 3, 4), None);
    assert_eq!(index.get(b"k"), Some(&Entry::from(1, 2, 3, 4)));
    assert_eq!(index.insert(b"k", 5, 6, 7, 8), Some(Entry::from(1, 2, 3, 4)));
    assert_eq!(index.get(b"k"), Some(&Entry::from(5, 6, 7, 8)));
    assert_eq!(index.len(), 1);
}

#[test]
fn index_delete_returns_the_previous_entry() {
    let mut index = sample();
    assert_eq!(index.delete(b"m"), Some(Entry::from(1, 0, 21, 30)));
    assert_eq!(index.delete(b"m"), None);
    assert!(index.get(b"m").is_none());
    assert_eq!(index.keys(), vec![b"a".to_vec(), b"ab".to_vec(), b"z".to_vec()]);
}

#[test]
fn index_keys_ascend() {
    let index = sample();
    assert_eq!(
        index.keys(),
        vec![b"a".to_vec(), b"ab".to_vec(), b"m".to_vec(), b"z".to_vec()]
    );
    let entries = index.entries();
    assert_eq!(keys_of(&entries), index.keys());
    assert_eq!(entries[1].1, Entry::from(4, 1, 53, 33));
}

#[test]
fn index_range_includes_both_ends() {
    let index = sample();
    assert_eq!(
        keys_of(&index.range(b"ab", b"m")),
        vec![b"ab".to_vec(), b"m".to_vec()]
    );
    assert_eq!(keys_of(&index.range(b"b", b"y")), vec![b"m".to_vec()]);
    assert!(index.range(b"n", b"y").is_empty());
    assert!(index.range(b"z", b"a").is_empty());
    assert_eq!(index.range(b"", &[0xFF]).len(), 4);
}

#[test]
fn index_range_bounds_honours_open_ends() {
    let index = sample();
    let got = index.range_bounds(&KeyBound::Excluded(b"a".to_vec()), &KeyBound::Excluded(b"z".to_vec()));
    assert_eq!(keys_of(&got), vec![b"ab".to_vec(), b"m".to_vec()]);
    let got = index.range_bounds(&KeyBound::Included(b"m".to_vec()), &KeyBound::Unbounded);
    assert_eq!(keys_of(&got), vec![b"m".to_vec(), b"z".to_vec()]);
    let got = index.range_bounds(&KeyBound::Excluded(b"m".to_vec()), &KeyBound::Excluded(b"m".to_vec()));
    assert!(got.is_empty());
}

#[test]
fn index_clear_empties_the_map() {
    let mut index = sample();
    index.clear();
    assert_eq!(index.len(), 0);
    assert!(index.get(b"a").is_none());
}

#[test]
fn index_write_has_the_documented_layout() {
    let mut index = Index::new();
    index.insert(b"b", 1, 2, 3, 4);
    index.insert(b"a", 5, 6, 7, 8);
    let mut expected = index_header();
    for (key, fields) in [(b"a", [5u64, 6, 7, 8]), (b"b", [1u64, 2, 3, 4])] {
        put_u64(&mut expected, 1);
        expected.extend_from_slice(key);
        for f in fields {
            put_u64(&mut expected, f);
        }
    }
    assert_eq!(index.write(), expected);
    assert_eq!(Index::new().write(), index_header());
}

#[test]
fn index_open_loads_what_write_wrote() {
    let index = sample();
    let bytes = index.write();
    let mut loaded = Index::new();
    assert!(loaded.open(&bytes));
    assert_eq!(loaded.entries(), index.entries());
}

#[test]
fn index_open_refuses_a_truncated_snapshot_and_changes_nothing() {
    let bytes = sample().write();
    let mut index = Index::new();
    index.insert(b"kept", 1, 1, 1, 1);
    assert!(!index.open(&bytes[..bytes.len() - 1]));
    assert!(!index.open(&bytes[1..]));
    assert!(!index.open(b""));
    assert_eq!(index.keys(), vec![b"kept".to_vec()]);
}

#[test]
fn index_open_lets_later_entries_win() {
    let mut bytes = index_header();
    for fields in [[1u64, 0, 21, 30], [2u64, 0, 51, 31]] {
        put_u64(&mut bytes, 1);
        bytes.extend_from_slice(b"k");
        for f in fields {
            put_u64(&mut bytes, f);
        }
    }
    let mut index = Index::new();
    assert!(index.open(&bytes));
    assert_eq!(index.get(b"k"), Some(&Entry::from(2, 0, 51, 31)));
}

#[test]
fn from_data_replays_puts_and_tombstones() {
    let mut seg = data_header();
    seg.extend_from_slice(&encode_put(10, b"a", b"one"));
    seg.extend_from_slice(&encode_put(11, b"b", b"two"));
    seg.extend_from_slice(&encode_put(12, b"a", b"three"));
    seg.extend_from_slice(&encode_tombstone(13, b"b"));
    let mut index = Index::new();
    index.from_data(&seg, 4);
    assert_eq!(index.keys(), vec![b"a".to_vec()]);
    assert_eq!(index.get(b"a"), Some(&Entry::from(12, 4, 21 + 33 + 33, 35)));
}

#[test]
fn from_data_keeps_the_later_timestamp() {
    let mut seg = data_header();
    seg.extend_from_slice(&encode_put(10, b"a", b"new"));
    seg.extend_from_slice(&encode_put(9, b"a", b"old"));
    seg.extend_from_slice(&encode_put(10, b"b", b"first"));
    seg.extend_from_slice(&encode_put(10, b"b", b"second"));
    let mut index = Index::new();
    index.from_data(&seg, 0);
    assert_eq!(index.get(b"a"), Some(&Entry::from(10, 0, 21, 33)));
    assert_eq!(index.get(b"b").unwrap().offset(), 21 + 33 + 33 + 35);
}

#[test]
fn from_data_ignores_a_tombstone_that_is_not_later() {
    let mut seg = data_header();
    seg.extend_from_slice(&encode_put(10, b"a", b"one"));
    seg.extend_from_slice(&encode_tombstone(10, b"a"));
    seg.extend_from_slice(&encode_tombstone(9, b"a"));
    let mut index = Index::new();
    index.from_data(&seg, 0);
    assert_eq!(index.keys(), vec![b"a".to_vec()]);
    let mut seg2 = data_header();
    seg2.extend_from_slice(&encode_tombstone(11, b"a"));
    seg2.extend_from_slice(&encode_tombstone(12, b"never"));
    index.from_data(&seg2, 1);
    assert!(index.keys().is_empty());
}

#[test]
fn from_data_stops_at_corruption_and_keeps_what_came_before() {
    let mut seg = data_header();
    seg.extend_from_slice(&encode_put(10, b"a", b"one"));
    let bad_at = seg.len() + 5;
    seg.extend_from_slice(&encode_put(11, b"b", b"two"));
    seg.extend_from_slice(&encode_put(12, b"c", b"three"));
    seg[bad_at] ^= 0xFF;
    let mut index = Index::new();
    index.from_data(&seg, 0);
    assert_eq!(index.keys(), vec![b"a".to_vec()]);
}
