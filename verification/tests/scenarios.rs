use key_value_store::order::KeyBound;
use key_value_store::{Bitcask, Options};

fn small(limit: u64) -> Options {
    let mut opts = Options::new("db");
    opts.file_size_limit = limit;
    opts
}

fn files_of(store: &Bitcask) -> Vec<Vec<u8>> {
    (0..=store.counter()).map(|i| store.segment(i).to_vec()).collect()
}

fn id(v: u64) -> [u8; 8] {
    v.to_be_bytes()
}

#[test]
fn hello_world_is_inserted_once() {
    let mut kv = Bitcask::create(Options::new("./hello-kv"));
    assert_eq!(kv.insert_if_none(b"message", b"Hello, World!"), Ok(true));
    assert_eq!(kv.insert_if_none(b"message", b"Hello, World!"), Ok(false));
    kv.flush();
    let value = kv.get(b"message").unwrap();
    assert_eq!(value.data(), b"Hello, World!");
}

#[test]
fn fold_counts_the_ages_of_three_persons() {
    let mut kv = Bitcask::create(Options::new("./fold-kv"));
    kv.insert_if_none(b"person:1:name", b"alice").unwrap();
    kv.insert_if_none(b"person:1:age", b"1").unwrap();
    kv.insert_if_none(b"person:2:name", b"blob").unwrap();
    kv.insert_if_none(b"person:2:age", b"2").unwrap();
    kv.insert_if_none(b"person:3:name", b"john").unwrap();
    kv.insert_if_none(b"person:3:age", b"3").unwrap();
    let mut count = 0;
    let mut it = kv.iter(&KeyBound::Unbounded, &KeyBound::Unbounded);
    while let Some((k, _)) = it.next() {
        if k.starts_with(b"person") && k.ends_with(b"age") {
            count += 1;
        }
    }
    assert_eq!(count, 3);
}

#[test]
fn range_from_two_yields_two_to_five_in_order() {
    let mut kv = Bitcask::create(Options::new("./range-kv"));
    kv.insert(&id(1), b"a").unwrap();
    kv.insert(&id(2), b"b").unwrap();
    kv.insert(&id(3), b"c").unwrap();
    kv.insert(&id(4), b"d").unwrap();
    kv.insert(&id(5), b"e").unwrap();
    let mut it = kv.iter(&KeyBound::Included(id(2).to_vec()), &KeyBound::Unbounded);
    let mut got = Vec::new();
    while let Some((k, v)) = it.next() {
        let mut buf = [0u8; 8];
        buf.copy_from_slice(&k);
        got.push((u64::from_be_bytes(buf), v.data().to_vec()));
    }
    assert_eq!(
        got,
        vec![
            (2, b"b".to_vec()),
            (3, b"c".to_vec()),
            (4, b"d".to_vec()),
            (5, b"e".to_vec()),
        ]
    );
}

#[test]
fn merge_after_deleting_the_first_segment_shrinks_the_store() {
    let mut kv = Bitcask::create(small(300));
    let mut n = 0u64;
    while kv.counter() < 1 {
        kv.insert_at(n, &id(n), b"some value of a few bytes").unwrap();
        n += 1;
    }
    assert_eq!(n, 5);
    assert_eq!(kv.segment(0).len(), 21 + 4 * 62);
    let in_first: Vec<u64> = (0..n - 1).collect();
    let kept = n - 1;
    for i in 0..3u64 {
        kv.insert_at(n + i, &id(1000 + i), b"later").unwrap();
    }
    for (t, i) in in_first.iter().enumerate() {
        assert!(kv.delete_at(2000 + t as u64, &id(*i)));
    }
    let before: usize = files_of(&kv).iter().map(|s| s.len()).sum();
    kv.merge();
    let after: usize = files_of(&kv).iter().map(|s| s.len()).sum();
    assert!(after < before);
    assert_eq!(kv.counter(), 0);
    assert_eq!(kv.bytes_deleted(), 0);
    for i in &in_first {
        assert!(kv.get(&id(*i)).is_none());
    }
    assert_eq!(kv.get(&id(kept)).unwrap().data(), b"some value of a few bytes");
    for i in 0..3u64 {
        assert_eq!(kv.get(&id(1000 + i)).unwrap().data(), b"later");
    }
    let live = 62 + 3 * 42;
    assert_eq!(kv.segment(0).len(), 21 + live);
    assert_eq!(after, 21 + live);
}

#[test]
fn flipped_key_byte_leaves_the_key_absent_after_reopen() {
    let mut kv = Bitcask::create(Options::new("db"));
    kv.insert_at(1, b"only", b"value").unwrap();
    kv.flush();
    let mut segments = files_of(&kv);
    segments[0][21 + 29 + 1] ^= 0x01;
    let reopened = Bitcask::open(Options::new("db"), segments, None);
    assert!(reopened.keys().is_empty());
    assert!(reopened.get(b"only").is_none());
    assert!(reopened.get(b"ooly").is_none());
}
