use key_value_store::disk::DiskTable;
use key_value_store::endian::{get_u32, get_u64, put_u32, put_u64};
use key_value_store::error::KeyValueStoreError;
use key_value_store::io::{Cursor, ReadExt, WriteExt};
use key_value_store::reader::{read_record, record_at, Entry, EntryReader, FileMap, IndexReader};
use key_value_store::record::{encode_put, encode_tombstone};
use key_value_store::util::{
    compute_size, data_header, index_header, starts_with_data_header, starts_with_index_header,
    Size, DATA_FILE_HEADER, INDEX_FILE_HEADER,
};
use key_value_store::Value;

const PUT_7_KEY_VALUE: [u8; 37] = [
    0xac, 0x30, 0x9b, 0xe7, 0x00, 0x00, 0x00, 0x00, 0x00, 0x00, 0x00, 0x07, 0x00, 0x00, 0x00,
    0x00, 0x00, 0x00, 0x00, 0x00, 0x03, 0x00, 0x00, 0x00, 0x00, 0x00, 0x00, 0x00, 0x05, 0x6b,
    0x65, 0x79, 0x76, 0x61, 0x6c, 0x75, 0x65,
];

const TOMBSTONE_9_KEY: [u8; 24] = [
    0xff, 0xf0, 0x14, 0xb3, 0x00, 0x00, 0x00, 0x00, 0x00, 0x00, 0x00, 0x09, 0xff, 0x00, 0x00,
    0x00, 0x00, 0x00, 0x00, 0x00, 0x03, 0x6b, 0x65, 0x79,
];

fn segment_of(records: &[Vec<u8>]) -> Vec<u8> {
    let mut seg = data_header();
    for r in records {
        seg.extend_from_slice(r);
    }
    seg
}

#[test]
fn big_endian_u32_is_written_most_significant_first() {
    let mut out = vec![0xAA];
    put_u32(&mut out, 0x0102_0304);
    assert_eq!(out, vec![0xAA, 1, 2, 3, 4]);
    assert_eq!(get_u32(&out, 1), 0x0102_0304);
}

#[test]
fn big_endian_u64_is_written_most_significant_first() {
    let mut out = Vec::new();
    put_u64(&mut out, 0x0102_0304_0506_0708);
    assert_eq!(out, vec![1, 2, 3, 4, 5, 6, 7, 8]);
    assert_eq!(get_u64(&out, 0), 0x0102_0304_0506_0708);
    let mut max = Vec::new();
    put_u64(&mut max, u64::MAX);
    assert_eq!(max, vec![0xFF; 8]);
    assert_eq!(get_u64(&max, 0), u64::MAX);
}

#[test]
fn data_header_is_the_magic() {
    assert_eq!(&DATA_FILE_HEADER[..], b"KV-STORE - DATA FILE\0");
    assert_eq!(data_header(), b"KV-STORE - DATA FILE\0".to_vec());
    assert_eq!(data_header().len(), 21);
    assert!(starts_with_data_header(b"KV-STORE - DATA FILE\0rest"));
    assert!(!starts_with_data_header(b"KV-STORE - DATA FILE"));
    assert!(!starts_with_data_header(b"KV-STORE - DATA FILF\0"));
}

#[test]
fn index_header_is_the_magic() {
    assert_eq!(&INDEX_FILE_HEADER[..], b"KV-STORE - INDEX FILE\0");
    assert_eq!(index_header(), b"KV-STORE - INDEX FILE\0".to_vec());
    assert_eq!(index_header().len(), 22);
    assert!(starts_with_index_header(b"KV-STORE - INDEX FILE\0"));
    assert!(!starts_with_index_header(b"KV-STORE - DATA FILE\0\0"));
}

#[test]
fn put_record_has_the_documented_layout_and_checksum() {
    let rec = encode_put(7, b"key", b"value");
    assert_eq!(rec, PUT_7_KEY_VALUE.to_vec());
    assert_eq!(rec.len() as u64, compute_size(b"key", b"value"));
}

#[test]
fn empty_put_record_is_twenty_nine_bytes() {
    let rec = encode_put(0x0102_0304_0506_0708, b"", b"");
    assert_eq!(
        rec,
        vec![
            0x1e, 0xdb, 0x91, 0xe5, 1, 2, 3, 4, 5, 6, 7, 8, 0, 0, 0, 0, 0, 0, 0, 0, 0, 0, 0, 0, 0,
            0, 0, 0, 0
        ]
    );
}

#[test]
fn tombstone_record_has_the_documented_layout_and_checksum() {
    let rec = encode_tombstone(9, b"key");
    assert_eq!(rec, TOMBSTONE_9_KEY.to_vec());
}

#[test]
fn compute_size_counts_header_key_and_value() {
    assert_eq!(compute_size(b"", b""), 29);
    assert_eq!(compute_size(b"abc", b"defgh"), 37);
}

#[test]
fn size_units_are_powers_of_1024() {
    assert_eq!(Size::B(5), 5);
    assert_eq!(Size::KB(3), 3 * 1024);
    assert_eq!(Size::MB(2), 2 * 1024 * 1024);
    assert_eq!(Size::GB(2), 2_147_483_648);
}

#[test]
fn point_read_gives_timestamp_and_value() {
    let seg = segment_of(&[encode_put(1, b"a", b"first"), encode_put(7, b"key", b"value")]);
    let offset = 21 + 35;
    let got = read_record(&seg, offset, 37).unwrap();
    assert_eq!(got, Value::from(7, b"value".to_vec()));
    assert_eq!(got.timestamp(), 7);
    assert_eq!(got.data(), b"value");
    let map = FileMap::new(&seg);
    assert_eq!(map.get(21, 35).unwrap(), Value::from(1, b"first".to_vec()));
}

#[test]
fn point_read_of_a_tombstone_reports_item_deleted() {
    let seg = segment_of(&[encode_tombstone(9, b"key")]);
    let r = FileMap::new(&seg).get(21, 24);
    assert!(matches!(r, Err(KeyValueStoreError::ItemDeleted)));
}

#[test]
fn point_read_with_wrong_checksum_fails() {
    let mut seg = segment_of(&[encode_put(7, b"key", b"value")]);
    seg[21] ^= 1;
    let r = FileMap::new(&seg).get(21, 37);
    assert!(matches!(r, Err(KeyValueStoreError::ChecksumFailed)));
}

#[test]
fn point_read_outside_the_segment_fails() {
    let seg = segment_of(&[encode_put(7, b"key", b"value")]);
    assert!(matches!(read_record(&seg, 21, 38), Err(KeyValueStoreError::ChecksumFailed)));
    assert!(matches!(read_record(&seg, 60, 1), Err(KeyValueStoreError::ChecksumFailed)));
    assert!(matches!(read_record(&seg, u64::MAX, 2), Err(KeyValueStoreError::ChecksumFailed)));
    assert!(matches!(read_record(&seg, 21, 3), Err(KeyValueStoreError::ChecksumFailed)));
}

#[test]
fn point_read_detects_every_single_byte_flip_behind_the_checksum() {
    let clean = segment_of(&[encode_put(7, b"key", b"value")]);
    assert!(read_record(&clean, 21, 37).is_ok());
    for i in 25..clean.len() {
        for bit in 0..8 {
            let mut seg = clean.clone();
            seg[i] ^= 1 << bit;
            assert!(read_record(&seg, 21, 37).is_err(), "byte {} bit {}", i, bit);
        }
    }
}

#[test]
fn scanner_emits_every_record_with_its_offset() {
    let seg = segment_of(&[
        encode_put(1, b"a", b"first"),
        encode_tombstone(2, b"a"),
        encode_put(3, b"bc", b""),
    ]);
    let mut reader = EntryReader::new(&seg);
    let e = reader.next().unwrap();
    assert_eq!((e.key(), e.timestamp(), e.file(), e.offset(), e.size()), (&b"a"[..], 1, 0, 21, 35));
    assert!(!e.is_tombstone());
    let e = reader.next().unwrap();
    assert_eq!((e.key(), e.timestamp(), e.offset(), e.size()), (&b"a"[..], 2, 56, 0));
    assert!(e.is_tombstone());
    let e = reader.next().unwrap();
    assert_eq!((e.key(), e.timestamp(), e.offset(), e.size()), (&b"bc"[..], 3, 78, 31));
    assert!(reader.next().is_none());
    assert!(reader.next().is_none());
}

#[test]
fn scanner_stops_at_the_first_bad_record() {
    let mut seg = segment_of(&[
        encode_put(1, b"a", b"first"),
        encode_put(2, b"b", b"second"),
        encode_put(3, b"c", b"third"),
    ]);
    seg[21 + 35 + 30] ^= 0x40;
    let mut reader = EntryReader::new(&seg);
    assert_eq!(reader.next().unwrap().key(), b"a");
    assert!(reader.next().is_none());
}

#[test]
fn scanner_stops_at_a_short_record() {
    let mut seg = segment_of(&[encode_put(1, b"a", b"first"), encode_put(2, b"b", b"second")]);
    seg.truncate(seg.len() - 1);
    let mut reader = EntryReader::new(&seg);
    assert_eq!(reader.next().unwrap().key(), b"a");
    assert!(reader.next().is_none());
}

#[test]
fn scanner_stops_at_an_unknown_tag() {
    let mut rec = encode_put(1, b"a", b"first");
    rec[12] = 0x01;
    let seg = segment_of(&[rec]);
    assert!(EntryReader::new(&seg).next().is_none());
}

#[test]
fn scanner_yields_nothing_without_the_magic() {
    let mut seg = segment_of(&[encode_put(1, b"a", b"first")]);
    seg[0] = b'X';
    assert!(EntryReader::new(&seg).next().is_none());
    assert!(EntryReader::new(b"").next().is_none());
}

#[test]
fn record_at_reads_a_record_in_place() {
    let seg = segment_of(&[encode_put(7, b"key", b"value")]);
    let (ts, tombstone, key, len) = record_at(&seg, 21).unwrap();
    assert_eq!((ts, tombstone, key, len), (7, false, b"key".to_vec(), 37));
    assert!(record_at(&seg, 22).is_none());
    assert!(record_at(&seg, seg.len()).is_none());
}

#[test]
fn reader_entry_getters_return_the_fields() {
    let e = Entry::new(b"k".to_vec(), 11, 22, 33, 44);
    assert_eq!(e.key(), b"k");
    assert_eq!(e.timestamp(), 11);
    assert_eq!(e.file(), 22);
    assert_eq!(e.offset(), 33);
    assert_eq!(e.size(), 44);
    assert!(!e.is_tombstone());
}

#[test]
fn value_getters_return_the_fields() {
    let v = Value::from(5, vec![1, 2, 3]);
    assert_eq!(v.timestamp(), 5);
    assert_eq!(v.data(), &[1, 2, 3]);
    assert_eq!(v, Value::from(5, vec![1, 2, 3]));
    assert_ne!(v, Value::from(6, vec![1, 2, 3]));
}

#[test]
fn index_reader_reads_entries_until_the_end() {
    let mut bytes = index_header();
    put_u64(&mut bytes, 2);
    bytes.extend_from_slice(b"ab");
    put_u64(&mut bytes, 10);
    put_u64(&mut bytes, 20);
    put_u64(&mut bytes, 30);
    put_u64(&mut bytes, 40);
    let mut reader = IndexReader::new(&bytes);
    assert!(!reader.at_end());
    let e = reader.next().unwrap();
    assert_eq!((e.key(), e.timestamp(), e.file(), e.offset(), e.size()), (&b"ab"[..], 10, 20, 30, 40));
    assert!(reader.at_end());
    assert!(reader.next().is_none());
}

#[test]
fn index_reader_refuses_a_truncated_entry() {
    let mut bytes = index_header();
    put_u64(&mut bytes, 2);
    bytes.extend_from_slice(b"ab");
    put_u64(&mut bytes, 10);
    let mut reader = IndexReader::new(&bytes);
    assert!(reader.next().is_none());
    assert!(!reader.at_end());
}

#[test]
fn index_reader_refuses_a_wrong_magic() {
    let mut reader = IndexReader::new(b"KV-STORE - DATA FILE\0\0");
    assert!(reader.next().is_none());
    assert!(!reader.at_end());
}

#[test]
fn disk_table_appends_and_reports_offsets() {
    let mut disk = DiskTable::open(data_header());
    assert_eq!(disk.position(), 21);
    assert_eq!(disk.flushed_len(), 21);
    let (offset, size) = disk.append_entry(7, b"key", b"value");
    assert_eq!((offset, size), (21, 37));
    assert_eq!(disk.len(), 58);
    assert_eq!(disk.flushed_len(), 21);
    disk.delete(9, b"key");
    assert_eq!(disk.position(), 82);
    disk.flush();
    assert_eq!(disk.flushed_len(), 82);
    let mut expected = data_header();
    expected.extend_from_slice(&PUT_7_KEY_VALUE);
    expected.extend_from_slice(&TOMBSTONE_9_KEY);
    assert_eq!(disk.bytes(), &expected[..]);
    assert_eq!(disk.into_bytes(), expected);
}

#[test]
fn disk_table_replace_hands_back_the_old_segment() {
    let mut disk = DiskTable::open(vec![1, 2, 3]);
    let old = disk.replace(vec![9]);
    assert_eq!(old, vec![1, 2, 3]);
    assert_eq!(disk.bytes(), &[9]);
    assert_eq!(disk.flushed_len(), 1);
}

#[test]
fn write_ext_writes_integers_big_endian() {
    let mut disk = DiskTable::open(Vec::new());
    assert_eq!(disk.write_u8(0xAB), 0);
    assert_eq!(disk.write_u16(0x0102), 1);
    assert_eq!(disk.write_u32(0x0304_0506), 3);
    assert_eq!(disk.write_u64(0x0708_090A_0B0C_0D0E), 7);
    assert_eq!(disk.write(b"xy"), 15);
    assert_eq!(disk.position(), 17);
    assert_eq!(
        disk.bytes(),
        &[0xAB, 1, 2, 3, 4, 5, 6, 7, 8, 9, 10, 11, 12, 13, 14, b'x', b'y']
    );
}

#[test]
fn error_messages_name_the_error() {
    assert_eq!(KeyValueStoreError::NoInsert.message(), "no insert");
    assert_eq!(KeyValueStoreError::PayloadTooLarge.message(), "payload too large");
    assert_eq!(KeyValueStoreError::ChecksumFailed.message(), "checksum failed");
    assert_eq!(KeyValueStoreError::ItemDeleted.message(), "item deleted");
}

#[test]
fn read_ext_reads_integers_big_endian() {
    let bytes = [0xAB, 1, 2, 3, 4, 5, 6, 7, 8, 9, 10, 11, 12, 13, 14, b'x', b'y'];
    let mut cursor = Cursor::new(&bytes, 0);
    assert_eq!(cursor.left(), 17);
    assert_eq!(cursor.read_u8(), Some(0xAB));
    assert_eq!(cursor.read_u16(), Some(0x0102));
    assert_eq!(cursor.read_u32(), Some(0x0304_0506));
    assert_eq!(cursor.read_u64(), Some(0x0708_090A_0B0C_0D0E));
    assert_eq!(cursor.position(), 15);
    assert_eq!(cursor.read(2), Some(b"xy".to_vec()));
    assert_eq!(cursor.left(), 0);
    assert_eq!(cursor.read(0), Some(Vec::new()));
    assert_eq!(cursor.read_u8(), None);
}

#[test]
fn read_ext_reads_nothing_where_too_few_bytes_are_left() {
    let bytes = [1, 2, 3];
    let mut cursor = Cursor::new(&bytes, 1);
    assert_eq!(cursor.read_u32(), None);
    assert_eq!(cursor.read_u64(), None);
    assert_eq!(cursor.read(3), None);
    assert_eq!(cursor.position(), 1);
    assert_eq!(cursor.read_u16(), Some(0x0203));
    assert_eq!(cursor.read_u16(), None);
    assert_eq!(Cursor::new(&bytes, 9).position(), 3);
}

fn framed(payload: &[u8]) -> Vec<u8> {
    let sum = crc::Crc::<u32>::new(&crc::CRC_32_CKSUM).checksum(payload);
    let mut rec = sum.to_be_bytes().to_vec();
    rec.extend_from_slice(payload);
    rec
}

#[test]
fn checksum_is_crc_32_cksum_of_everything_behind_it() {
    let rec = encode_put(7, b"key", b"value");
    assert_eq!(rec, framed(&rec[4..]));
    let rec = encode_tombstone(9, b"key");
    assert_eq!(rec, framed(&rec[4..]));
    let check = crc::Crc::<u32>::new(&crc::CRC_32_CKSUM).checksum(b"123456789");
    assert_eq!(check, 0x765e7680);
}

#[test]
fn point_read_of_an_unknown_tag_fails_like_a_checksum() {
    let mut payload = encode_put(7, b"key", b"value")[4..].to_vec();
    payload[8] = 0x01;
    let seg = segment_of(&[framed(&payload)]);
    let r = read_record(&seg, 21, 37);
    assert!(matches!(r, Err(KeyValueStoreError::ChecksumFailed)));
    assert!(EntryReader::new(&seg).next().is_none());
}

#[test]
fn point_read_of_lengths_that_pass_the_range_fails_like_a_checksum() {
    let mut payload = encode_put(7, b"key", b"value")[4..].to_vec();
    payload[24] = 6;
    let seg = segment_of(&[framed(&payload)]);
    let r = read_record(&seg, 21, 37);
    assert!(matches!(r, Err(KeyValueStoreError::ChecksumFailed)));
    let mut short = encode_put(7, b"key", b"value")[4..].to_vec();
    short.truncate(20);
    let seg = segment_of(&[framed(&short)]);
    assert!(matches!(read_record(&seg, 21, 24), Err(KeyValueStoreError::ChecksumFailed)));
}

#[test]
fn point_read_takes_the_value_the_lengths_announce() {
    let mut payload = encode_put(7, b"key", b"value")[4..].to_vec();
    payload[24] = 4;
    let seg = segment_of(&[framed(&payload)]);
    let got = read_record(&seg, 21, 37).unwrap();
    assert_eq!(got, Value::from(7, b"valu".to_vec()));
}

#[test]
fn disk_table_append_adds_raw_bytes_at_the_end() {
    let mut disk = DiskTable::open(vec![1, 2]);
    assert_eq!(disk.append(&[3, 4, 5]), 2);
    assert_eq!(disk.append(&[]), 5);
    assert_eq!(disk.bytes(), &[1, 2, 3, 4, 5]);
    assert_eq!(disk.len(), 5);
    assert_eq!(disk.flushed_len(), 2);
}
