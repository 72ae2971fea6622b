//! File magics, sizes and file names.

use vstd::prelude::*;

verus! {

/// The magic that opens every data segment: `KV-STORE - DATA FILE` and a
/// zero byte.
pub const DATA_FILE_HEADER: [u8; 21] = [
    0x4B, 0x56, 0x2D, 0x53, 0x54, 0x4F, 0x52, 0x45, 0x20, 0x2D, 0x20,
    0x44, 0x41, 0x54, 0x41, 0x20, 0x46, 0x49, 0x4C, 0x45, 0x00,
];

/// The magic that opens the index snapshot: `KV-STORE - INDEX FILE` and a
/// zero byte.
pub const INDEX_FILE_HEADER: [u8; 22] = [
    0x4B, 0x56, 0x2D, 0x53, 0x54, 0x4F, 0x52, 0x45, 0x20, 0x2D, 0x20,
    0x49, 0x4E, 0x44, 0x45, 0x58, 0x20, 0x46, 0x49, 0x4C, 0x45, 0x00,
];

/// The length of the data segment magic.
pub const DATA_HEADER_LEN: usize = 21;

/// The length of the snapshot magic.
pub const INDEX_HEADER_LEN: usize = 22;

/// `s` starts with the data segment magic.
pub open spec fn has_data_header(s: Seq<u8>) -> bool {
    s.len() >= DATA_HEADER_LEN && s.take(DATA_HEADER_LEN as int) == DATA_FILE_HEADER@
}

/// `s` starts with the snapshot magic.
pub open spec fn has_index_header(s: Seq<u8>) -> bool {
    s.len() >= INDEX_HEADER_LEN && s.take(INDEX_HEADER_LEN as int) == INDEX_FILE_HEADER@
}

/// Tells whether `bytes` starts with the data segment magic.
pub fn starts_with_data_header(bytes: &[u8]) -> (b: bool)
    ensures
        b == has_data_header(bytes@),
{
    if bytes.len() < DATA_HEADER_LEN {
        return false;
    }
    let mut i: usize = 0;
    while i < DATA_HEADER_LEN
        invariant
            i <= DATA_HEADER_LEN,
            bytes.len() >= DATA_HEADER_LEN,
            bytes@.take(i as int) == DATA_FILE_HEADER@.take(i as int),
        decreases DATA_HEADER_LEN - i,
    {
        if bytes[i] != DATA_FILE_HEADER[i] {
            assert(bytes@.take(DATA_HEADER_LEN as int)[i as int] != DATA_FILE_HEADER@[i as int]);
            return false;
        }
        assert(bytes@.take(i + 1) =~= bytes@.take(i as int).push(bytes@[i as int]));
        assert(DATA_FILE_HEADER@.take(i + 1) =~= DATA_FILE_HEADER@.take(i as int).push(
            DATA_FILE_HEADER@[i as int],
        ));
        i = i + 1;
    }
    assert(DATA_FILE_HEADER@.take(DATA_HEADER_LEN as int) =~= DATA_FILE_HEADER@);
    true
}

/// Tells whether `bytes` starts with the snapshot magic.
pub fn starts_with_index_header(bytes: &[u8]) -> (b: bool)
    ensures
        b == has_index_header(bytes@),
{
    if bytes.len() < INDEX_HEADER_LEN {
        return false;
    }
    let mut i: usize = 0;
    while i < INDEX_HEADER_LEN
        invariant
            i <= INDEX_HEADER_LEN,
            bytes.len() >= INDEX_HEADER_LEN,
            bytes@.take(i as int) == INDEX_FILE_HEADER@.take(i as int),
        decreases INDEX_HEADER_LEN - i,
    {
        if bytes[i] != INDEX_FILE_HEADER[i] {
            assert(bytes@.take(INDEX_HEADER_LEN as int)[i as int] != INDEX_FILE_HEADER@[i as int]);
            return false;
        }
        assert(bytes@.take(i + 1) =~= bytes@.take(i as int).push(bytes@[i as int]));
        assert(INDEX_FILE_HEADER@.take(i + 1) =~= INDEX_FILE_HEADER@.take(i as int).push(
            INDEX_FILE_HEADER@[i as int],
        ));
        i = i + 1;
    }
    assert(INDEX_FILE_HEADER@.take(INDEX_HEADER_LEN as int) =~= INDEX_FILE_HEADER@);
    true
}

/// A fresh buffer that holds the data segment magic.
pub fn data_header() -> (v: Vec<u8>)
    ensures
        v@ == DATA_FILE_HEADER@,
{
    let mut v: Vec<u8> = Vec::new();
    let mut i: usize = 0;
    while i < DATA_HEADER_LEN
        invariant
            i <= DATA_HEADER_LEN,
            v@ == DATA_FILE_HEADER@.take(i as int),
        decreases DATA_HEADER_LEN - i,
    {
        v.push(DATA_FILE_HEADER[i]);
        assert(v@ =~= DATA_FILE_HEADER@.take(i + 1));
        i = i + 1;
    }
    assert(DATA_FILE_HEADER@.take(DATA_HEADER_LEN as int) =~= DATA_FILE_HEADER@);
    v
}

/// A fresh buffer that holds the snapshot magic.
pub fn index_header() -> (v: Vec<u8>)
    ensures
        v@ == INDEX_FILE_HEADER@,
{
    let mut v: Vec<u8> = Vec::new();
    let mut i: usize = 0;
    while i < INDEX_HEADER_LEN
        invariant
            i <= INDEX_HEADER_LEN,
            v@ == INDEX_FILE_HEADER@.take(i as int),
        decreases INDEX_HEADER_LEN - i,
    {
        v.push(INDEX_FILE_HEADER[i]);
        assert(v@ =~= INDEX_FILE_HEADER@.take(i + 1));
        i = i + 1;
    }
    assert(INDEX_FILE_HEADER@.take(INDEX_HEADER_LEN as int) =~= INDEX_FILE_HEADER@);
    v
}

/// Sizes in bytes, by unit.
pub struct Size;

impl Size {
    #![allow(non_snake_case)]

    /// `n` bytes.
    pub fn B(n: u64) -> (bytes: u64)
        ensures
            bytes == n,
    {
        n
    }

    /// `n` kibibytes in bytes.
    pub fn KB(n: u64) -> (bytes: u64)
        requires
            n * 1024 <= u64::MAX,
        ensures
            bytes == n * 1024,
    {
        n * 1024
    }

    /// `n` mebibytes in bytes.
    pub fn MB(n: u64) -> (bytes: u64)
        requires
            n * 1024 * 1024 <= u64::MAX,
        ensures
            bytes == n * 1024 * 1024,
    {
        n * 1024 * 1024
    }

    /// `n` gibibytes in bytes.
    pub fn GB(n: u64) -> (bytes: u64)
        requires
            n * 1024 * 1024 * 1024 <= u64::MAX,
        ensures
            bytes == n * 1024 * 1024 * 1024,
    {
        n * 1024 * 1024 * 1024
    }
}

/// The bytes that a put record of `k` and `v` takes in a segment: the
/// checksum, the timestamp, the tag, the two lengths, the key and the value.
pub fn compute_size(k: &[u8], v: &[u8]) -> (size: u64)
    requires
        29 + k@.len() + v@.len() <= u64::MAX,
    ensures
        size == 29 + k@.len() + v@.len(),
{
    29 + k.len() as u64 + v.len() as u64
}

} // verus!
