//! The binary layout of one log record.
//!
//! A put record is `crc | timestamp | 0x00 | key_len | value_len | key |
//! value`; a tombstone is `crc | timestamp | 0xFF | key_len | key`. All
//! integers are big-endian; the checksum covers everything that follows it.

use vstd::prelude::*;
use crate::checksum::{checksum, crc32_cksum};
use crate::endian::{
    be_u32, be_u64, from_be_u32, from_be_u64, lemma_be_u32_round_trip, lemma_be_u64_round_trip,
    put_u32, put_u64,
};
use crate::error::KeyValueStoreError;

verus! {

/// The tag of a put record.
pub const PUT_TAG: u8 = 0x00;

/// The tag of a tombstone.
pub const TOMBSTONE_TAG: u8 = 0xFF;

/// Bytes of a put record besides its key and value.
pub const PUT_OVERHEAD: usize = 29;

/// Bytes of a tombstone besides its key.
pub const TOMBSTONE_OVERHEAD: usize = 21;

/// What the checksum of a put record covers.
pub open spec fn put_payload(timestamp: u64, key: Seq<u8>, value: Seq<u8>) -> Seq<u8> {
    be_u64(timestamp) + seq![PUT_TAG] + be_u64(key.len() as u64) + be_u64(value.len() as u64)
        + key + value
}

/// What the checksum of a tombstone covers.
pub open spec fn tombstone_payload(timestamp: u64, key: Seq<u8>) -> Seq<u8> {
    be_u64(timestamp) + seq![TOMBSTONE_TAG] + be_u64(key.len() as u64) + key
}

/// A payload with its checksum in front.
pub open spec fn framed(payload: Seq<u8>) -> Seq<u8> {
    be_u32(crc32_cksum(payload)) + payload
}

/// The bytes of a put record.
pub open spec fn put_record(timestamp: u64, key: Seq<u8>, value: Seq<u8>) -> Seq<u8> {
    framed(put_payload(timestamp, key, value))
}

/// The bytes of a tombstone.
pub open spec fn tombstone_record(timestamp: u64, key: Seq<u8>) -> Seq<u8> {
    framed(tombstone_payload(timestamp, key))
}

/// The length of a put record.
pub open spec fn put_record_len(key: Seq<u8>, value: Seq<u8>) -> nat {
    PUT_OVERHEAD as nat + key.len() + value.len()
}

/// The length of a tombstone.
pub open spec fn tombstone_record_len(key: Seq<u8>) -> nat {
    TOMBSTONE_OVERHEAD as nat + key.len()
}

/// A record as the scanner sees it at the front of a byte string.
pub struct Parsed {
    pub timestamp: u64,
    pub tombstone: bool,
    pub key: Seq<u8>,
    pub value: Seq<u8>,
    /// The bytes the record occupies.
    pub len: nat,
}

/// The record that stands at the front of `s`, if a whole one with a
/// matching checksum and a known tag stands there.
pub open spec fn parse_record(s: Seq<u8>) -> Option<Parsed> {
    if s.len() < TOMBSTONE_OVERHEAD {
        None
    } else {
        let crc = from_be_u32(s.subrange(0, 4));
        let timestamp = from_be_u64(s.subrange(4, 12));
        let tag = s[12];
        let key_len = from_be_u64(s.subrange(13, 21)) as int;
        if tag == PUT_TAG {
            if s.len() < PUT_OVERHEAD {
                None
            } else {
                let value_len = from_be_u64(s.subrange(21, 29)) as int;
                let len = PUT_OVERHEAD as int + key_len + value_len;
                if s.len() < len || crc32_cksum(s.subrange(4, len)) != crc {
                    None
                } else {
                    Some(
                        Parsed {
                            timestamp,
                            tombstone: false,
                            key: s.subrange(29, 29 + key_len),
                            value: s.subrange(29 + key_len, len),
                            len: len as nat,
                        },
                    )
                }
            }
        } else if tag == TOMBSTONE_TAG {
            let len = TOMBSTONE_OVERHEAD as int + key_len;
            if s.len() < len || crc32_cksum(s.subrange(4, len)) != crc {
                None
            } else {
                Some(
                    Parsed {
                        timestamp,
                        tombstone: true,
                        key: s.subrange(21, 21 + key_len),
                        value: Seq::empty(),
                        len: len as nat,
                    },
                )
            }
        } else {
            None
        }
    }
}

/// What a point read of the byte range `rec` gives: the timestamp and the
/// value of the put record that fills the range, or the reason why there is
/// none. A range that is too short for what its fields announce, or that
/// carries an unknown tag, counts as a checksum failure.
pub open spec fn read_value(rec: Seq<u8>) -> Result<(u64, Seq<u8>), KeyValueStoreError> {
    if rec.len() < 4 {
        Err(KeyValueStoreError::ChecksumFailed)
    } else if crc32_cksum(rec.skip(4)) != from_be_u32(rec.subrange(0, 4)) {
        Err(KeyValueStoreError::ChecksumFailed)
    } else if rec.len() < TOMBSTONE_OVERHEAD {
        Err(KeyValueStoreError::ChecksumFailed)
    } else if rec[12] == TOMBSTONE_TAG {
        Err(KeyValueStoreError::ItemDeleted)
    } else if rec[12] != PUT_TAG || rec.len() < PUT_OVERHEAD {
        Err(KeyValueStoreError::ChecksumFailed)
    } else {
        let key_len = from_be_u64(rec.subrange(13, 21)) as int;
        let value_len = from_be_u64(rec.subrange(21, 29)) as int;
        if PUT_OVERHEAD as int + key_len + value_len > rec.len() {
            Err(KeyValueStoreError::ChecksumFailed)
        } else {
            Ok(
                (
                    from_be_u64(rec.subrange(4, 12)),
                    rec.subrange(29 + key_len, 29 + key_len + value_len),
                ),
            )
        }
    }
}

/// What a point read of `size` bytes at `offset` of a segment gives. A
/// range that leaves the segment counts as a checksum failure.
pub open spec fn read_at(segment: Seq<u8>, offset: u64, size: u64) -> Result<
    (u64, Seq<u8>),
    KeyValueStoreError,
> {
    if offset + size > segment.len() {
        Err(KeyValueStoreError::ChecksumFailed)
    } else {
        read_value(segment.subrange(offset as int, offset + size))
    }
}

/// The fields of a put record stand where the layout says.
pub proof fn lemma_put_record_layout(timestamp: u64, key: Seq<u8>, value: Seq<u8>)
    requires
        key.len() <= u64::MAX,
        value.len() <= u64::MAX,
    ensures
        ({
            let r = put_record(timestamp, key, value);
            &&& r.len() == put_record_len(key, value)
            &&& r.subrange(0, 4) == be_u32(crc32_cksum(put_payload(timestamp, key, value)))
            &&& r.skip(4) == put_payload(timestamp, key, value)
            &&& r.subrange(4, r.len() as int) == put_payload(timestamp, key, value)
            &&& r.subrange(4, 12) == be_u64(timestamp)
            &&& r[12] == PUT_TAG
            &&& r.subrange(13, 21) == be_u64(key.len() as u64)
            &&& r.subrange(21, 29) == be_u64(value.len() as u64)
            &&& r.subrange(29, 29 + key.len() as int) == key
            &&& r.subrange(29 + key.len() as int, 29 + key.len() as int + value.len() as int)
                == value
        }),
{
    let r = put_record(timestamp, key, value);
    let p = put_payload(timestamp, key, value);
    lemma_be_u32_round_trip(crc32_cksum(p));
    lemma_be_u64_round_trip(timestamp);
    lemma_be_u64_round_trip(key.len() as u64);
    lemma_be_u64_round_trip(value.len() as u64);
    assert(r.subrange(0, 4) =~= be_u32(crc32_cksum(p)));
    assert(r.skip(4) =~= p);
    assert(r.subrange(4, r.len() as int) =~= p);
    assert(r.subrange(4, 12) =~= be_u64(timestamp));
    assert(r.subrange(13, 21) =~= be_u64(key.len() as u64));
    assert(r.subrange(21, 29) =~= be_u64(value.len() as u64));
    assert(r.subrange(29, 29 + key.len() as int) =~= key);
    assert(r.subrange(29 + key.len() as int, 29 + key.len() as int + value.len() as int) =~= value);
}

/// The fields of a tombstone stand where the layout says.
pub proof fn lemma_tombstone_record_layout(timestamp: u64, key: Seq<u8>)
    requires
        key.len() <= u64::MAX,
    ensures
        ({
            let r = tombstone_record(timestamp, key);
            &&& r.len() == tombstone_record_len(key)
            &&& r.subrange(0, 4) == be_u32(crc32_cksum(tombstone_payload(timestamp, key)))
            &&& r.skip(4) == tombstone_payload(timestamp, key)
            &&& r.subrange(4, r.len() as int) == tombstone_payload(timestamp, key)
            &&& r.subrange(4, 12) == be_u64(timestamp)
            &&& r[12] == TOMBSTONE_TAG
            &&& r.subrange(13, 21) == be_u64(key.len() as u64)
            &&& r.subrange(21, 21 + key.len() as int) == key
        }),
{
    let r = tombstone_record(timestamp, key);
    let p = tombstone_payload(timestamp, key);
    lemma_be_u32_round_trip(crc32_cksum(p));
    lemma_be_u64_round_trip(timestamp);
    lemma_be_u64_round_trip(key.len() as u64);
    assert(r.subrange(0, 4) =~= be_u32(crc32_cksum(p)));
    assert(r.skip(4) =~= p);
    assert(r.subrange(4, r.len() as int) =~= p);
    assert(r.subrange(4, 12) =~= be_u64(timestamp));
    assert(r.subrange(13, 21) =~= be_u64(key.len() as u64));
    assert(r.subrange(21, 21 + key.len() as int) =~= key);
}

/// A point read of a put record gives back its timestamp and value.
pub proof fn lemma_read_put_record(timestamp: u64, key: Seq<u8>, value: Seq<u8>)
    requires
        key.len() <= u64::MAX,
        value.len() <= u64::MAX,
    ensures
        read_value(put_record(timestamp, key, value)) == Ok::<
            (u64, Seq<u8>),
            KeyValueStoreError,
        >((timestamp, value)),
{
    let p = put_payload(timestamp, key, value);
    lemma_put_record_layout(timestamp, key, value);
    lemma_be_u32_round_trip(crc32_cksum(p));
    lemma_be_u64_round_trip(timestamp);
    lemma_be_u64_round_trip(key.len() as u64);
    lemma_be_u64_round_trip(value.len() as u64);
}

/// A point read of a tombstone reports the deletion.
pub proof fn lemma_read_tombstone_record(timestamp: u64, key: Seq<u8>)
    requires
        key.len() <= u64::MAX,
    ensures
        read_value(tombstone_record(timestamp, key)) == Err::<
            (u64, Seq<u8>),
            KeyValueStoreError,
        >(KeyValueStoreError::ItemDeleted),
{
    let p = tombstone_payload(timestamp, key);
    lemma_tombstone_record_layout(timestamp, key);
    lemma_be_u32_round_trip(crc32_cksum(p));
}

/// The scanner reads a put record, followed by anything, as that record.
pub proof fn lemma_parse_put_record(timestamp: u64, key: Seq<u8>, value: Seq<u8>, rest: Seq<u8>)
    requires
        key.len() <= u64::MAX,
        value.len() <= u64::MAX,
    ensures
        parse_record(put_record(timestamp, key, value) + rest) == Some(
            Parsed {
                timestamp,
                tombstone: false,
                key,
                value,
                len: put_record_len(key, value),
            },
        ),
{
    let r = put_record(timestamp, key, value);
    let s = r + rest;
    let p = put_payload(timestamp, key, value);
    lemma_put_record_layout(timestamp, key, value);
    lemma_be_u32_round_trip(crc32_cksum(p));
    lemma_be_u64_round_trip(timestamp);
    lemma_be_u64_round_trip(key.len() as u64);
    lemma_be_u64_round_trip(value.len() as u64);
    assert(s.subrange(0, 4) =~= r.subrange(0, 4));
    assert(s.subrange(4, 12) =~= r.subrange(4, 12));
    assert(s.subrange(13, 21) =~= r.subrange(13, 21));
    assert(s.subrange(21, 29) =~= r.subrange(21, 29));
    assert(s.subrange(4, r.len() as int) =~= r.subrange(4, r.len() as int));
    assert(s.subrange(29, 29 + key.len() as int) =~= r.subrange(29, 29 + key.len() as int));
    assert(s.subrange(29 + key.len() as int, r.len() as int) =~= r.subrange(
        29 + key.len() as int,
        29 + key.len() as int + value.len() as int,
    ));
    assert(s[12] == r[12]);
}

/// The scanner reads a tombstone, followed by anything, as that tombstone.
pub proof fn lemma_parse_tombstone_record(timestamp: u64, key: Seq<u8>, rest: Seq<u8>)
    requires
        key.len() <= u64::MAX,
    ensures
        parse_record(tombstone_record(timestamp, key) + rest) == Some(
            Parsed {
                timestamp,
                tombstone: true,
                key,
                value: Seq::empty(),
                len: tombstone_record_len(key),
            },
        ),
{
    let r = tombstone_record(timestamp, key);
    let s = r + rest;
    let p = tombstone_payload(timestamp, key);
    lemma_tombstone_record_layout(timestamp, key);
    lemma_be_u32_round_trip(crc32_cksum(p));
    lemma_be_u64_round_trip(timestamp);
    lemma_be_u64_round_trip(key.len() as u64);
    assert(s.subrange(0, 4) =~= r.subrange(0, 4));
    assert(s.subrange(4, 12) =~= r.subrange(4, 12));
    assert(s.subrange(13, 21) =~= r.subrange(13, 21));
    assert(s.subrange(4, r.len() as int) =~= r.subrange(4, r.len() as int));
    assert(s.subrange(21, 21 + key.len() as int) =~= r.subrange(21, 21 + key.len() as int));
    assert(s[12] == r[12]);
}

/// Encodes a put record.
pub fn encode_put(timestamp: u64, key: &[u8], value: &[u8]) -> (rec: Vec<u8>)
    ensures
        rec@ == put_record(timestamp, key@, value@),
        rec@.len() == put_record_len(key@, value@),
{
    let mut payload: Vec<u8> = Vec::new();
    put_u64(&mut payload, timestamp);
    payload.push(PUT_TAG);
    put_u64(&mut payload, key.len() as u64);
    put_u64(&mut payload, value.len() as u64);
    payload.extend_from_slice(key);
    payload.extend_from_slice(value);
    assert(payload@ =~= put_payload(timestamp, key@, value@));
    let crc = checksum(payload.as_slice());
    let mut rec: Vec<u8> = Vec::new();
    put_u32(&mut rec, crc);
    rec.extend_from_slice(payload.as_slice());
    proof {
        assert(rec@ =~= put_record(timestamp, key@, value@));
        lemma_put_record_layout(timestamp, key@, value@);
    }
    rec
}

/// Encodes a tombstone.
pub fn encode_tombstone(timestamp: u64, key: &[u8]) -> (rec: Vec<u8>)
    ensures
        rec@ == tombstone_record(timestamp, key@),
        rec@.len() == tombstone_record_len(key@),
{
    let mut payload: Vec<u8> = Vec::new();
    put_u64(&mut payload, timestamp);
    payload.push(TOMBSTONE_TAG);
    put_u64(&mut payload, key.len() as u64);
    payload.extend_from_slice(key);
    assert(payload@ =~= tombstone_payload(timestamp, key@));
    let crc = checksum(payload.as_slice());
    let mut rec: Vec<u8> = Vec::new();
    put_u32(&mut rec, crc);
    rec.extend_from_slice(payload.as_slice());
    proof {
        assert(rec@ =~= tombstone_record(timestamp, key@));
        lemma_tombstone_record_layout(timestamp, key@);
    }
    rec
}

} // verus!
