//! The record checksum: CRC-32/CKSUM.

use vstd::prelude::*;

verus! {

/// The CRC-32/CKSUM checksum of `bytes` (polynomial `0x04c11db7`, initial
/// value zero, no reflection, final complement), as the `crc` crate
/// computes it. The value is a function of the bytes alone.
pub uninterp spec fn crc32_cksum(bytes: Seq<u8>) -> u32;

/// Computes the checksum of `bytes` with `crc::Crc::<u32>::checksum` over
/// the `CRC_32_CKSUM` algorithm of the `crc` crate.
///
/// Trusted: the result is taken to be `crc32_cksum` of the bytes; nothing
/// else is claimed of it.
#[verifier::external_body]
pub(crate) fn checksum(bytes: &[u8]) -> (sum: u32)
    ensures
        sum == crc32_cksum(bytes@),
{
    crc::Crc::<u32>::new(&crc::CRC_32_CKSUM).checksum(bytes)
}

} // verus!
