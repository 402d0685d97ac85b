//! Castagnoli CRC32C, the integrity check used by the row codec.

use vstd::prelude::*;

verus! {

/// The continued Castagnoli CRC over a byte sequence, starting from a
/// running value.  It is a pure function of the two; its computation lives
/// in the `crc32c` crate.
pub uninterp spec fn crc32c_append_of(crc: u32, s: Seq<u8>) -> u32;

/// Relies on `crc32c::crc32c_append`: continuing a CRC over `data` depends
/// on the starting value and the bytes alone.
#[verifier::external_body]
fn crc32c_append(crc: u32, data: &[u8]) -> (r: u32)
    ensures
        r == crc32c_append_of(crc, data@),
{
    crc32c::crc32c_append(crc, data)
}

/// The checksum the log stores: the Castagnoli CRC seeded with all ones
/// and finalized by inverting, the convention the on-disk format fixes.
pub open spec fn crc32c_of(s: Seq<u8>) -> u32 {
    crc32c_append_of(0xffffffff, s) ^ 0xffffffff
}

/// Compute the log's checksum of `buf`.
pub fn crc32c(buf: &[u8]) -> (r: u32)
    ensures
        r == crc32c_of(buf@),
{
    crc32c_append(0xffffffff, buf) ^ 0xffffffff
}

} // verus!
