//! The 32-bit integrity code of a record.
use vstd::prelude::*;

verus! {

/// The CRC-32 (IEEE) of a byte sequence, as crc32fast computes it.
pub uninterp spec fn crc32_of(data: Seq<u8>) -> u32;

/// Relies on `crc32fast::hash`: the CRC-32 of `data`, a function of the bytes alone.
#[verifier::external_body]
fn crc32(data: &[u8]) -> (r: u32)
    ensures
        r == crc32_of(data@),
{
    crc32fast::hash(data)
}

/// The checksum of `bytes`: deterministic and order-sensitive.
pub fn checksum(bytes: &[u8]) -> (r: u32)
    ensures
        r == crc32_of(bytes@),
{
    crc32(bytes)
}

} // verus!
