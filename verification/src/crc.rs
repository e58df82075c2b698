//! The checksum that frames every record.

use vstd::prelude::*;

verus! {

/// The CRC-32 checksum of `data`, as `crc32fast::hash` computes it.
pub uninterp spec fn crc32(data: Seq<u8>) -> u32;

/// Calls `crc32fast::hash`. Trusted: the result is the checksum of exactly the
/// bytes of `data`, and depends on nothing else.
#[verifier::external_body]
pub(crate) fn checksum(data: &[u8]) -> (sum: u32)
    ensures
        sum == crc32(data@),
{
    crc32fast::hash(data)
}

} // verus!
