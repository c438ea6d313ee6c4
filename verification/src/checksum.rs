//! The checksum that guards the header, the entries table and every file.

use vstd::prelude::*;

verus! {

/// The CRC-64 checksum with the ISO polynomial of a byte string: the value
/// that `crc::crc64::checksum_iso` returns for it.
pub uninterp spec fn crc64_iso(bytes: Seq<u8>) -> u64;

/// Calls `crc::crc64::checksum_iso`, which folds the bytes, in order,
/// through a fixed table and so returns the same number for the same bytes.
#[verifier::external_body]
pub(crate) fn checksum(bytes: &[u8]) -> (r: u64)
    ensures
        r == crc64_iso(bytes@),
{
    crc::crc64::checksum_iso(bytes)
}

} // verus!
