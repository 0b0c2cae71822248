//! The 64-bit checksum over file contents (CRC-64, ECMA-182 polynomial).

use vstd::prelude::*;

verus! {

/// The CRC-64/ECMA-182 checksum of a byte sequence.  The value is a pure
/// function of the bytes; it is computed by the `crc` crate and never
/// reimplemented here.
pub uninterp spec fn crc64_of(data: Seq<u8>) -> u64;

/// Relies on `crc::Crc::<u64>::checksum` with the `CRC_64_ECMA_182`
/// algorithm: the checksum depends on the input bytes alone.
#[verifier::external_body]
pub fn crc64(data: &[u8]) -> (r: u64)
    ensures
        r == crc64_of(data@),
{
    crc::Crc::<u64>::new(&crc::CRC_64_ECMA_182).checksum(data)
}

} // verus!
