//! The checksum of a payload, computed by `crc32fast`.

use vstd::prelude::*;

verus! {

/// The CRC-32 (IEEE) checksum of a byte string.
pub uninterp spec fn crc32(bytes: Seq<u8>) -> u32;

/// Calls `crc32fast::hash`. Nothing is proved of it: the contract only gives
/// its result the name [`crc32`], that is, it claims that the checksum is a
/// fixed function of the bytes handed in.
#[verifier::external_body]
pub(crate) fn checksum(bytes: &[u8]) -> (crc: u32)
    ensures
        crc == crc32(bytes@),
{
    crc32fast::hash(bytes)
}

/// Tells whether `crc` is the checksum of `payload`.
pub fn verify(crc: u32, payload: &[u8]) -> (ok: bool)
    ensures
        ok == (crc == crc32(payload@)),
{
    let actual: u32 = checksum(payload);
    actual == crc
}

} // verus!
