//! The content hasher: a CRC-32C (Castagnoli) checksum over a file's bytes.
//!
//! The arithmetic is the `crc` crate's. The checksum is a function of the
//! bytes alone, so it has a name in specifications, [`crc32c`], and everything
//! else in this crate speaks of checksums through that name. Nothing here
//! claims that different contents have different checksums: with 32 bits they
//! cannot all have.

use vstd::prelude::*;

verus! {

/// The CRC-32C checksum of `bytes`: what `crc::Crc::<u32>::checksum` returns
/// for the algorithm `crc::CRC_32_ISCSI`.
pub uninterp spec fn crc32c(bytes: Seq<u8>) -> u32;

/// Builds the `crc` crate's table-driven engine for `CRC_32_ISCSI` with
/// `crc::Crc::<u32>::new` and runs `crc::Crc::checksum` over `bytes`. The
/// contract only gives the result its name: the same bytes always yield the
/// same checksum.
#[verifier::external_body]
fn castagnoli_checksum(bytes: &[u8]) -> (checksum: u32)
    ensures
        checksum == crc32c(bytes@),
{
    crc::Crc::<u32>::new(&crc::CRC_32_ISCSI).checksum(bytes)
}

/// The checksum of a file's whole content.
pub fn hash(content: &[u8]) -> (checksum: u32)
    ensures
        checksum == crc32c(content@),
{
    castagnoli_checksum(content)
}

} // verus!
