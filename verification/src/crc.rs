//! Checksums of byte strings.

use vstd::prelude::*;

verus! {

/// The CRC-32 of `data`, as `crc32fast::hash` computes it.
pub uninterp spec fn crc32_of(data: Seq<u8>) -> u32;

/// The CRC-64-ECMA of `data`, as a fresh `crc64fast::Digest` gives it
/// after one `write` of `data`.
pub uninterp spec fn crc64_of(data: Seq<u8>) -> u64;

/// The 64-bit XXH3 hash of `data`, as `xxhash_rust::xxh3::xxh3_64`
/// computes it.
pub uninterp spec fn xxh3_of(data: Seq<u8>) -> u64;

/// Calls `crc32fast::hash`; the result is named `crc32_of`.
#[verifier::external_body]
pub fn crc32(data: &[u8]) -> (r: u32)
    ensures
        r == crc32_of(data@),
{
    crc32fast::hash(data)
}

/// Makes a `crc64fast::Digest`, writes `data` to it and takes `sum64`; the
/// result is named `crc64_of`.
#[verifier::external_body]
pub fn crc64_ecma(data: &[u8]) -> (r: u64)
    ensures
        r == crc64_of(data@),
{
    let mut d = crc64fast::Digest::new();
    d.write(data);
    d.sum64()
}

/// Calls `xxhash_rust::xxh3::xxh3_64`; the result is named `xxh3_of`.
#[verifier::external_body]
pub(crate) fn xxh3_64(data: &[u8]) -> (r: u64)
    ensures
        r == xxh3_of(data@),
{
    xxhash_rust::xxh3::xxh3_64(data)
}

} // verus!
