//! CRC32 checksums of chunks and of whole files.

use vstd::prelude::*;

verus! {

/// One bit step of the reflected CRC-32 register: shift right, and where the
/// bit shifted out was set, xor in the reversed polynomial `0xEDB88320`.
pub open spec fn crc32_bit_step(c: u32) -> u32 {
    if c & 1 == 1 {
        (c >> 1) ^ 0xEDB8_8320u32
    } else {
        c >> 1
    }
}

/// The register after `k` bit steps.
pub open spec fn crc32_bit_steps(c: u32, k: nat) -> u32
    decreases k,
{
    if k == 0 {
        c
    } else {
        crc32_bit_steps(crc32_bit_step(c), (k - 1) as nat)
    }
}

/// The register after feeding it `data`, lowest bit of each byte first.
pub open spec fn crc32_feed(c: u32, data: Seq<u8>) -> u32
    decreases data.len(),
{
    if data.len() == 0 {
        c
    } else {
        crc32_feed(crc32_bit_steps(c ^ (data[0] as u32), 8), data.drop_first())
    }
}

/// The CRC-32 (IEEE 802.3, the checksum of zlib and PNG) of `data`: the
/// reflected register starts at `0xFFFFFFFF` and is xored with it at the end.
#[verifier::opaque]
pub open spec fn crc32(data: Seq<u8>) -> u32 {
    crc32_feed(0xFFFF_FFFFu32, data) ^ 0xFFFF_FFFFu32
}

/// `crc32fast::hash`: the CRC-32 (IEEE) of the bytes.
#[verifier::external_body]
pub(crate) fn crc32_hash(data: &[u8]) -> (r: u32)
    ensures
        r == crc32(data@),
{
    crc32fast::hash(data)
}

} // verus!
