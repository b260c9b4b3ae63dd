//! Trusted bindings to the cryptographic digests the engine relies on.
//!
//! The digests themselves are outside code; their results are given names
//! (`sha256_of`, `sha224_of`, `crc32_of`) that the library's contracts
//! speak of.  Each name stands for a pure function of the input bytes
//! alone, which is what the digest crates compute.

use vstd::prelude::*;

use sha2::Digest;

verus! {

/// The SHA-256 digest (32 bytes) of a byte string.
pub uninterp spec fn sha256_of(data: Seq<u8>) -> Seq<u8>;

/// The SHA-224 digest (28 bytes) of a byte string.
pub uninterp spec fn sha224_of(data: Seq<u8>) -> Seq<u8>;

/// The CRC-32 (IEEE) checksum of a byte string.
pub uninterp spec fn crc32_of(data: Seq<u8>) -> u32;

/// Relies on sha2's `Sha256`: the digest depends on the input bytes alone
/// and is always 32 bytes long.
#[verifier::external_body]
pub fn sha256(data: &Vec<u8>) -> (r: Vec<u8>)
    ensures
        r@ == sha256_of(data@),
        r@.len() == 32,
{
    sha2::Sha256::digest(data.as_slice()).to_vec()
}

/// Relies on sha2's `Sha224`: the digest depends on the input bytes alone
/// and is always 28 bytes long.
#[verifier::external_body]
pub fn sha224(data: &Vec<u8>) -> (r: Vec<u8>)
    ensures
        r@ == sha224_of(data@),
        r@.len() == 28,
{
    sha2::Sha224::digest(data.as_slice()).to_vec()
}

/// Relies on crc32fast's `hash`: the CRC-32 checksum depends on the input
/// bytes alone.
#[verifier::external_body]
pub fn crc32(data: &Vec<u8>) -> (r: u32)
    ensures
        r == crc32_of(data@),
{
    crc32fast::hash(data.as_slice())
}

} // verus!
