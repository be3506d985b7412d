//! The hash functions this crate takes from elsewhere.
//!
//! Each function here hands its argument to one outside function and states
//! what is believed of the answer. What an algorithm computes is given a
//! name and nothing more: no contract of the crate depends on which bits a
//! digest has, only on the same bytes giving the same digest.

use vstd::prelude::*;

verus! {

/// The CRC32C of `data`, continued from the check value `crc`.
pub uninterp spec fn crc32c_from(crc: u32, data: Seq<u8>) -> u32;

/// `crc32c::crc32c`. Its documentation calls it equivalent to
/// `crc32c_append(0, data)`, which is what is claimed here.
#[verifier::external_body]
pub(crate) fn crc32c(data: &[u8]) -> (h: u32)
    ensures
        h == crc32c_from(0, data@),
{
    crc32c::crc32c(data)
}

/// `crc32c::crc32c_append`. Claimed: the answer is a function of the previous
/// check value and the data.
#[verifier::external_body]
pub(crate) fn crc32c_append(crc: u32, data: &[u8]) -> (h: u32)
    ensures
        h == crc32c_from(crc, data@),
{
    crc32c::crc32c_append(crc, data)
}

/// The XXH64 of `data` under `seed`.
pub uninterp spec fn xxh64_of(seed: u64, data: Seq<u8>) -> u64;

/// `twox_hash::XxHash64::oneshot`. Claimed: the answer is a function of the
/// seed and the data.
#[verifier::external_body]
pub(crate) fn xxh64(seed: u64, data: &[u8]) -> (h: u64)
    ensures
        h == xxh64_of(seed, data@),
{
    twox_hash::XxHash64::oneshot(seed, data)
}

/// The SHA-256 of `data`.
pub uninterp spec fn sha256_of(data: Seq<u8>) -> Seq<u8>;

/// `sha2::Sha256::digest`. Claimed: the answer is a function of the data, and
/// is 32 bytes long.
#[verifier::external_body]
pub(crate) fn sha256(data: &[u8]) -> (h: Vec<u8>)
    ensures
        h@ == sha256_of(data@),
        h@.len() == 32,
{
    <sha2::Sha256 as sha2::Digest>::digest(data).to_vec()
}

/// The BLAKE2b of `data`, `length` bytes long.
pub uninterp spec fn blake2b_of(length: usize, data: Seq<u8>) -> Seq<u8>;

/// `blake2b_simd::Params::hash` with nothing set but the length of the hash,
/// which `hash_length` refuses by panicking outside 1 to 64. Claimed: the
/// answer is a function of the length and the data, and has that length.
#[verifier::external_body]
pub(crate) fn blake2b(length: usize, data: &[u8]) -> (h: Vec<u8>)
    requires
        1 <= length <= 64,
    ensures
        h@ == blake2b_of(length, data@),
        h@.len() == length,
{
    blake2b_simd::Params::new().hash_length(length).hash(data).as_bytes().to_vec()
}

} // verus!
