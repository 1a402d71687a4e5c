//! The BLAKE3 and BLAKE2s-256 hashes: band positions and consistency checks use BLAKE3,
//! the intersection search compares BLAKE2s-256 digests.
use blake2::{Blake2s256, Digest};
use vstd::prelude::*;
use crate::bytes::{le_to_u128, u128_from_le_at, u128_to_le, u128_to_le_bytes};

verus! {

/// The 32-byte BLAKE3 digest of `data`.
pub uninterp spec fn blake3_digest(data: Seq<u8>) -> Seq<u8>;

/// `blake3::hash`: claimed of the crate only that the 32 bytes returned are the digest
/// of `data`, the same for the same bytes; the hash function itself stays a name.
#[verifier::external_body]
pub(crate) fn blake3_hash(data: &[u8]) -> (r: [u8; 32])
    ensures
        r@ == blake3_digest(data@),
{
    *blake3::hash(data).as_bytes()
}

/// The 32-byte BLAKE2s-256 digest of `data`.
pub uninterp spec fn blake2s256_digest(data: Seq<u8>) -> Seq<u8>;

/// `blake2::Blake2s256::digest`: claimed of the crate only that the 32 bytes returned are the
/// digest of `data`, the same for the same bytes; the hash function itself stays a name.
#[verifier::external_body]
pub(crate) fn blake2s256_hash(data: &[u8]) -> (r: [u8; 32])
    ensures
        r@ == blake2s256_digest(data@),
{
    let out = Blake2s256::digest(data);
    let mut r = [0u8; 32];
    r.copy_from_slice(&out);
    r
}

/// The first 16 bytes of the digest of the 16-byte encoding of `v`, read back as a value.
pub open spec fn digest_seed(v: u128) -> u128 {
    le_to_u128(blake3_digest(u128_to_le(v)).subrange(0, 16))
}

/// Derives a hash seed from a value: the first 16 digest bytes of its encoding.
pub fn hash_to_seed(v: u128) -> (r: u128)
    ensures
        r == digest_seed(v),
{
    let bytes = u128_to_le_bytes(v);
    let h = blake3_hash(&bytes);
    u128_from_le_at(&h, 0)
}

} // verus!
