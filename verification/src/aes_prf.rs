//! Fixed-key AES-128, used as a random oracle to expand tree nodes.
use aes::cipher::generic_array::GenericArray;
use aes::cipher::{BlockEncrypt, KeyInit};
use aes::Aes128;
use vstd::prelude::*;

verus! {

/// AES-128 encryption of the block whose 16 little-endian bytes are those of `block`,
/// under the 16-byte `key`, read back as a little-endian `u128`.
pub uninterp spec fn aes128_encrypt(key: Seq<u8>, block: u128) -> u128;

/// The 16-byte key whose first byte is `b` and whose other bytes are zero.
pub open spec fn fixed_key(b: u8) -> Seq<u8> {
    seq![b, 0u8, 0u8, 0u8, 0u8, 0u8, 0u8, 0u8, 0u8, 0u8, 0u8, 0u8, 0u8, 0u8, 0u8, 0u8]
}

/// The key `[b, 0, 0, ..., 0]`.
pub fn fixed_key_block(b: u8) -> (r: [u8; 16])
    ensures
        r@ == fixed_key(b),
{
    let r = [b, 0u8, 0u8, 0u8, 0u8, 0u8, 0u8, 0u8, 0u8, 0u8, 0u8, 0u8, 0u8, 0u8, 0u8, 0u8];
    assert(r@ =~= fixed_key(b));
    r
}

/// Encrypts every block with `aes::Aes128` (`KeyInit::new`, then `BlockEncrypt::encrypt_blocks`).
/// Claimed of the crate: one output per input, in order, each the AES-128 encryption of its
/// input under `key`; nothing is claimed of the cipher itself, which stays a name.
#[verifier::external_body]
pub(crate) fn aes128_encrypt_blocks(key: &[u8; 16], blocks: &Vec<u128>) -> (r: Vec<u128>)
    ensures
        r@.len() == blocks@.len(),
        forall|i: int| 0 <= i < blocks@.len() ==> #[trigger] r@[i] == aes128_encrypt(key@, blocks@[i]),
{
    let cipher = Aes128::new(&GenericArray::from(*key));
    let mut bs: Vec<_> = blocks.iter().map(|b| GenericArray::from(b.to_le_bytes())).collect();
    cipher.encrypt_blocks(&mut bs);
    bs.iter().map(|b| u128::from_le_bytes((*b).into())).collect()
}

} // verus!
