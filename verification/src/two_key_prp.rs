//! Two-key expansion of tree nodes: a node `p` has left child `AES_k0(p) ^ p` and right
//! child `AES_k1(p) ^ p`, with the fixed keys `k0` (all bytes 0) and `k1` (all bytes 1).
use vstd::prelude::*;
use crate::aes_prf::{aes128_encrypt, aes128_encrypt_blocks};

verus! {

/// The key of the left (`false`) or right (`true`) expansion.
pub open spec fn prp_key(right: bool) -> Seq<u8> {
    Seq::new(16, |_j: int| if right { 1u8 } else { 0u8 })
}

/// The left (`false`) or right (`true`) child of node `p`.
pub open spec fn ggm_child(right: bool, p: u128) -> u128 {
    aes128_encrypt(prp_key(right), p) ^ p
}

/// The 16-byte key of one side.
fn key_block(right: bool) -> (r: [u8; 16])
    ensures
        r@ == prp_key(right),
{
    let b: u8 = if right { 1 } else { 0 };
    let r = [b; 16];
    assert(r@ =~= prp_key(right));
    r
}

/// The children on one side of every node of `parents`.
pub fn expand(right: bool, parents: &[u128]) -> (r: Vec<u128>)
    ensures
        r@.len() == parents@.len(),
        forall|i: int| 0 <= i < parents@.len() ==> #[trigger] r@[i] == ggm_child(right, parents@[i]),
{
    let key = key_block(right);
    let mut blocks: Vec<u128> = Vec::new();
    let mut i: usize = 0;
    while i < parents.len()
        invariant
            i <= parents@.len(),
            blocks@ == parents@.subrange(0, i as int),
        decreases parents@.len() - i,
    {
        blocks.push(parents[i]);
        i += 1;
    }
    assert(blocks@ =~= parents@);
    let enc = aes128_encrypt_blocks(&key, &blocks);
    let mut r: Vec<u128> = Vec::new();
    let mut i: usize = 0;
    while i < parents.len()
        invariant
            i <= parents@.len(),
            blocks@ == parents@,
            enc@.len() == parents@.len(),
            key@ == prp_key(right),
            forall|j: int| 0 <= j < parents@.len() ==> #[trigger] enc@[j] == aes128_encrypt(key@, blocks@[j]),
            r@.len() == i,
            forall|j: int| 0 <= j < i ==> #[trigger] r@[j] == ggm_child(right, parents@[j]),
        decreases parents@.len() - i,
    {
        r.push(enc[i] ^ parents[i]);
        i += 1;
    }
    r
}

} // verus!
