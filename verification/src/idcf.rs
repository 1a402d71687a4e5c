//! A single-instance variant of the IDCF sender: it keeps one base tree and one tree of
//! implementation values in caller-provided memory.
use vstd::prelude::*;
use crate::spfss_sender_f2k::rand_u128;
use crate::bytes::u128_to_le_bytes;

verus! {

/// The single-instance IDCF sender: its random seed, the shared secret, and the tree depth.
pub struct IDCFSender {
    seed: [u8; 16],
    delta: [u8; 16],
    secret_sum: [u8; 16],
    depth: usize,
}

impl IDCFSender {
    /// The shared secret.
    pub closed spec fn spec_delta(&self) -> Seq<u8> {
        self.delta@
    }

    /// The depth.
    pub closed spec fn spec_depth(&self) -> usize {
        self.depth
    }

    /// A sender of the given depth with a fresh random seed.
    pub fn new(depth: usize) -> (r: Self)
        ensures
            r.spec_depth() == depth,
            r.spec_delta() == Seq::new(16, |_i: int| 0u8),
    {
        let seed = u128_to_le_bytes(rand_u128());
        let r = Self { seed, delta: [0u8; 16], secret_sum: [0u8; 16], depth };
        assert(r.delta@ =~= Seq::new(16, |_i: int| 0u8));
        r
    }

    /// Shares `secret`: records it, and puts it at the root of the base tree. Only trees of
    /// at most one level are expanded by this variant (a deeper tree would copy a level into
    /// a range of twice its size).
    pub fn compute(
        &mut self,
        base_ggm_tree_mem: &mut [[u8; 16]],
        implementation_tree_mem: &mut [[u8; 16]],
        secret: [u8; 16],
        gamma: [u8; 16],
    )
        requires
            old(self).spec_depth() <= 1,
            old(base_ggm_tree_mem)@.len() >= 1,
        ensures
            final(self).spec_delta() == secret@,
            final(self).spec_depth() == old(self).spec_depth(),
            final(base_ggm_tree_mem)@ == old(base_ggm_tree_mem)@.update(0, secret),
            final(implementation_tree_mem)@ == old(implementation_tree_mem)@,
    {
        self.delta = secret;
        self.idcf_gen(base_ggm_tree_mem, implementation_tree_mem, secret, gamma);
    }

    /// Puts `secret` at the root of the base tree; the levels below the root are only
    /// expanded for deeper trees, which this variant does not support.
    pub fn idcf_gen(
        &mut self,
        base_ggm_tree_mem: &mut [[u8; 16]],
        implementation_tree_mem: &mut [[u8; 16]],
        secret: [u8; 16],
        gamma: [u8; 16],
    )
        requires
            old(self).spec_depth() <= 1,
            old(base_ggm_tree_mem)@.len() >= 1,
        ensures
            *final(self) == *old(self),
            final(base_ggm_tree_mem)@ == old(base_ggm_tree_mem)@.update(0, secret),
            final(implementation_tree_mem)@ == old(implementation_tree_mem)@,
    {
        base_ggm_tree_mem[0] = secret;
    }
}

} // verus!
