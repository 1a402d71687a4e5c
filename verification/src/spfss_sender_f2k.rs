//! The sender of the single-point function secret sharing: it expands a random seed into
//! a GGM tree and prepares, per level, the XOR of the left and of the right children.
use vstd::prelude::*;
use vstd::arithmetic::power2::{lemma_pow2_strictly_increases, lemma_pow2_unfold, pow2};
use crate::gf128::{gf128mul, gf_mul, inner_product, lemma_xor_facts, vector_inner_product_f2k};
use crate::spfss_receiver_f2k::coeffs_from;
use crate::idcf_sender::pow2_usize;
use crate::pre_ot::{pad0, pad1, OTPre};
use crate::spfss_model::{check_coeffs, parity_xor, s_leaves, s_level, s_node, xor_all};
use crate::two_key_prp::{expand, ggm_child};
use rand::RngCore;

verus! {

/// `rand::rng().fill_bytes`, read as a little-endian `u128`: nothing is claimed of the value.
#[verifier::external_body]
pub fn rand_u128() -> u128 {
    let mut bytes = [0u8; 16];
    rand::rng().fill_bytes(&mut bytes);
    u128::from_le_bytes(bytes)
}

/// The levels whose two sums the sender keeps: `depth - 1` of them, at least one.
pub open spec fn sum_levels(depth: nat) -> nat {
    if depth <= 1 {
        1
    } else {
        (depth - 1) as nat
    }
}

/// The sender's state: the seed of its tree, the leaves, the two sums of every level, the
/// masked sum of all leaves and the secret it shares.
pub struct SpfssSenderF2k {
    seed: u128,
    delta: u128,
    secret_sum: u128,
    ggm_tree: Vec<u128>,
    m0: Vec<u128>,
    m1: Vec<u128>,
    depth: usize,
    leave_n: usize,
}

impl SpfssSenderF2k {
    /// The number of levels.
    pub closed spec fn spec_depth(&self) -> nat {
        self.depth as nat
    }

    /// A well-formed tree has `2^(depth-1)` leaves.
    pub proof fn lemma_tree_len(&self)
        requires
            self.wf(),
        ensures
            self.spec_tree().len() == pow2((self.spec_depth() - 1) as nat),
            self.spec_depth() >= 1,
    {
    }

    /// The seed (root) of the tree.
    pub closed spec fn spec_seed(&self) -> u128 {
        self.seed
    }

    /// The shared secret.
    pub closed spec fn spec_delta(&self) -> u128 {
        self.delta
    }

    /// The XOR of all leaves and of the mask `gamma`.
    pub closed spec fn spec_secret_sum(&self) -> u128 {
        self.secret_sum
    }

    /// The leaves.
    pub closed spec fn spec_tree(&self) -> Seq<u128> {
        self.ggm_tree@
    }

    /// The XOR of the left children of each level.
    pub closed spec fn spec_m0(&self) -> Seq<u128> {
        self.m0@
    }

    /// The XOR of the right children of each level.
    pub closed spec fn spec_m1(&self) -> Seq<u128> {
        self.m1@
    }

    /// `2^(depth-1)` leaves, and as many slots for the sums.
    pub closed spec fn wf(&self) -> bool {
        &&& self.depth >= 1
        &&& pow2((self.depth - 1) as nat) <= usize::MAX
        &&& self.leave_n == pow2((self.depth - 1) as nat)
        &&& self.ggm_tree@.len() == self.leave_n
        &&& self.m0@.len() == self.leave_n
        &&& self.m1@.len() == self.leave_n
    }

    /// A sender for a tree of `depth` levels with root `seed`.
    pub fn with_seed(depth: usize, seed: u128) -> (r: Self)
        requires
            depth >= 1,
            depth - 1 < usize::BITS,
        ensures
            r.wf(),
            r.spec_depth() == depth,
            r.spec_seed() == seed,
            r.spec_delta() == 0,
            r.spec_secret_sum() == 0,
    {
        proof {
            vstd::bits::lemma_usize_pow2_no_overflow((depth - 1) as nat);
        }
        let leave_n = pow2_usize(depth - 1);
        let mut ggm_tree: Vec<u128> = Vec::new();
        let mut m0: Vec<u128> = Vec::new();
        let mut m1: Vec<u128> = Vec::new();
        let mut i: usize = 0;
        while i < leave_n
            invariant
                i <= leave_n,
                ggm_tree@.len() == i,
                m0@.len() == i,
                m1@.len() == i,
            decreases leave_n - i,
        {
            ggm_tree.push(0);
            m0.push(0);
            m1.push(0);
            i += 1;
        }
        Self { seed, delta: 0, secret_sum: 0, ggm_tree, m0, m1, depth, leave_n }
    }

    /// A sender for a tree of `depth` levels with a fresh random root.
    pub fn new(depth: usize) -> (r: Self)
        requires
            depth >= 1,
            depth - 1 < usize::BITS,
        ensures
            r.wf(),
            r.spec_depth() == depth,
            r.spec_delta() == 0,
            r.spec_secret_sum() == 0,
    {
        let seed = rand_u128();
        Self::with_seed(depth, seed)
    }

    /// Shares `secret` at a point the receiver chose: expands the tree (written to
    /// `ggm_tree_mem`) and records the sums, with `gamma` masking the sum of all leaves.
    pub fn compute(&mut self, ggm_tree_mem: &mut [u128], secret: u128, gamma: u128)
        requires
            old(self).wf(),
            old(ggm_tree_mem)@.len() >= 2,
            old(ggm_tree_mem)@.len() >= old(self).spec_tree().len(),
        ensures
            final(self).wf(),
            final(self).spec_depth() == old(self).spec_depth(),
            final(self).spec_seed() == old(self).spec_seed(),
            final(self).spec_delta() == secret,
            final(ggm_tree_mem)@.len() == old(ggm_tree_mem)@.len(),
            final(self).spec_tree() == s_leaves(old(self).spec_seed(), old(self).spec_depth()),
            forall|i: int|
                0 <= i < final(self).spec_tree().len() ==> #[trigger] final(ggm_tree_mem)@[i]
                    == final(self).spec_tree()[i],
            final(self).spec_secret_sum() == xor_all(final(self).spec_tree(), final(self).spec_tree().len() as int)
                ^ gamma,
            forall|h: int|
                0 <= h < sum_levels(old(self).spec_depth()) ==> #[trigger] final(self).spec_m0()[h]
                    == parity_xor(s_level(old(self).spec_seed(), (h + 1) as nat), 0, pow2((h + 1) as nat) as int),
            forall|h: int|
                0 <= h < sum_levels(old(self).spec_depth()) ==> #[trigger] final(self).spec_m1()[h]
                    == parity_xor(s_level(old(self).spec_seed(), (h + 1) as nat), 1, pow2((h + 1) as nat) as int),
    {
        self.delta = secret;
        self.ggm_tree_gen(ggm_tree_mem, secret, gamma);
    }

    fn ggm_tree_gen(&mut self, ggm_tree_mem: &mut [u128], secret: u128, gamma: u128)
        requires
            old(self).wf(),
            old(ggm_tree_mem)@.len() >= 2,
            old(ggm_tree_mem)@.len() >= old(self).spec_tree().len(),
        ensures
            final(self).wf(),
            final(self).spec_depth() == old(self).spec_depth(),
            final(self).spec_seed() == old(self).spec_seed(),
            final(self).spec_delta() == old(self).spec_delta(),
            final(ggm_tree_mem)@.len() == old(ggm_tree_mem)@.len(),
            final(self).spec_tree() == s_leaves(old(self).spec_seed(), old(self).spec_depth()),
            forall|i: int|
                0 <= i < final(self).spec_tree().len() ==> #[trigger] final(ggm_tree_mem)@[i]
                    == final(self).spec_tree()[i],
            final(self).spec_secret_sum() == xor_all(final(self).spec_tree(), final(self).spec_tree().len() as int)
                ^ gamma,
            forall|h: int|
                0 <= h < sum_levels(old(self).spec_depth()) ==> #[trigger] final(self).spec_m0()[h]
                    == parity_xor(s_level(old(self).spec_seed(), (h + 1) as nat), 0, pow2((h + 1) as nat) as int),
            forall|h: int|
                0 <= h < sum_levels(old(self).spec_depth()) ==> #[trigger] final(self).spec_m1()[h]
                    == parity_xor(s_level(old(self).spec_seed(), (h + 1) as nat), 1, pow2((h + 1) as nat) as int),
    {
        let seed = self.seed;
        proof {
            vstd::arithmetic::power2::lemma_pow2_pos((self.depth - 1) as nat);
        }
        let root = [seed];
        let l0 = expand(false, &root);
        let r0 = expand(true, &root);
        ggm_tree_mem[0] = l0[0];
        ggm_tree_mem[1] = r0[0];
        self.m0.set(0, l0[0]);
        self.m1.set(0, r0[0]);
        proof {
            vstd::arithmetic::power2::lemma2_to64();
            assert(s_node(seed, 1, 0) == ggm_child(false, s_node(seed, 0, 0)));
            assert(s_node(seed, 1, 1) == ggm_child(true, s_node(seed, 0, 0)));
            let lv = s_level(seed, 1);
            reveal_with_fuel(parity_xor, 3);
            lemma_xor_facts(lv[0], 0u128, 0u128);
            lemma_xor_facts(0u128, lv[0], 0u128);
            lemma_xor_facts(0u128, lv[1], 0u128);
            lemma_xor_facts(lv[1], 0u128, 0u128);
            lemma_xor_facts(0u128, 0u128, 0u128);
            assert(parity_xor(lv, 0, 2) == lv[0]);
            assert(parity_xor(lv, 1, 2) == lv[1]);
        }
        let mut h: usize = 1;
        let mlen = ggm_tree_mem.len();
        proof {
            lemma_depth_below_leaves((self.depth - 1) as nat);
        }
        while h + 1 < self.depth
            invariant
                self.wf(),
                mlen == ggm_tree_mem@.len(),
                self.depth - 1 <= self.leave_n,
                self.depth == old(self).depth,
                self.seed == old(self).seed,
                self.delta == old(self).delta,
                seed == self.seed,
                ggm_tree_mem@.len() == old(ggm_tree_mem)@.len(),
                ggm_tree_mem@.len() >= self.leave_n,
                ggm_tree_mem@.len() >= 2,
                1 <= h,
                h + 1 <= self.depth || h == 1,
                forall|x: int| 0 <= x < pow2(h as nat) ==> #[trigger] ggm_tree_mem@[x] == s_node(seed, h as nat, x as nat),
                forall|k: int|
                    0 <= k < h ==> #[trigger] self.m0@[k] == parity_xor(s_level(seed, (k + 1) as nat), 0, pow2((k + 1) as nat) as int),
                forall|k: int|
                    0 <= k < h ==> #[trigger] self.m1@[k] == parity_xor(s_level(seed, (k + 1) as nat), 1, pow2((k + 1) as nat) as int),
            decreases self.depth - h,
        {
            proof {
                lemma_pow2_unfold(h as nat + 1);
                if h + 2 < self.depth {
                    lemma_pow2_strictly_increases(h as nat + 1, (self.depth - 1) as nat);
                }
            }
            let sz = pow2_usize(h);
            let mut parents: Vec<u128> = Vec::new();
            let mut j: usize = 0;
            while j < sz
                invariant
                    j <= sz,
                    sz == pow2(h as nat),
                    2 * sz <= ggm_tree_mem@.len(),
                    parents@.len() == j,
                    forall|k: int| 0 <= k < j ==> #[trigger] parents@[k] == ggm_tree_mem@[k],
                decreases sz - j,
            {
                parents.push(ggm_tree_mem[j]);
                j += 1;
            }
            let left = expand(false, parents.as_slice());
            let right = expand(true, parents.as_slice());
            let ghost lv = s_level(seed, (h + 1) as nat);
            let mut acc0: u128 = 0;
            let mut acc1: u128 = 0;
            let mut i: usize = 0;
            while i < sz
                invariant
                    mlen == ggm_tree_mem@.len(),
                    sz == pow2(h as nat),
                    2 * sz == pow2(h as nat + 1),
                    2 * sz <= ggm_tree_mem@.len(),
                    ggm_tree_mem@.len() == old(ggm_tree_mem)@.len(),
                    lv == s_level(seed, (h + 1) as nat),
                    parents@.len() == sz,
                    forall|k: int| 0 <= k < sz ==> #[trigger] parents@[k] == s_node(seed, h as nat, k as nat),
                    left@.len() == sz,
                    right@.len() == sz,
                    forall|k: int| 0 <= k < sz ==> #[trigger] left@[k] == ggm_child(false, parents@[k]),
                    forall|k: int| 0 <= k < sz ==> #[trigger] right@[k] == ggm_child(true, parents@[k]),
                    i <= sz,
                    forall|x: int| 0 <= x < 2 * i ==> #[trigger] ggm_tree_mem@[x] == s_node(seed, (h + 1) as nat, x as nat),
                    acc0 == parity_xor(lv, 0, 2 * i),
                    acc1 == parity_xor(lv, 1, 2 * i),
                decreases sz - i,
            {
                ggm_tree_mem[2 * i] = left[i];
                ggm_tree_mem[2 * i + 1] = right[i];
                proof {
                    reveal_with_fuel(parity_xor, 3);
                    assert((2 * i as int) / 2 == i && (2 * i as int) % 2 == 0);
                    assert((2 * i as int + 1) / 2 == i && (2 * i as int + 1) % 2 == 1);
                    assert(lv[2 * i as int] == s_node(seed, (h + 1) as nat, (2 * i) as nat));
                    assert(lv[2 * i as int + 1] == s_node(seed, (h + 1) as nat, (2 * i + 1) as nat));
                    lemma_xor_facts(acc0 ^ left[i as int], 0u128, 0u128);
                    lemma_xor_facts(acc1, 0u128, 0u128);
                    assert forall|x: int| 0 <= x < 2 * (i + 1) implies #[trigger] ggm_tree_mem@[x] == s_node(
                        seed,
                        (h + 1) as nat,
                        x as nat,
                    ) by {
                        if x == 2 * i || x == 2 * i + 1 {
                            assert(x / 2 == i);
                        }
                    }
                }
                acc0 = acc0 ^ left[i];
                acc1 = acc1 ^ right[i];
                i += 1;
            }
            self.m0.set(h, acc0);
            self.m1.set(h, acc1);
            h += 1;
        }
        let mut secret_sum: u128 = 0;
        let mut tree: Vec<u128> = Vec::new();
        let mut i: usize = 0;
        let ghost leaves = s_leaves(seed, self.depth as nat);
        proof {
            vstd::arithmetic::power2::lemma2_to64();
            if self.depth >= 2 {
                assert(h + 1 == self.depth);
            }
            assert forall|x: int| 0 <= x < self.leave_n implies #[trigger] ggm_tree_mem@[x] == leaves[x] by {
                if self.depth >= 2 {
                    assert(ggm_tree_mem@[x] == s_node(seed, h as nat, x as nat));
                } else {
                    assert(ggm_tree_mem@[x] == s_node(seed, 1, x as nat));
                }
            }
        }
        while i < self.leave_n
            invariant
                self.wf(),
                ggm_tree_mem@.len() >= self.leave_n,
                leaves == s_leaves(seed, self.depth as nat),
                leaves.len() == self.leave_n,
                forall|x: int| 0 <= x < self.leave_n ==> #[trigger] ggm_tree_mem@[x] == leaves[x],
                i <= self.leave_n,
                tree@ == leaves.subrange(0, i as int),
                secret_sum == xor_all(leaves, i as int),
            decreases self.leave_n - i,
        {
            secret_sum = secret_sum ^ ggm_tree_mem[i];
            tree.push(ggm_tree_mem[i]);
            i += 1;
        }
        assert(tree@ =~= leaves);
        self.secret_sum = secret_sum ^ gamma;
        self.ggm_tree = tree;
    }

    /// The padded messages of the oblivious transfers at slot `s` (the two sums of each
    /// level), and the masked sum of all leaves.
    pub fn send(&self, ot: &OTPre<1>, s: usize) -> (r: (Vec<[u128; 1]>, u128))
        requires
            self.wf(),
            ot.wf(),
            s * (self.spec_depth() - 1) + (self.spec_depth() - 1) <= ot.spec_n(),
        ensures
            r.1 == self.spec_secret_sum(),
            r.0@.len() == 2 * (self.spec_depth() - 1),
            forall|i: int|
                0 <= i < self.spec_depth() - 1 ==> #[trigger] r.0@[2 * i]@ == pad0(
                    seq![self.spec_m0()[i]],
                    ot.keys()[s * (self.spec_depth() - 1) + i],
                    ot.keys()[s * (self.spec_depth() - 1) + i + ot.spec_n()],
                    ot.spec_bits()[s * (self.spec_depth() - 1) + i],
                ),
            forall|i: int|
                0 <= i < self.spec_depth() - 1 ==> #[trigger] r.0@[2 * i + 1]@ == pad1(
                    seq![self.spec_m1()[i]],
                    ot.keys()[s * (self.spec_depth() - 1) + i],
                    ot.keys()[s * (self.spec_depth() - 1) + i + ot.spec_n()],
                    ot.spec_bits()[s * (self.spec_depth() - 1) + i],
                ),
    {
        let mut ot_msg_0: Vec<[u128; 1]> = Vec::new();
        let mut ot_msg_1: Vec<[u128; 1]> = Vec::new();
        let mut i: usize = 0;
        while i < self.leave_n
            invariant
                self.wf(),
                i <= self.leave_n,
                ot_msg_0@.len() == i,
                ot_msg_1@.len() == i,
                forall|k: int| 0 <= k < i ==> #[trigger] ot_msg_0@[k]@ == seq![self.m0@[k]],
                forall|k: int| 0 <= k < i ==> #[trigger] ot_msg_1@[k]@ == seq![self.m1@[k]],
            decreases self.leave_n - i,
        {
            let a = [self.m0[i]];
            let b = [self.m1[i]];
            assert(a@ =~= seq![self.m0@[i as int]]);
            assert(b@ =~= seq![self.m1@[i as int]]);
            ot_msg_0.push(a);
            ot_msg_1.push(b);
            i += 1;
        }
        proof {
            vstd::arithmetic::power2::lemma2_to64();
            if self.depth >= 2 {
                vstd::arithmetic::power2::lemma_pow2_unfold((self.depth - 1) as nat);
                assert(self.depth - 1 <= pow2((self.depth - 1) as nat)) by {
                    lemma_depth_below_leaves((self.depth - 1) as nat);
                }
            }
        }
        let pad = ot.send(ot_msg_0.as_slice(), ot_msg_1.as_slice(), self.depth - 1, s);
        (pad, self.secret_sum)
    }
}

/// `n <= 2^n`.
proof fn lemma_depth_below_leaves(n: nat)
    ensures
        n <= pow2(n),
    decreases n,
{
    vstd::arithmetic::power2::lemma2_to64();
    if n > 0 {
        lemma_depth_below_leaves((n - 1) as nat);
        lemma_pow2_unfold(n);
    }
}

impl SpfssSenderF2k {
    /// The sender's answer in the consistency check: `V = <chi, leaves> ^ y ^ delta * x*`,
    /// for coefficients derived from the masked sum of leaves.
    pub fn consistency_check(&self, y: u128, x_star: u128) -> (v: u128)
        requires
            self.wf(),
        ensures
            v == inner_product(check_coeffs(self.spec_secret_sum(), self.spec_tree().len()), self.spec_tree())
                ^ (y ^ gf_mul(self.spec_delta(), x_star)),
    {
        let chi = coeffs_from(self.secret_sum, self.leave_n);
        let y_star = y ^ gf128mul(self.delta, x_star);
        vector_inner_product_f2k(chi.as_slice(), self.ggm_tree.as_slice()) ^ y_star
    }

    /// The sender's message for the batched consistency check with coefficients derived from
    /// `seed`: `<chi, leaves>`.
    pub fn consistency_check_msg_gen(&self, v: &mut u128, seed: u128)
        requires
            self.wf(),
        ensures
            *final(v) == inner_product(check_coeffs(seed, self.spec_tree().len()), self.spec_tree()),
    {
        let chi = coeffs_from(seed, self.leave_n);
        *v = vector_inner_product_f2k(chi.as_slice(), self.ggm_tree.as_slice());
    }
}

} // verus!
