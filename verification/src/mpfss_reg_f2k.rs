//! Multi-point function secret sharing with regular noise: `tree_n` independent single-point
//! sharings, one per block of `leave_n` entries, and their batched consistency check.
//!
//! The protocol alternates local work and messages; each step of it is a method here, and
//! the caller moves the messages between the steps.
use vstd::prelude::*;
use crate::bytes::u128_to_le_bytes;
use crate::bytes::u128_to_le;
use crate::gf128::{
    gf128mul, gf_mul, inner_product, lemma_gf_mul_associates, lemma_gf_mul_commutes,
    lemma_gf_mul_distributes, lemma_gf_mul_zero, lemma_xor4, lemma_xor_facts,
};
use crate::hashing::{blake3_digest, blake3_hash};
use crate::idcf_sender::pow2_usize;
use crate::spfss_model::{check_coeffs, lemma_spfss_correct, r_leaves, r_output, r_path, s_leaves, s_msg, xor_all};
use crate::spfss_receiver_f2k::SpfssRecverF2k;
use crate::spfss_sender_f2k::SpfssSenderF2k;
use vstd::arithmetic::power2::pow2;

verus! {

/// `init ^ s[0] ^ ... ^ s[n-1]`, added in that order.
pub open spec fn xor_from(init: u128, s: Seq<u128>, n: int) -> u128
    decreases n,
{
    if n <= 0 {
        init
    } else {
        xor_from(init, s, n - 1) ^ s[n - 1]
    }
}

/// `init ^ a[0]*b[0] ^ ... ^ a[n-1]*b[n-1]`, added in that order.
pub open spec fn xor_products(init: u128, a: Seq<u128>, b: Seq<u128>, n: int) -> u128
    decreases n,
{
    if n <= 0 {
        init
    } else {
        xor_products(init, a, b, n - 1) ^ gf_mul(a[n - 1], b[n - 1])
    }
}

/// The state of one side: `tree_n` trees of `leave_n = 2^(tree_height - 1)` leaves, the
/// sender's secret, the correlation it masks the trees with, and the consistency buffers.
pub struct MpfssRegF2k {
    party: usize,
    item_n: usize,
    idx_max: usize,
    m: usize,
    tree_height: usize,
    leave_n: usize,
    tree_n: usize,
    is_malicious: bool,
    secret_share_x: u128,
    ggm_tree: Vec<Vec<u128>>,
    check_chialpha_buf: Vec<u128>,
    check_vw_buf: Vec<u128>,
    item_pos_receiver: Vec<usize>,
    triple_y: Vec<u128>,
    triple_z: Vec<u128>,
}

impl MpfssRegF2k {
    /// The number of trees.
    pub closed spec fn spec_tree_n(&self) -> nat {
        self.tree_n as nat
    }

    /// Levels of each tree.
    pub closed spec fn spec_tree_height(&self) -> nat {
        self.tree_height as nat
    }

    /// Leaves of each tree.
    pub closed spec fn spec_leave_n(&self) -> nat {
        self.leave_n as nat
    }

    /// Whether the consistency check runs.
    pub closed spec fn spec_malicious(&self) -> bool {
        self.is_malicious
    }

    /// The sender's secret.
    pub closed spec fn spec_secret(&self) -> u128 {
        self.secret_share_x
    }

    /// The punctured leaf of each receiver tree.
    pub closed spec fn spec_item_pos(&self) -> Seq<usize> {
        self.item_pos_receiver@
    }

    /// The trees.
    pub closed spec fn spec_trees(&self) -> Seq<Vec<u128>> {
        self.ggm_tree@
    }

    /// The first part of the correlation, `tree_n + 1` entries.
    pub closed spec fn spec_triple_y(&self) -> Seq<u128> {
        self.triple_y@
    }

    /// The second part of the correlation (receiver), `tree_n + 1` entries.
    pub closed spec fn spec_triple_z(&self) -> Seq<u128> {
        self.triple_z@
    }

    /// The consistency values of each tree.
    pub closed spec fn spec_vw(&self) -> Seq<u128> {
        self.check_vw_buf@
    }

    /// The receiver's coefficient at each punctured leaf.
    pub closed spec fn spec_chialpha(&self) -> Seq<u128> {
        self.check_chialpha_buf@
    }

    /// The entry of the receiver's punctured leaf of tree `i` in the whole vector.
    pub open spec fn point_of(&self, i: int) -> int {
        i * self.spec_leave_n() + (self.spec_item_pos()[i] as int) % (self.spec_leave_n() as int)
    }

    /// Every buffer has its size.
    pub closed spec fn wf(&self) -> bool {
        &&& self.tree_height >= 1
        &&& self.tree_height - 1 < usize::BITS
        &&& self.leave_n == pow2((self.tree_height - 1) as nat)
        &&& self.tree_n * self.leave_n <= usize::MAX
        &&& self.tree_n + 1 <= usize::MAX
        &&& self.ggm_tree@.len() == self.tree_n
        &&& forall|i: int| 0 <= i < self.tree_n ==> #[trigger] self.ggm_tree@[i]@.len() == self.leave_n
        &&& self.check_chialpha_buf@.len() == self.tree_n
        &&& self.check_vw_buf@.len() == self.tree_n
        &&& self.item_pos_receiver@.len() == self.tree_n
        &&& self.triple_y@.len() == self.tree_n + 1
        &&& self.triple_z@.len() == self.tree_n + 1
    }

    /// `t` trees of `2^log_bin_sz` leaves over `n` entries, for `party`.
    pub fn new(n: usize, t: usize, log_bin_sz: usize, party: usize) -> (r: Self)
        requires
            log_bin_sz < usize::BITS,
            t * pow2(log_bin_sz as nat) <= usize::MAX,
            t + 1 <= usize::MAX,
        ensures
            r.wf(),
            r.spec_tree_n() == t,
            r.spec_tree_height() == log_bin_sz + 1,
            r.spec_leave_n() == pow2(log_bin_sz as nat),
            !r.spec_malicious(),
            r.spec_secret() == 0,
    {
        proof {
            vstd::bits::lemma_usize_pow2_no_overflow(log_bin_sz as nat);
        }
        let leave_n = pow2_usize(log_bin_sz);
        let mut ggm_tree: Vec<Vec<u128>> = Vec::new();
        let mut i: usize = 0;
        while i < t
            invariant
                i <= t,
                ggm_tree@.len() == i,
                forall|k: int| 0 <= k < i ==> #[trigger] ggm_tree@[k]@.len() == leave_n,
            decreases t - i,
        {
            let mut row: Vec<u128> = Vec::new();
            let mut j: usize = 0;
            while j < leave_n
                invariant
                    j <= leave_n,
                    row@.len() == j,
                decreases leave_n - j,
            {
                row.push(0);
                j += 1;
            }
            ggm_tree.push(row);
            i += 1;
        }
        let mut chialpha: Vec<u128> = Vec::new();
        let mut vw: Vec<u128> = Vec::new();
        let mut pos: Vec<usize> = Vec::new();
        let mut ty: Vec<u128> = Vec::new();
        let mut tz: Vec<u128> = Vec::new();
        let mut i: usize = 0;
        while i < t
            invariant
                i <= t,
                chialpha@.len() == i,
                vw@.len() == i,
                pos@.len() == i,
                ty@.len() == i,
                tz@.len() == i,
            decreases t - i,
        {
            chialpha.push(0);
            vw.push(0);
            pos.push(0);
            ty.push(0);
            tz.push(0);
            i += 1;
        }
        ty.push(0);
        tz.push(0);
        MpfssRegF2k {
            party,
            item_n: t,
            idx_max: n,
            m: 0,
            tree_height: log_bin_sz + 1,
            leave_n,
            tree_n: t,
            is_malicious: false,
            secret_share_x: 0,
            ggm_tree,
            check_chialpha_buf: chialpha,
            check_vw_buf: vw,
            item_pos_receiver: pos,
            triple_y: ty,
            triple_z: tz,
        }
    }

    /// Turns the consistency check on.
    pub fn set_malicious(&mut self)
        requires
            old(self).wf(),
        ensures
            final(self).wf(),
            final(self).spec_malicious(),
            final(self).spec_tree_n() == old(self).spec_tree_n(),
            final(self).spec_tree_height() == old(self).spec_tree_height(),
            final(self).spec_secret() == old(self).spec_secret(),
    {
        self.is_malicious = true;
    }

    /// The sender's secret `delta`.
    pub fn sender_init(&mut self, delta: u128)
        requires
            old(self).wf(),
        ensures
            final(self).wf(),
            final(self).spec_secret() == delta,
            final(self).spec_malicious() == old(self).spec_malicious(),
            final(self).spec_tree_n() == old(self).spec_tree_n(),
            final(self).spec_tree_height() == old(self).spec_tree_height(),
    {
        self.secret_share_x = delta;
    }

    /// The receiver needs no secret.
    pub fn receiver_init(&mut self)
        ensures
            *final(self) == *old(self),
    {
    }

    /// Adds `in_vec[i]` (as an integer) to the receiver's punctured entry of block `i`.
    pub fn set_vec_x(&self, out_vec: &mut [u128], in_vec: &[u128])
        requires
            self.wf(),
            in_vec@.len() >= self.spec_tree_n(),
            old(out_vec)@.len() >= self.spec_tree_n() * self.spec_leave_n(),
            forall|i: int|
                0 <= i < self.spec_tree_n() ==> old(out_vec)@[#[trigger] self.point_of(i)] + in_vec@[i] <= u128::MAX,
        ensures
            final(out_vec)@.len() == old(out_vec)@.len(),
            forall|i: int|
                0 <= i < self.spec_tree_n() ==> final(out_vec)@[#[trigger] self.point_of(i)] == old(out_vec)@[self.point_of(i)]
                    + in_vec@[i],
            forall|k: int|
                0 <= k < old(out_vec)@.len() && !(exists|i: int| 0 <= i < self.spec_tree_n() && k == #[trigger] self.point_of(i))
                    ==> #[trigger] final(out_vec)@[k] == old(out_vec)@[k],
    {
        let ln = self.leave_n;
        proof {
            vstd::arithmetic::power2::lemma_pow2_pos((self.tree_height - 1) as nat);
            assert forall|a: int| 0 <= a < self.tree_n implies #[trigger] self.point_of(a) < self.tree_n * ln
                && self.point_of(a) >= a * ln && self.point_of(a) < a * ln + ln by {
                let ra = (self.item_pos_receiver@[a] as int) % (ln as int);
                assert(a * ln + ra < self.tree_n * ln) by (nonlinear_arith)
                    requires
                        a < self.tree_n,
                        0 <= ra < ln,
                ;
            }
        }
        let mut i: usize = 0;
        while i < self.tree_n
            invariant
                self.wf(),
                ln == self.leave_n,
                ln > 0,
                in_vec@.len() >= self.tree_n,
                out_vec@.len() == old(out_vec)@.len(),
                old(out_vec)@.len() >= self.tree_n * ln,
                i <= self.tree_n,
                forall|a: int| 0 <= a < self.tree_n ==> old(out_vec)@[#[trigger] self.point_of(a)] + in_vec@[a] <= u128::MAX,
                forall|a: int| 0 <= a < self.tree_n ==> #[trigger] self.point_of(a) < self.tree_n * ln,
                forall|a: int| 0 <= a < self.tree_n ==> #[trigger] self.point_of(a) >= a * ln,
                forall|a: int| 0 <= a < self.tree_n ==> #[trigger] self.point_of(a) < a * ln + ln,
                forall|a: int| 0 <= a < i ==> out_vec@[#[trigger] self.point_of(a)] == old(out_vec)@[self.point_of(a)] + in_vec@[a],
                forall|k: int|
                    0 <= k < out_vec@.len() && !(exists|a: int| 0 <= a < i && k == #[trigger] self.point_of(a)) ==> #[trigger] out_vec@[k]
                        == old(out_vec)@[k],
            decreases self.tree_n - i,
        {
            let r = self.item_pos_receiver[i] % ln;
            assert(self.point_of(i as int) < self.tree_n * ln);
            let pt = i * ln + r;
            assert(pt == self.point_of(i as int));
            proof {
                assert forall|a: int| 0 <= a < i implies #[trigger] self.point_of(a) != pt by {
                    assert(self.point_of(a) < a * ln + ln);
                    assert(a * ln + ln <= i * ln) by (nonlinear_arith)
                        requires
                            a < i,
                    ;
                }
                assert(out_vec@[pt as int] == old(out_vec)@[pt as int]);
            }
            let v = out_vec[pt] + in_vec[i];
            out_vec[pt] = v;
            proof {
                assert forall|a: int| 0 <= a < i + 1 implies out_vec@[#[trigger] self.point_of(a)] == old(out_vec)@[self.point_of(a)]
                    + in_vec@[a] by {
                    if a < i {
                        assert(self.point_of(a) < a * ln + ln);
                        assert(a * ln + ln <= i * ln) by (nonlinear_arith)
                            requires
                                a < i,
                        ;
                    }
                }
            }
            i += 1;
        }
    }

    /// Takes the sender's correlation: its first `tree_n + 1` entries.
    pub fn sender_begin(&mut self, triple_y: &[u128])
        requires
            old(self).wf(),
            triple_y@.len() >= old(self).spec_tree_n() + 1,
        ensures
            final(self).wf(),
            final(self).spec_triple_y() == triple_y@.subrange(0, (old(self).spec_tree_n() + 1) as int),
            final(self).spec_tree_n() == old(self).spec_tree_n(),
            final(self).spec_tree_height() == old(self).spec_tree_height(),
            final(self).spec_leave_n() == old(self).spec_leave_n(),
            final(self).spec_secret() == old(self).spec_secret(),
            final(self).spec_malicious() == old(self).spec_malicious(),
    {
        let mut ty: Vec<u128> = Vec::new();
        let mut i: usize = 0;
        while i < self.tree_n + 1
            invariant
                self.wf(),
                triple_y@.len() >= self.tree_n + 1,
                i <= self.tree_n + 1,
                ty@ == triple_y@.subrange(0, i as int),
            decreases self.tree_n + 1 - i,
        {
            ty.push(triple_y[i]);
            i += 1;
        }
        self.triple_y = ty;
    }

    /// Takes the receiver's correlation: the first `tree_n + 1` entries of each part.
    pub fn receiver_begin(&mut self, triple_y: &[u128], triple_z: &[u128])
        requires
            old(self).wf(),
            triple_y@.len() >= old(self).spec_tree_n() + 1,
            triple_z@.len() >= old(self).spec_tree_n() + 1,
        ensures
            final(self).wf(),
            final(self).spec_triple_y() == triple_y@.subrange(0, (old(self).spec_tree_n() + 1) as int),
            final(self).spec_triple_z() == triple_z@.subrange(0, (old(self).spec_tree_n() + 1) as int),
            final(self).spec_tree_n() == old(self).spec_tree_n(),
            final(self).spec_tree_height() == old(self).spec_tree_height(),
            final(self).spec_leave_n() == old(self).spec_leave_n(),
            final(self).spec_malicious() == old(self).spec_malicious(),
    {
        self.sender_begin(triple_y);
        let mut tz: Vec<u128> = Vec::new();
        let mut i: usize = 0;
        while i < self.tree_n + 1
            invariant
                self.wf(),
                triple_z@.len() >= self.tree_n + 1,
                i <= self.tree_n + 1,
                tz@ == triple_z@.subrange(0, i as int),
            decreases self.tree_n + 1 - i,
        {
            tz.push(triple_z[i]);
            i += 1;
        }
        self.triple_z = tz;
    }

    /// The sender's tree `i`: shares the secret masked by `triple_y[i]`, writes the leaves
    /// to block `i` of `sparse_vector`, and (when checking) records the tree's consistency
    /// value for coefficients derived from `seed`.
    pub fn sender_tree(&mut self, i: usize, sender: &mut SpfssSenderF2k, sparse_vector: &mut [u128], seed: u128)
        requires
            old(self).wf(),
            i < old(self).spec_tree_n(),
            old(sender).wf(),
            old(sender).spec_depth() == old(self).spec_tree_height(),
            old(self).spec_leave_n() >= 2,
            old(sparse_vector)@.len() >= old(self).spec_tree_n() * old(self).spec_leave_n(),
        ensures
            final(self).wf(),
            final(sender).wf(),
            final(sender).spec_delta() == old(self).spec_secret(),
            final(sender).spec_tree() == s_leaves(old(sender).spec_seed(), old(sender).spec_depth()),
            final(self).spec_trees()[i as int]@ == final(sender).spec_tree(),
            final(sparse_vector)@.len() == old(sparse_vector)@.len(),
            forall|k: int|
                0 <= k < old(self).spec_leave_n() ==> #[trigger] final(sparse_vector)@[i * old(self).spec_leave_n() + k]
                    == final(sender).spec_tree()[k],
            old(self).spec_malicious() ==> final(self).spec_vw()[i as int] == crate::gf128::inner_product(
                check_coeffs(seed, final(sender).spec_tree().len()),
                final(sender).spec_tree(),
            ),
            final(self).spec_tree_n() == old(self).spec_tree_n(),
            final(self).spec_tree_height() == old(self).spec_tree_height(),
            final(self).spec_leave_n() == old(self).spec_leave_n(),
            final(self).spec_secret() == old(self).spec_secret(),
            final(self).spec_malicious() == old(self).spec_malicious(),
            final(self).spec_triple_y() == old(self).spec_triple_y(),
            final(self).spec_triple_z() == old(self).spec_triple_z(),
    {
        let ln = self.leave_n;
        let mut row = copy_vec(&self.ggm_tree[i]);
        proof {
            sender.lemma_tree_len();
        }
        sender.compute(row.as_mut_slice(), self.secret_share_x, self.triple_y[i]);
        let ghost tree = sender.spec_tree();
        proof {
            sender.lemma_tree_len();
        }
        assert(tree.len() == ln);
        proof {
            assert(i * ln + ln <= self.tree_n * ln) by (nonlinear_arith)
                requires
                    i < self.tree_n,
            ;
        }
        let mut k: usize = 0;
        while k < ln
            invariant
                i < self.tree_n,
                i * ln + ln <= usize::MAX,
                i * ln + ln <= sparse_vector@.len(),
                sparse_vector@.len() == old(sparse_vector)@.len(),
                row@.len() == ln,
                tree.len() == ln,
                forall|t: int| 0 <= t < ln ==> #[trigger] row@[t] == tree[t],
                k <= ln,
                forall|t: int| 0 <= t < k ==> #[trigger] sparse_vector@[i * ln + t] == tree[t],
            decreases ln - k,
        {
            sparse_vector[i * ln + k] = row[k];
            k += 1;
        }
        assert(row@ =~= tree);
        self.ggm_tree.set(i, row);
        if self.is_malicious {
            let mut v: u128 = 0;
            sender.consistency_check_msg_gen(&mut v, seed);
            self.check_vw_buf.set(i, v);
        }
    }

    /// The sender's reply in the batched check, given the receiver's `x*`: the digest of
    /// `delta * x* ^ triple_y[tree_n] ^` the consistency values of all trees.
    pub fn sender_check_hash(&self, x_star: u128) -> (h: [u8; 32])
        requires
            self.wf(),
        ensures
            h@ == blake3_digest(u128_to_le(xor_from(
                gf_mul(self.spec_secret(), x_star) ^ self.spec_triple_y()[self.spec_tree_n() as int],
                self.spec_vw(),
                self.spec_tree_n() as int,
            ))),
    {
        let tmp = gf128mul(self.secret_share_x, x_star) ^ self.triple_y[self.tree_n];
        let mut vb: u128 = tmp;
        let mut i: usize = 0;
        while i < self.tree_n
            invariant
                self.wf(),
                i <= self.tree_n,
                vb == xor_from(tmp, self.check_vw_buf@, i as int),
            decreases self.tree_n - i,
        {
            vb = vb ^ self.check_vw_buf[i];
            i += 1;
        }
        let bytes = u128_to_le_bytes(vb);
        blake3_hash(&bytes)
    }

    /// The receiver's tree `i`, after the receiver took the tree's transfers: records the
    /// punctured leaf, rebuilds the leaves (with `triple_y[i]` on the punctured one) into
    /// block `i` of `sparse_vector_y`, puts `triple_z[i]` at the punctured entry of block `i`
    /// of `sparse_vector_z` (zero elsewhere in the block), and (when checking) records the
    /// tree's consistency values for coefficients derived from `seed`.
    pub fn receiver_tree(
        &mut self,
        i: usize,
        receiver: &mut SpfssRecverF2k,
        sparse_vector_y: &mut [u128],
        sparse_vector_z: &mut [u128],
        seed: u128,
    )
        requires
            old(self).wf(),
            i < old(self).spec_tree_n(),
            old(receiver).wf(),
            old(receiver).spec_depth() == old(self).spec_tree_height(),
            old(sparse_vector_y)@.len() >= old(self).spec_tree_n() * old(self).spec_leave_n(),
            old(sparse_vector_z)@.len() >= old(self).spec_tree_n() * old(self).spec_leave_n(),
        ensures
            final(self).wf(),
            final(receiver).wf(),
            final(self).spec_item_pos()[i as int] == crate::spfss_model::r_path(
                old(receiver).spec_b(),
                (old(receiver).spec_depth() - 1) as nat,
            ),
            final(receiver).spec_tree() == r_output(
                r_leaves(old(receiver).spec_b(), old(receiver).spec_m(), old(receiver).spec_depth()),
                old(receiver).spec_choice_pos() as int,
                old(receiver).spec_share(),
                old(self).spec_triple_y()[i as int],
            ),
            final(self).spec_trees()[i as int]@ == final(receiver).spec_tree(),
            final(sparse_vector_y)@.len() == old(sparse_vector_y)@.len(),
            final(sparse_vector_z)@.len() == old(sparse_vector_z)@.len(),
            forall|k: int|
                0 <= k < old(self).spec_leave_n() ==> #[trigger] final(sparse_vector_y)@[i * old(self).spec_leave_n() + k]
                    == final(receiver).spec_tree()[k],
            forall|k: int|
                0 <= k < old(self).spec_leave_n() ==> #[trigger] final(sparse_vector_z)@[i * old(self).spec_leave_n() + k]
                    == if k == final(self).spec_item_pos()[i as int] {
                    old(self).spec_triple_z()[i as int]
                } else {
                    0u128
                },
            old(self).spec_malicious() ==> {
                &&& final(self).spec_chialpha()[i as int] == check_coeffs(seed, final(receiver).spec_tree().len())[old(
                    receiver,
                ).spec_choice_pos() as int]
                &&& final(self).spec_vw()[i as int] == crate::gf128::inner_product(
                    check_coeffs(seed, final(receiver).spec_tree().len()),
                    final(receiver).spec_tree(),
                )
            },
            final(self).spec_tree_n() == old(self).spec_tree_n(),
            final(self).spec_tree_height() == old(self).spec_tree_height(),
            final(self).spec_leave_n() == old(self).spec_leave_n(),
            final(self).spec_malicious() == old(self).spec_malicious(),
            final(self).spec_triple_y() == old(self).spec_triple_y(),
            final(self).spec_triple_z() == old(self).spec_triple_z(),
            forall|a: int| 0 <= a < old(self).spec_tree_n() && a != i ==> #[trigger] final(self).spec_item_pos()[a]
                == old(self).spec_item_pos()[a],
    {
        let ln = self.leave_n;
        let pos = receiver.get_index();
        self.item_pos_receiver.set(i, pos);
        let mut row = copy_vec(&self.ggm_tree[i]);
        proof {
            receiver.lemma_tree_len();
        }
        receiver.compute(row.as_mut_slice(), self.triple_y[i]);
        proof {
            receiver.lemma_tree_len();
        }
        let ghost tree = receiver.spec_tree();
        proof {
            assert(i * ln + ln <= self.tree_n * ln) by (nonlinear_arith)
                requires
                    i < self.tree_n,
            ;
        }
        let mut k: usize = 0;
        while k < ln
            invariant
                i < self.tree_n,
                i * ln + ln <= usize::MAX,
                pos < ln,
                i * ln + ln <= sparse_vector_y@.len(),
                i * ln + ln <= sparse_vector_z@.len(),
                sparse_vector_y@.len() == old(sparse_vector_y)@.len(),
                sparse_vector_z@.len() == old(sparse_vector_z)@.len(),
                row@ == tree,
                row@.len() == ln,
                k <= ln,
                forall|t: int| 0 <= t < k ==> #[trigger] sparse_vector_y@[i * ln + t] == tree[t],
                forall|t: int| 0 <= t < k ==> #[trigger] sparse_vector_z@[i * ln + t] == 0u128,
            decreases ln - k,
        {
            sparse_vector_y[i * ln + k] = row[k];
            sparse_vector_z[i * ln + k] = 0;
            k += 1;
        }
        sparse_vector_z[i * ln + pos] = self.triple_z[i];
        self.ggm_tree.set(i, row);
        if self.is_malicious {
            let mut ca: u128 = 0;
            let mut w: u128 = 0;
            receiver.consistency_check_msg_gen(&mut ca, &mut w, seed);
            self.check_chialpha_buf.set(i, ca);
            self.check_vw_buf.set(i, w);
        }
    }

    /// The receiver's `x* = triple_z[tree_n] ^ XOR_i chi_alpha[i] * triple_z[i]`.
    pub fn receiver_x_star(&self) -> (x: u128)
        requires
            self.wf(),
        ensures
            x == self.spec_triple_z()[self.spec_tree_n() as int] ^ xor_products(
                0,
                self.spec_chialpha(),
                self.spec_triple_z(),
                self.spec_tree_n() as int,
            ),
    {
        let mut acc: u128 = 0;
        let mut i: usize = 0;
        while i < self.tree_n
            invariant
                self.wf(),
                i <= self.tree_n,
                acc == xor_products(0, self.check_chialpha_buf@, self.triple_z@, i as int),
            decreases self.tree_n - i,
        {
            acc = acc ^ gf128mul(self.check_chialpha_buf[i], self.triple_z[i]);
            i += 1;
        }
        self.triple_z[self.tree_n] ^ acc
    }

    /// Whether the sender's reply `r` is the digest of `triple_y[tree_n] ^` the receiver's
    /// consistency values of all trees.
    pub fn receiver_check(&self, r: &[u8; 32]) -> (ok: bool)
        requires
            self.wf(),
        ensures
            ok == (r@ == blake3_digest(u128_to_le(xor_from(
                self.spec_triple_y()[self.spec_tree_n() as int],
                self.spec_vw(),
                self.spec_tree_n() as int,
            )))),
    {
        let mut va: u128 = self.triple_y[self.tree_n];
        let mut i: usize = 0;
        while i < self.tree_n
            invariant
                self.wf(),
                i <= self.tree_n,
                va == xor_from(self.triple_y@[self.tree_n as int], self.check_vw_buf@, i as int),
            decreases self.tree_n - i,
        {
            va = va ^ self.check_vw_buf[i];
            i += 1;
        }
        let bytes = u128_to_le_bytes(va);
        let h = blake3_hash(&bytes);
        same_digest(&h, r)
    }
}

/// Whether two digests are equal.
fn same_digest(h: &[u8; 32], r: &[u8; 32]) -> (ok: bool)
    ensures
        ok == (h@ == r@),
{
    let mut j: usize = 0;
    while j < 32
        invariant
            j <= 32,
            forall|t: int| 0 <= t < j ==> #[trigger] h@[t] == r@[t],
        decreases 32 - j,
    {
        if h[j] != r[j] {
            assert(h@ != r@) by {
                assert(h@[j as int] != r@[j as int]);
            }
            return false;
        }
        j += 1;
    }
    assert(h@ =~= r@);
    true
}

/// A copy of a vector.
fn copy_vec(v: &Vec<u128>) -> (r: Vec<u128>)
    ensures
        r@ == v@,
{
    let mut r: Vec<u128> = Vec::new();
    let mut j: usize = 0;
    while j < v.len()
        invariant
            j <= v@.len(),
            r@ == v@.subrange(0, j as int),
        decreases v@.len() - j,
    {
        r.push(v[j]);
        j += 1;
    }
    assert(r@ =~= v@);
    r
}


/// The consistency values of one honest tree: with the receiver's tree the sender's but for
/// `y_recv ^ y_send` at its punctured leaf, the receiver's value is the sender's plus
/// `chi[alpha] * (y_recv ^ y_send)`, for the coefficients `chi` derived from `seed`.
pub proof fn lemma_mpfss_tree_values(
    tree_seed: u128,
    depth: nat,
    b: Seq<bool>,
    m: Seq<u128>,
    y_send: u128,
    y_recv: u128,
    seed: u128,
)
    requires
        depth >= 1,
        forall|l: int| 0 <= l < depth - 1 ==> #[trigger] m[l] == s_msg(tree_seed, l as nat, b[l]),
    ensures
        ({
            let sender = s_leaves(tree_seed, depth);
            let alpha = r_path(b, (depth - 1) as nat) as int;
            let share = xor_all(sender, sender.len() as int) ^ y_send;
            let receiver = r_output(r_leaves(b, m, depth), alpha, share, y_recv);
            let chi = check_coeffs(seed, sender.len());
            inner_product(chi, receiver) == inner_product(chi, sender) ^ gf_mul(chi[alpha], y_recv ^ y_send)
        }),
{
    lemma_spfss_correct(tree_seed, depth, b, m, y_send, y_recv);
    let sender = s_leaves(tree_seed, depth);
    let alpha = r_path(b, (depth - 1) as nat) as int;
    let share = xor_all(sender, sender.len() as int) ^ y_send;
    let receiver = r_output(r_leaves(b, m, depth), alpha, share, y_recv);
    let chi = check_coeffs(seed, sender.len());
    crate::spfss_receiver_f2k::lemma_r_path_bound(b, (depth - 1) as nat);
    crate::gf128::lemma_inner_point_change(chi, sender, receiver, alpha, y_recv ^ y_send);
}

/// `xor_from` starts from its initial value: moving a term out of it.
proof fn lemma_xor_from_init(a: u128, t: u128, s: Seq<u128>, n: int)
    ensures
        xor_from(a ^ t, s, n) == xor_from(a, s, n) ^ t,
    decreases n,
{
    if n > 0 {
        lemma_xor_from_init(a, t, s, n - 1);
        lemma_xor4(xor_from(a, s, n - 1), t, s[n - 1], 0u128);
        lemma_xor_facts(xor_from(a, s, n - 1) ^ s[n - 1], t, 0u128);
        lemma_xor_facts(t, s[n - 1], 0u128);
        lemma_xor_facts(s[n - 1], 0u128, 0u128);
    }
}

proof fn lemma_check_values_upto(
    delta: u128,
    z: Seq<u128>,
    vs: Seq<u128>,
    vr: Seq<u128>,
    chialpha: Seq<u128>,
    a: u128,
    k: int,
)
    requires
        0 <= k,
        forall|i: int| 0 <= i < k ==> #[trigger] vr[i] == vs[i] ^ gf_mul(chialpha[i], gf_mul(delta, z[i])),
    ensures
        xor_from(a, vr, k) == xor_from(a, vs, k) ^ gf_mul(delta, xor_products(0u128, chialpha, z, k)),
    decreases k,
{
    if k == 0 {
        lemma_gf_mul_zero(delta);
        lemma_xor_facts(a, 0u128, 0u128);
    } else {
        let k1 = k - 1;
        lemma_check_values_upto(delta, z, vs, vr, chialpha, a, k1);
        let (ca, zk) = (chialpha[k1], z[k1]);
        let p = xor_products(0u128, chialpha, z, k1);
        lemma_gf_mul_distributes(delta, p, gf_mul(ca, zk));
        lemma_gf_mul_associates(ca, delta, zk);
        lemma_gf_mul_commutes(ca, delta);
        lemma_gf_mul_associates(delta, ca, zk);
        lemma_xor4(xor_from(a, vs, k1), gf_mul(delta, p), vs[k1], gf_mul(delta, gf_mul(ca, zk)));
    }
}

/// Completeness of the batched check: when `y_recv[i] = y_send[i] + delta * z[i]` for the
/// check entry `i = n`, and each tree's receiver value is the sender's plus
/// `chi_alpha[i] * delta * z[i]`, the sender's value for the receiver's
/// `x* = z[n] + sum chi_alpha[i] * z[i]` equals the receiver's, so their digests agree.
pub proof fn lemma_mpfss_check_complete(
    n: int,
    delta: u128,
    y_send: Seq<u128>,
    y_recv: Seq<u128>,
    z: Seq<u128>,
    vs: Seq<u128>,
    vr: Seq<u128>,
    chialpha: Seq<u128>,
)
    requires
        0 <= n,
        y_recv[n] == y_send[n] ^ gf_mul(delta, z[n]),
        forall|i: int| 0 <= i < n ==> #[trigger] vr[i] == vs[i] ^ gf_mul(chialpha[i], gf_mul(delta, z[i])),
    ensures
        xor_from(gf_mul(delta, z[n] ^ xor_products(0u128, chialpha, z, n)) ^ y_send[n], vs, n) == xor_from(
            y_recv[n],
            vr,
            n,
        ),
{
    let p = xor_products(0u128, chialpha, z, n);
    lemma_check_values_upto(delta, z, vs, vr, chialpha, y_send[n], n);
    lemma_gf_mul_distributes(delta, z[n], p);
    lemma_xor_facts(gf_mul(delta, z[n] ^ p), y_send[n], 0u128);
    lemma_xor_from_init(y_send[n], gf_mul(delta, z[n] ^ p), vs, n);
    lemma_xor_from_init(y_send[n], gf_mul(delta, z[n]), vr, n);
    lemma_xor4(xor_from(y_send[n], vs, n), gf_mul(delta, p), gf_mul(delta, z[n]), 0u128);
    lemma_xor_facts(gf_mul(delta, z[n]), gf_mul(delta, p), 0u128);
    lemma_xor_facts(xor_from(y_send[n], vs, n), gf_mul(delta, z[n]), gf_mul(delta, p));
    lemma_xor_facts(xor_from(y_send[n], vs, n), gf_mul(delta, p), gf_mul(delta, z[n]));
    lemma_xor_facts(xor_from(y_send[n], vs, n) ^ gf_mul(delta, p), 0u128, 0u128);
}

} // verus!
