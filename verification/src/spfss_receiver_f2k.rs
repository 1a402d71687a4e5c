//! The receiver of the single-point function secret sharing: it rebuilds the sender's GGM
//! tree off one path from one sum per level, and puts the correction on the punctured leaf.
use vstd::prelude::*;
use vstd::arithmetic::power2::{lemma_pow2_strictly_increases, lemma_pow2_unfold, pow2};
use crate::band_system::lemma_xor_cancel;
use crate::gf128::lemma_xor_facts;
use crate::idcf_sender::pow2_usize;
use crate::pre_ot::{xor_msg, OTPre};
use crate::gf128::{gf128mul, gf_mul, inner_product, uni_hash_coeff_gen_f2k, vector_inner_product_f2k};
use crate::hashing::hash_to_seed;
use crate::spfss_model::{
    check_coeffs, parity_xor, r_level, r_leaves, r_output, r_path, r_pre_level, r_sibling, xor_all,
};
use crate::two_key_prp::{expand, ggm_child};

verus! {

/// Two sequences that agree below `n` have the same parity sums below `n`.
pub proof fn lemma_parity_xor_prefix(s1: Seq<u128>, s2: Seq<u128>, parity: int, n: int)
    requires
        forall|j: int| 0 <= j < n ==> #[trigger] s1[j] == s2[j],
    ensures
        parity_xor(s1, parity, n) == parity_xor(s2, parity, n),
    decreases n,
{
    if n > 0 {
        lemma_parity_xor_prefix(s1, s2, parity, n - 1);
    }
}

/// Two sequences that agree below `n` have the same sum below `n`.
pub proof fn lemma_xor_all_prefix(s1: Seq<u128>, s2: Seq<u128>, n: int)
    requires
        forall|j: int| 0 <= j < n ==> #[trigger] s1[j] == s2[j],
    ensures
        xor_all(s1, n) == xor_all(s2, n),
    decreases n,
{
    if n > 0 {
        lemma_xor_all_prefix(s1, s2, n - 1);
    }
}

/// The receiver's state: the tree it rebuilds, the sums and choice bits of the oblivious
/// transfers, the punctured leaf and the sender's sum of all leaves.
pub struct SpfssRecverF2k {
    ggm_tree: Vec<u128>,
    m: Vec<u128>,
    b: Vec<bool>,
    choice_pos: usize,
    depth: usize,
    leave_n: usize,
    share: u128,
}

impl SpfssRecverF2k {
    /// The number of levels.
    pub closed spec fn spec_depth(&self) -> nat {
        self.depth as nat
    }

    /// A well-formed tree has `2^(depth-1)` leaves.
    pub proof fn lemma_tree_len(&self)
        requires
            self.wf(),
        ensures
            self.spec_tree().len() == pow2((self.spec_depth() - 1) as nat),
            self.spec_depth() >= 1,
    {
    }

    /// The rebuilt tree level.
    pub closed spec fn spec_tree(&self) -> Seq<u128> {
        self.ggm_tree@
    }

    /// The received sums, one per level below the root.
    pub closed spec fn spec_m(&self) -> Seq<u128> {
        self.m@
    }

    /// The choice bits, one per level below the root.
    pub closed spec fn spec_b(&self) -> Seq<bool> {
        self.b@
    }

    /// The punctured leaf.
    pub closed spec fn spec_choice_pos(&self) -> nat {
        self.choice_pos as nat
    }

    /// The sender's sum of all leaves (masked), as received.
    pub closed spec fn spec_share(&self) -> u128 {
        self.share
    }

    /// The number of leaves is `2^(depth-1)`, every vector has its size, and the punctured
    /// leaf is the last one.
    pub closed spec fn wf(&self) -> bool {
        &&& self.depth >= 1
        &&& pow2((self.depth - 1) as nat) <= usize::MAX
        &&& self.leave_n == pow2((self.depth - 1) as nat)
        &&& self.ggm_tree@.len() == self.leave_n
        &&& self.m@.len() == self.depth - 1
        &&& self.b@.len() == self.depth - 1
        &&& self.choice_pos == self.leave_n - 1
    }

    /// A receiver for a tree of `depth` levels, with all choice bits and sums zero.
    pub fn new(depth: usize) -> (r: Self)
        requires
            depth >= 1,
            depth - 1 < usize::BITS,
        ensures
            r.wf(),
            r.spec_depth() == depth,
            r.spec_choice_pos() == pow2((depth - 1) as nat) - 1,
            r.spec_tree() == Seq::new(pow2((depth - 1) as nat), |_i: int| 0u128),
            r.spec_m() == Seq::new((depth - 1) as nat, |_i: int| 0u128),
            r.spec_b() == Seq::new((depth - 1) as nat, |_i: int| false),
            r.spec_share() == 0,
    {
        proof {
            vstd::bits::lemma_usize_pow2_no_overflow((depth - 1) as nat);
        }
        let leave_n = pow2_usize(depth - 1);
        let mut ggm_tree: Vec<u128> = Vec::new();
        let mut i: usize = 0;
        while i < leave_n
            invariant
                i <= leave_n,
                ggm_tree@ == Seq::new(i as nat, |_i: int| 0u128),
            decreases leave_n - i,
        {
            ggm_tree.push(0);
            i += 1;
            assert(ggm_tree@ =~= Seq::new(i as nat, |_i: int| 0u128));
        }
        let mut m: Vec<u128> = Vec::new();
        let mut b: Vec<bool> = Vec::new();
        let mut i: usize = 0;
        while i < depth - 1
            invariant
                i <= depth - 1,
                m@ == Seq::new(i as nat, |_i: int| 0u128),
                b@ == Seq::new(i as nat, |_i: int| false),
            decreases depth - 1 - i,
        {
            m.push(0);
            b.push(false);
            i += 1;
            assert(m@ =~= Seq::new(i as nat, |_i: int| 0u128));
            assert(b@ =~= Seq::new(i as nat, |_i: int| false));
        }
        Self { ggm_tree, m, b, choice_pos: leave_n - 1, depth, leave_n, share: 0 }
    }

    /// The position of the receiver's path among the leaves: bit `i` (from the top) is set
    /// where choice bit `i` is clear.
    pub fn get_index(&self) -> (r: usize)
        requires
            self.wf(),
        ensures
            r == r_path(self.spec_b(), (self.spec_depth() - 1) as nat),
            r < pow2((self.spec_depth() - 1) as nat),
    {
        let mut choice_pos: usize = 0;
        let mut i: usize = 0;
        proof {
            vstd::arithmetic::power2::lemma2_to64();
        }
        while i < self.depth - 1
            invariant
                self.wf(),
                i <= self.depth - 1,
                choice_pos == r_path(self.b@, i as nat),
                choice_pos < pow2(i as nat),
            decreases self.depth - 1 - i,
        {
            proof {
                lemma_pow2_unfold((i + 1) as nat);
                if i + 1 < self.depth - 1 {
                    lemma_pow2_strictly_increases((i + 1) as nat, (self.depth - 1) as nat);
                }
                if i + 1 == self.depth - 1 {
                    assert(pow2((i + 1) as nat) == pow2((self.depth - 1) as nat));
                }
            }
            choice_pos = choice_pos * 2;
            if !self.b[i] {
                choice_pos = choice_pos + 1;
            }
            i += 1;
        }
        choice_pos
    }

    /// Takes the sums of the oblivious transfers at slot `s` (padded messages `pad`, opened
    /// with the choice bits) and the sender's masked sum of leaves.
    pub fn recv(&mut self, ot: &OTPre<1>, pad: &Vec<[u128; 1]>, share: u128, s: usize)
        requires
            old(self).wf(),
            ot.wf(),
            s * (old(self).spec_depth() - 1) + (old(self).spec_depth() - 1) <= ot.spec_n(),
            pad@.len() >= 2 * (old(self).spec_depth() - 1),
        ensures
            final(self).wf(),
            final(self).spec_depth() == old(self).spec_depth(),
            final(self).spec_b() == old(self).spec_b(),
            final(self).spec_tree() == old(self).spec_tree(),
            final(self).spec_choice_pos() == old(self).spec_choice_pos(),
            final(self).spec_share() == share,
            forall|i: int|
                0 <= i < old(self).spec_depth() - 1 ==> #[trigger] final(self).spec_m()[i] == xor_msg(
                    ot.keys()[s * (old(self).spec_depth() - 1) + i],
                    pad@[2 * i + if old(self).spec_b()[i] { 1int } else { 0int }]@,
                )[0],
    {
        let len = self.depth - 1;
        let mut receive_data: Vec<[u128; 1]> = Vec::new();
        let mut i: usize = 0;
        while i < len
            invariant
                i <= len,
                receive_data@.len() == i,
            decreases len - i,
        {
            receive_data.push([0u128; 1]);
            i += 1;
        }
        ot.recv(receive_data.as_mut_slice(), pad, self.b.as_slice(), len, s);
        let mut m: Vec<u128> = Vec::new();
        let mut i: usize = 0;
        while i < len
            invariant
                i <= len,
                receive_data@.len() == len,
                m@.len() == i,
                forall|j: int| 0 <= j < i ==> #[trigger] m@[j] == receive_data@[j][0],
            decreases len - i,
        {
            m.push(receive_data[i][0]);
            i += 1;
        }
        self.m = m;
        self.share = share;
    }
}

/// The path stays inside its level.
pub proof fn lemma_r_path_bound(b: Seq<bool>, i: nat)
    ensures
        r_path(b, i) < pow2(i),
    decreases i,
{
    vstd::arithmetic::power2::lemma2_to64();
    if i > 0 {
        lemma_r_path_bound(b, (i - 1) as nat);
        lemma_pow2_unfold(i);
    }
}

/// Level `i` of the receiver's tree has `2^i` nodes.
pub proof fn lemma_r_level_len(b: Seq<bool>, m: Seq<u128>, i: nat)
    ensures
        r_level(b, m, i).len() == pow2(i),
        r_pre_level(b, m, i).len() == pow2(i),
{
    vstd::arithmetic::power2::lemma2_to64();
    if i > 0 {
        assert(r_pre_level(b, m, i).len() == pow2(i));
        lemma_r_path_bound(b, (i - 1) as nat);
        lemma_pow2_unfold(i);
        assert(r_sibling(b, i) < pow2(i));
        assert(r_level(b, m, i).len() == r_pre_level(b, m, i).len());
    }
}

/// The first `n` entries of `v`.
fn prefix(v: &Vec<u128>, n: usize) -> (r: Vec<u128>)
    requires
        n <= v@.len(),
    ensures
        r@ == v@.subrange(0, n as int),
{
    let mut r: Vec<u128> = Vec::new();
    let mut j: usize = 0;
    while j < n
        invariant
            j <= n <= v@.len(),
            r@ == v@.subrange(0, j as int),
        decreases n - j,
    {
        r.push(v[j]);
        j += 1;
    }
    r
}

impl SpfssRecverF2k {
    /// Fills node `to_fill_idx` of level `depth` with the sum of the level's nodes on side
    /// `lr` XOR `sum`; then, below the last level, expands the level into the next one.
    fn layer_recover(&mut self, depth: usize, lr: usize, to_fill_idx: usize, sum: u128)
        requires
            old(self).wf(),
            1 <= depth < old(self).spec_depth(),
            to_fill_idx < pow2(depth as nat),
            lr == to_fill_idx % 2,
        ensures
            final(self).wf(),
            final(self).spec_depth() == old(self).spec_depth(),
            final(self).spec_b() == old(self).spec_b(),
            final(self).spec_m() == old(self).spec_m(),
            final(self).spec_choice_pos() == old(self).spec_choice_pos(),
            final(self).spec_share() == old(self).spec_share(),
            ({
                let t = old(self).spec_tree().update(
                    to_fill_idx as int,
                    parity_xor(old(self).spec_tree(), lr as int, pow2(depth as nat) as int) ^ sum,
                );
                &&& depth + 1 == old(self).spec_depth() ==> final(self).spec_tree() == t
                &&& depth + 1 < old(self).spec_depth() ==> {
                    &&& forall|x: int|
                        0 <= x < pow2(depth as nat + 1) ==> #[trigger] final(self).spec_tree()[x]
                            == ggm_child(x % 2 == 1, t[x / 2])
                    &&& forall|x: int|
                        pow2(depth as nat + 1) <= x < t.len() ==> #[trigger] final(self).spec_tree()[x]
                            == t[x]
                }
            }),
    {
        proof {
            lemma_pow2_unfold(depth as nat + 1);
            if depth + 1 < self.depth {
                lemma_pow2_strictly_increases(depth as nat, (self.depth - 1) as nat);
            }
            if depth + 2 < self.depth {
                lemma_pow2_strictly_increases(depth as nat + 1, (self.depth - 1) as nat);
            }
        }
        let item_n = pow2_usize(depth);
        let mut nodes_sum: u128 = 0;
        let mut j: usize = 0;
        while j < item_n
            invariant
                self.wf(),
                item_n <= self.ggm_tree@.len(),
                j <= item_n,
                nodes_sum == parity_xor(self.ggm_tree@, lr as int, j as int),
            decreases item_n - j,
        {
            if j % 2 == lr {
                nodes_sum = nodes_sum ^ self.ggm_tree[j];
            } else {
                proof {
                    lemma_xor_facts(nodes_sum, 0u128, 0u128);
                }
            }
            j += 1;
        }
        self.ggm_tree.set(to_fill_idx, nodes_sum ^ sum);
        if depth == self.depth - 1 {
            return;
        }
        let ghost t = self.ggm_tree@;
        let parents = prefix(&self.ggm_tree, item_n);
        let left = expand(false, parents.as_slice());
        let right = expand(true, parents.as_slice());
        let mut j: usize = 0;
        while j < item_n
            invariant
                self.wf(),
                2 * item_n <= self.ggm_tree@.len(),
                item_n == pow2(depth as nat),
                self.ggm_tree@.len() == t.len(),
                parents@ == t.subrange(0, item_n as int),
                left@.len() == item_n,
                right@.len() == item_n,
                forall|k: int| 0 <= k < item_n ==> #[trigger] left@[k] == ggm_child(false, parents@[k]),
                forall|k: int| 0 <= k < item_n ==> #[trigger] right@[k] == ggm_child(true, parents@[k]),
                self.depth == old(self).depth,
                self.b == old(self).b,
                self.m == old(self).m,
                self.choice_pos == old(self).choice_pos,
                self.share == old(self).share,
                j <= item_n,
                forall|x: int| 0 <= x < 2 * j ==> #[trigger] self.ggm_tree@[x] == ggm_child(x % 2 == 1, t[x / 2]),
                forall|x: int| 2 * j <= x < t.len() ==> #[trigger] self.ggm_tree@[x] == t[x],
            decreases item_n - j,
        {
            self.ggm_tree.set(2 * j, left[j]);
            self.ggm_tree.set(2 * j + 1, right[j]);
            proof {
                assert forall|x: int| 0 <= x < 2 * (j + 1) implies #[trigger] self.ggm_tree@[x] == ggm_child(
                    x % 2 == 1,
                    t[x / 2],
                ) by {
                    if x == 2 * j {
                        assert(x / 2 == j);
                    } else if x == 2 * j + 1 {
                        assert(x / 2 == j);
                    }
                }
            }
            j += 1;
        }
    }

    /// Rebuilds the tree level by level: the two children of the path node are zeroed, the
    /// sibling of the path node is recovered from the chosen sum, and the level is expanded.
    fn reconstruct_tree(&mut self)
        requires
            old(self).wf(),
        ensures
            final(self).wf(),
            final(self).spec_depth() == old(self).spec_depth(),
            final(self).spec_b() == old(self).spec_b(),
            final(self).spec_m() == old(self).spec_m(),
            final(self).spec_choice_pos() == old(self).spec_choice_pos(),
            final(self).spec_share() == old(self).spec_share(),
            old(self).spec_depth() >= 2 ==> forall|x: int|
                0 <= x < final(self).spec_tree().len() ==> #[trigger] final(self).spec_tree()[x]
                    == r_level(old(self).spec_b(), old(self).spec_m(), (old(self).spec_depth() - 1) as nat)[x],
            old(self).spec_depth() == 1 ==> final(self).spec_tree() == old(self).spec_tree(),
    {
        let ghost b = self.b@;
        let ghost m = self.m@;
        let mut to_fill_idx: usize = 0;
        let mut i: usize = 1;
        proof {
            vstd::arithmetic::power2::lemma2_to64();
        }
        while i < self.depth
            invariant
                self.wf(),
                self.depth == old(self).depth,
                self.b@ == b,
                self.m@ == m,
                b == old(self).spec_b(),
                m == old(self).spec_m(),
                self.choice_pos == old(self).choice_pos,
                self.share == old(self).share,
                1 <= i <= self.depth,
                to_fill_idx == r_path(b, (i - 1) as nat),
                to_fill_idx < pow2((i - 1) as nat),
                self.depth == 1 ==> self.ggm_tree@ == old(self).ggm_tree@,
                2 <= i < self.depth ==> forall|x: int|
                    0 <= x < pow2(i as nat) && x / 2 != r_path(b, (i - 1) as nat) ==> #[trigger] self.ggm_tree@[x]
                        == r_pre_level(b, m, i as nat)[x],
                2 <= i == self.depth ==> forall|x: int|
                    0 <= x < pow2((i - 1) as nat) ==> #[trigger] self.ggm_tree@[x] == r_level(b, m, (i - 1) as nat)[x],
            decreases self.depth - i,
        {
            proof {
                lemma_pow2_unfold(i as nat);
                if i < self.depth - 1 {
                    lemma_pow2_strictly_increases(i as nat, (self.depth - 1) as nat);
                }
                vstd::arithmetic::power2::lemma2_to64();
            }
            let ghost p = r_path(b, (i - 1) as nat);
            to_fill_idx = to_fill_idx * 2;
            self.ggm_tree.set(to_fill_idx, 0);
            self.ggm_tree.set(to_fill_idx + 1, 0);
            let ghost pre = r_pre_level(b, m, i as nat);
            proof {
                assert forall|x: int| 0 <= x < pow2(i as nat) implies #[trigger] self.ggm_tree@[x] == pre[x] by {
                    if x / 2 == p {
                        assert(x == 2 * p || x == 2 * p + 1);
                    }
                }
            }
            let ghost tree_pre = self.ggm_tree@;
            let ghost sib = r_sibling(b, i as nat);
            let bit = self.b[i - 1];
            let sum = self.m[i - 1];
            proof {
                assert(sum == m[i - 1]);
                assert(bit == b[i - 1]);
            }
            let ghost t = tree_pre.update(
                sib as int,
                parity_xor(tree_pre, (sib % 2) as int, pow2(i as nat) as int) ^ m[i - 1],
            );
            if !bit {
                assert(to_fill_idx == sib && sib % 2 == 0);
                self.layer_recover(i, 0, to_fill_idx, sum);
                proof {
                    if i + 1 < self.depth {
                        assert forall|x: int| 0 <= x < pow2(i as nat + 1) implies #[trigger] self.ggm_tree@[x]
                            == ggm_child(x % 2 == 1, t[x / 2]) by {
                            assert(self.spec_tree()[x] == ggm_child(x % 2 == 1, t[x / 2]));
                        }
                    } else {
                        assert(self.ggm_tree@ == t);
                    }
                }
                to_fill_idx = to_fill_idx + 1;
            } else {
                assert(to_fill_idx + 1 == sib && sib % 2 == 1);
                self.layer_recover(i, 1, to_fill_idx + 1, sum);
                proof {
                    if i + 1 < self.depth {
                        assert forall|x: int| 0 <= x < pow2(i as nat + 1) implies #[trigger] self.ggm_tree@[x]
                            == ggm_child(x % 2 == 1, t[x / 2]) by {
                            assert(self.spec_tree()[x] == ggm_child(x % 2 == 1, t[x / 2]));
                        }
                    } else {
                        assert(self.ggm_tree@ == t);
                    }
                }
            }
            proof {
                let lev = r_level(b, m, i as nat);
                lemma_parity_xor_prefix(tree_pre, pre, (sib % 2) as int, pow2(i as nat) as int);
                lemma_r_path_bound(b, (i - 1) as nat);
                lemma_r_level_len(b, m, i as nat);
                assert forall|y: int| 0 <= y < pow2(i as nat) implies #[trigger] t[y] == lev[y] by {
                }
                if i + 1 < self.depth {
                    lemma_pow2_unfold(i as nat + 1);
                    if i + 2 < self.depth {
                        lemma_pow2_strictly_increases(i as nat + 1, (self.depth - 1) as nat);
                    }
                    let nxt = r_pre_level(b, m, (i + 1) as nat);
                    assert(nxt == Seq::new(
                        pow2((i + 1) as nat),
                        |x: int|
                            if x / 2 == r_path(b, i as nat) {
                                0u128
                            } else {
                                ggm_child(x % 2 == 1, lev[x / 2])
                            },
                    ));
                    assert forall|x: int|
                        0 <= x < pow2((i + 1) as nat) && x / 2 != r_path(b, i as nat) implies #[trigger] self.ggm_tree@[x]
                            == r_pre_level(b, m, (i + 1) as nat)[x] by {
                        assert(self.ggm_tree@[x] == ggm_child(x % 2 == 1, t[x / 2]));
                        assert(t[x / 2] == lev[x / 2]);
                        assert(nxt[x] == ggm_child(x % 2 == 1, lev[x / 2]));
                    }
                } else {
                    assert forall|x: int| 0 <= x < pow2(i as nat) implies #[trigger] self.ggm_tree@[x] == lev[x] by {
                        assert(t[x] == lev[x]);
                    }
                }
            }
            i += 1;
        }
    }

    /// The receiver's leaves: the rebuilt tree, with the punctured leaf set to
    /// `delta2 ^ share ^` the XOR of all other leaves. Also written to `ggm_tree_mem`.
    pub fn compute(&mut self, ggm_tree_mem: &mut [u128], delta2: u128)
        requires
            old(self).wf(),
            old(ggm_tree_mem)@.len() == old(self).spec_tree().len(),
        ensures
            final(self).wf(),
            final(self).spec_depth() == old(self).spec_depth(),
            final(self).spec_b() == old(self).spec_b(),
            final(self).spec_m() == old(self).spec_m(),
            final(self).spec_choice_pos() == old(self).spec_choice_pos(),
            final(self).spec_share() == old(self).spec_share(),
            final(ggm_tree_mem)@ == r_output(
                r_leaves(old(self).spec_b(), old(self).spec_m(), old(self).spec_depth()),
                old(self).spec_choice_pos() as int,
                old(self).spec_share(),
                delta2,
            ),
            final(self).spec_tree() == final(ggm_tree_mem)@,
    {
        let ghost leaves = r_leaves(self.b@, self.m@, self.depth as nat);
        self.reconstruct_tree();
        proof {
            vstd::arithmetic::power2::lemma2_to64();
            if self.depth >= 2 {
                lemma_r_level_len(old(self).b@, old(self).m@, (self.depth - 1) as nat);
            }
            assert(leaves.len() == self.leave_n);
            assert forall|x: int| 0 <= x < self.leave_n && x != self.choice_pos implies #[trigger] self.spec_tree()[x]
                == leaves[x] by {}
        }
        let ghost tr = self.spec_tree();
        let pos = self.choice_pos;
        self.ggm_tree.set(pos, 0);
        let ghost z = leaves.update(pos as int, 0u128);
        proof {
            assert forall|x: int| 0 <= x < self.leave_n implies #[trigger] self.ggm_tree@[x] == z[x] by {
                if x != pos {
                    assert(tr[x] == leaves[x]);
                }
            }
            assert(self.ggm_tree@ =~= z);
        }
        let mut nodes_sum: u128 = 0;
        let mut j: usize = 0;
        while j < self.leave_n
            invariant
                self.wf(),
                self.ggm_tree@ == z,
                j <= self.leave_n,
                nodes_sum == xor_all(z, j as int),
            decreases self.leave_n - j,
        {
            nodes_sum = nodes_sum ^ self.ggm_tree[j];
            j += 1;
        }
        nodes_sum = nodes_sum ^ self.share;
        self.ggm_tree.set(pos, delta2 ^ nodes_sum);
        proof {
            assert(self.ggm_tree@ =~= r_output(leaves, pos as int, self.share, delta2));
        }
        let mut j: usize = 0;
        while j < self.leave_n
            invariant
                self.wf(),
                ggm_tree_mem@.len() == self.leave_n,
                j <= self.leave_n,
                forall|k: int| 0 <= k < j ==> #[trigger] ggm_tree_mem@[k] == self.ggm_tree@[k],
            decreases self.leave_n - j,
        {
            ggm_tree_mem[j] = self.ggm_tree[j];
            j += 1;
        }
        proof {
            assert(ggm_tree_mem@ =~= self.ggm_tree@);
        }
    }
}

/// The `n` consistency-check coefficients derived from `v`.
pub(crate) fn coeffs_from(v: u128, n: usize) -> (r: Vec<u128>)
    ensures
        r@ == check_coeffs(v, n as nat),
{
    let mut chi: Vec<u128> = Vec::new();
    let mut i: usize = 0;
    while i < n
        invariant
            i <= n,
            chi@.len() == i,
        decreases n - i,
    {
        chi.push(0);
        i += 1;
    }
    let seed = hash_to_seed(v);
    uni_hash_coeff_gen_f2k(chi.as_mut_slice(), seed, n);
    assert(chi@ =~= check_coeffs(v, n as nat));
    chi
}

impl SpfssRecverF2k {
    /// The receiver's half of the consistency check: `x* = chi[alpha] * beta ^ beta` to send,
    /// and `W = <chi, leaves> ^ z` to compare with the sender's answer, for coefficients
    /// derived from the received masked sum.
    pub fn consistency_check(&self, z: u128, beta: u128) -> (r: (u128, u128))
        requires
            self.wf(),
        ensures
            r.0 == gf_mul(check_coeffs(self.spec_share(), self.spec_tree().len())[self.spec_choice_pos() as int], beta) ^ beta,
            r.1 == inner_product(check_coeffs(self.spec_share(), self.spec_tree().len()), self.spec_tree()) ^ z,
    {
        let chi = coeffs_from(self.share, self.leave_n);
        let x_star = gf128mul(chi[self.choice_pos], beta) ^ beta;
        let w = vector_inner_product_f2k(chi.as_slice(), self.ggm_tree.as_slice()) ^ z;
        (x_star, w)
    }

    /// The receiver's verdict on the sender's reply `v`: whether it equals the receiver's
    /// `w = <chi, tree> ^ z`. The protocol stops when it does not.
    pub fn consistency_check_accepts(&self, z: u128, beta: u128, v: u128) -> (ok: bool)
        requires
            self.wf(),
        ensures
            ok == (v == inner_product(check_coeffs(self.spec_share(), self.spec_tree().len()), self.spec_tree()) ^ z),
    {
        let (_x_star, w) = self.consistency_check(z, beta);
        w == v
    }

    /// The receiver's message for the batched consistency check with coefficients derived
    /// from `seed`: the coefficient at the punctured leaf and `<chi, leaves>`.
    pub fn consistency_check_msg_gen(&self, chi_alpha: &mut u128, w: &mut u128, seed: u128)
        requires
            self.wf(),
        ensures
            *final(chi_alpha) == check_coeffs(seed, self.spec_tree().len())[self.spec_choice_pos() as int],
            *final(w) == inner_product(check_coeffs(seed, self.spec_tree().len()), self.spec_tree()),
    {
        let chi = coeffs_from(seed, self.leave_n);
        *chi_alpha = chi[self.choice_pos];
        *w = vector_inner_product_f2k(chi.as_slice(), self.ggm_tree.as_slice());
    }
}


/// Completeness of the single-tree check: when the receiver's tree is the sender's but for
/// `delta * beta` at its punctured leaf `alpha`, and `z = y + delta * beta`, the receiver's
/// `w = <chi, r_tree> + z` equals the sender's `v = <chi, s_tree> + y + delta * x*` for the
/// receiver's `x* = chi[alpha] * beta + beta`.
pub proof fn lemma_spfss_check_complete(
    chi: Seq<u128>,
    s_tree: Seq<u128>,
    r_tree: Seq<u128>,
    alpha: int,
    delta: u128,
    beta: u128,
    y: u128,
    z: u128,
)
    requires
        s_tree.len() == chi.len(),
        r_tree.len() == chi.len(),
        0 <= alpha < chi.len(),
        forall|x: int|
            0 <= x < chi.len() ==> #[trigger] (r_tree[x] ^ s_tree[x]) == if x == alpha {
                gf_mul(delta, beta)
            } else {
                0u128
            },
        z == y ^ gf_mul(delta, beta),
    ensures
        inner_product(chi, r_tree) ^ z == inner_product(chi, s_tree) ^ (y ^ gf_mul(
            delta,
            gf_mul(chi[alpha], beta) ^ beta,
        )),
{
    let ca = chi[alpha];
    let db = gf_mul(delta, beta);
    let ps = inner_product(chi, s_tree);
    crate::gf128::lemma_inner_point_change(chi, s_tree, r_tree, alpha, db);
    crate::gf128::lemma_gf_mul_distributes(delta, gf_mul(ca, beta), beta);
    crate::gf128::lemma_gf_mul_associates(ca, delta, beta);
    crate::gf128::lemma_gf_mul_commutes(ca, delta);
    crate::gf128::lemma_gf_mul_associates(delta, ca, beta);
    let t = gf_mul(delta, gf_mul(ca, beta));
    assert(gf_mul(ca, db) == t);
    assert(gf_mul(delta, gf_mul(ca, beta) ^ beta) == t ^ db);
    assert(inner_product(chi, r_tree) == ps ^ t);
    assert((ps ^ t) ^ (y ^ db) == ps ^ (y ^ (t ^ db))) by (bit_vector);
}

/// The SPFSS step functions agree. Let the sender have run `compute` with mask `gamma`
/// (so that its leaves, sums and secret sum are what `compute` ensures) and `send` over its
/// OTs, giving the pads `pad`; let the OTs be correlated (the receiver's key of OT `t` is
/// the sender's key its random bit `c[i]` selects, and the sender holds the announced bit
/// `b[i] ^ c[i]`); and let the receiver have run `recv` on those pads with the sender's
/// sum, its punctured leaf being the leaf its choice bits lead to. Then the tree that the
/// receiver's `compute` with `delta2` writes is the sender's tree except at the punctured
/// leaf, where the two differ by `delta2 ^ gamma`.
pub proof fn lemma_spfss_steps_agree(
    sender: crate::spfss_sender_f2k::SpfssSenderF2k,
    receiver: SpfssRecverF2k,
    ot_s: OTPre<1>,
    ot_r: OTPre<1>,
    pad: Seq<[u128; 1]>,
    c: Seq<bool>,
    s: int,
    gamma: u128,
    delta2: u128,
)
    requires
        sender.wf(),
        receiver.wf(),
        ot_s.wf(),
        ot_r.wf(),
        receiver.spec_depth() == sender.spec_depth(),
        0 <= s,
        s * (sender.spec_depth() - 1) + (sender.spec_depth() - 1) <= ot_s.spec_n(),
        s * (sender.spec_depth() - 1) + (sender.spec_depth() - 1) <= ot_r.spec_n(),
        sender.spec_tree() == crate::spfss_model::s_leaves(sender.spec_seed(), sender.spec_depth()),
        sender.spec_secret_sum() == xor_all(sender.spec_tree(), sender.spec_tree().len() as int) ^ gamma,
        forall|h: int|
            0 <= h < crate::spfss_sender_f2k::sum_levels(sender.spec_depth()) ==> #[trigger] sender.spec_m0()[h]
                == parity_xor(crate::spfss_model::s_level(sender.spec_seed(), (h + 1) as nat), 0, pow2((h + 1) as nat) as int),
        forall|h: int|
            0 <= h < crate::spfss_sender_f2k::sum_levels(sender.spec_depth()) ==> #[trigger] sender.spec_m1()[h]
                == parity_xor(crate::spfss_model::s_level(sender.spec_seed(), (h + 1) as nat), 1, pow2((h + 1) as nat) as int),
        pad.len() >= 2 * (sender.spec_depth() - 1),
        c.len() >= sender.spec_depth() - 1,
        forall|i: int|
            0 <= i < sender.spec_depth() - 1 ==> #[trigger] pad[2 * i]@ == crate::pre_ot::pad0(
                seq![sender.spec_m0()[i]],
                ot_s.keys()[s * (sender.spec_depth() - 1) + i],
                ot_s.keys()[s * (sender.spec_depth() - 1) + i + ot_s.spec_n()],
                ot_s.spec_bits()[s * (sender.spec_depth() - 1) + i],
            ),
        forall|i: int|
            0 <= i < sender.spec_depth() - 1 ==> #[trigger] pad[2 * i + 1]@ == crate::pre_ot::pad1(
                seq![sender.spec_m1()[i]],
                ot_s.keys()[s * (sender.spec_depth() - 1) + i],
                ot_s.keys()[s * (sender.spec_depth() - 1) + i + ot_s.spec_n()],
                ot_s.spec_bits()[s * (sender.spec_depth() - 1) + i],
            ),
        forall|i: int|
            0 <= i < sender.spec_depth() - 1 ==> #[trigger] ot_r.keys()[s * (sender.spec_depth() - 1) + i] == if c[i] {
                ot_s.keys()[s * (sender.spec_depth() - 1) + i + ot_s.spec_n()]
            } else {
                ot_s.keys()[s * (sender.spec_depth() - 1) + i]
            },
        forall|i: int|
            0 <= i < sender.spec_depth() - 1 ==> #[trigger] ot_s.spec_bits()[s * (sender.spec_depth() - 1) + i] == (
            receiver.spec_b()[i] != c[i]),
        receiver.spec_share() == sender.spec_secret_sum(),
        forall|i: int|
            0 <= i < sender.spec_depth() - 1 ==> #[trigger] receiver.spec_m()[i] == xor_msg(
                ot_r.keys()[s * (sender.spec_depth() - 1) + i],
                pad[2 * i + if receiver.spec_b()[i] { 1int } else { 0int }]@,
            )[0],
        receiver.spec_choice_pos() == r_path(receiver.spec_b(), (sender.spec_depth() - 1) as nat),
    ensures
        ({
            let out = r_output(
                r_leaves(receiver.spec_b(), receiver.spec_m(), receiver.spec_depth()),
                receiver.spec_choice_pos() as int,
                receiver.spec_share(),
                delta2,
            );
            &&& out.len() == sender.spec_tree().len()
            &&& forall|x: int|
                0 <= x < out.len() ==> #[trigger] (out[x] ^ sender.spec_tree()[x]) == if x == receiver.spec_choice_pos() {
                    delta2 ^ gamma
                } else {
                    0u128
                }
        }),
{
    let d = sender.spec_depth();
    let seed = sender.spec_seed();
    let l = d - 1;
    let b = receiver.spec_b();
    let m = receiver.spec_m();
    sender.lemma_tree_len();
    ot_s.lemma_keys_shape();
    ot_r.lemma_keys_shape();
    assert forall|i: int| 0 <= i < d - 1 implies #[trigger] m[i] == crate::spfss_model::s_msg(seed, i as nat, b[i]) by {
        let t = s * l + i;
        let k0 = ot_s.keys()[t];
        let k1 = ot_s.keys()[t + ot_s.spec_n()];
        let m0 = seq![sender.spec_m0()[i]];
        let m1 = seq![sender.spec_m1()[i]];
        assert(0 <= t < ot_s.spec_n());
        assert(k0.len() == 1 && k1.len() == 1);
        crate::pre_ot::lemma_ot_transfer(m0, m1, k0, k1, c[i], b[i]);
        assert(i < crate::spfss_sender_f2k::sum_levels(d));
        if b[i] {
            assert(pad[2 * i + 1]@ == crate::pre_ot::pad1(m1, k0, k1, ot_s.spec_bits()[t]));
        } else {
            assert(pad[2 * i]@ == crate::pre_ot::pad0(m0, k0, k1, ot_s.spec_bits()[t]));
        }
    }
    crate::spfss_model::lemma_spfss_correct(seed, d, b, m, gamma, delta2);
}

/// The consistency check of the step functions: when the receiver's tree is the sender's
/// but for `delta * beta` at the punctured leaf (as `lemma_spfss_steps_agree` gives it for
/// `delta2 = gamma ^ delta * beta`) and both derive the coefficients from the same sum, the
/// receiver's `w` from `consistency_check(z, beta)` equals the sender's reply from
/// `consistency_check(y, x_star)` on the receiver's `x_star` exactly when
/// `z == y ^ delta * beta`.
pub proof fn lemma_spfss_check_steps_agree(
    sender: crate::spfss_sender_f2k::SpfssSenderF2k,
    receiver: SpfssRecverF2k,
    beta: u128,
    y: u128,
    z: u128,
)
    requires
        sender.wf(),
        receiver.wf(),
        receiver.spec_tree().len() == sender.spec_tree().len(),
        receiver.spec_share() == sender.spec_secret_sum(),
        forall|x: int|
            0 <= x < sender.spec_tree().len() ==> #[trigger] (receiver.spec_tree()[x] ^ sender.spec_tree()[x]) == if x
                == receiver.spec_choice_pos() {
                gf_mul(sender.spec_delta(), beta)
            } else {
                0u128
            },
    ensures
        ({
            let chi = check_coeffs(receiver.spec_share(), receiver.spec_tree().len());
            let x_star = gf_mul(chi[receiver.spec_choice_pos() as int], beta) ^ beta;
            let w = inner_product(chi, receiver.spec_tree()) ^ z;
            let v = inner_product(check_coeffs(sender.spec_secret_sum(), sender.spec_tree().len()), sender.spec_tree())
                ^ (y ^ gf_mul(sender.spec_delta(), x_star));
            (w == v) <==> (z == y ^ gf_mul(sender.spec_delta(), beta))
        }),
{
    let n = receiver.spec_tree().len();
    receiver.lemma_tree_len();
    vstd::arithmetic::power2::lemma_pow2_pos((receiver.spec_depth() - 1) as nat);
    let chi = check_coeffs(receiver.spec_share(), n);
    let alpha = receiver.spec_choice_pos() as int;
    let db = gf_mul(sender.spec_delta(), beta);
    let z0 = y ^ db;
    assert(chi.len() == n);
    lemma_spfss_check_complete(chi, sender.spec_tree(), receiver.spec_tree(), alpha, sender.spec_delta(), beta, y, z0);
    let ip = inner_product(chi, receiver.spec_tree());
    lemma_xor_facts(ip, z, ip);
    lemma_xor_facts(ip, z0, ip);
    lemma_xor_facts(ip, ip, z);
    lemma_xor_facts(ip, ip, z0);
    lemma_xor_facts(z, 0u128, 0u128);
    lemma_xor_facts(z0, 0u128, 0u128);
    lemma_xor_facts(0u128, z, 0u128);
    lemma_xor_facts(0u128, z0, 0u128);
}

} // verus!
