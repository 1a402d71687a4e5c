//! Receiver side of the incremental distributed comparison function (IDCF).
//!
//! The receiver holds, for each of `times` instances, the bits of its input `alpha`
//! (`alpha[h]` for levels `1..=depth`, most significant first) and the 48-byte OT
//! message it obtained for each level.  From these it rebuilds the sender's tree off the
//! path of `alpha` and outputs its share of every node.
use crate::aes_prf::{aes128_encrypt_blocks, fixed_key, fixed_key_block};
use crate::bytes::{
    lemma_le_roundtrip_bytes, lemma_le_xor, u128_from_le_at, u128_to_le, u128_to_le_bytes,
    xor_block, xor_bytes,
};
use crate::idcf_model::{
    lemma_idcf_shares_compare, lemma_msg_part_of_bytes, messages_match, msg_bytes, msg_part, path_node, psum_except,
    r_base, r_children, r_children_impl, r_impl, r_share, s_msg, s_share,
};
use crate::idcf_sender::{node_index, pow2_usize, write_path_shares, zero_rows};
use vstd::arithmetic::power2::{lemma_pow2_strictly_increases, lemma_pow2_unfold, pow2};
use vstd::prelude::*;

verus! {

pub struct IDCFReceiver {
    depth: usize,
    alpha: Vec<Vec<bool>>,
    base_ggm_tree: Vec<Vec<u128>>,
    implementation_values: Vec<Vec<u128>>,
    m: Vec<Vec<[u8; 48]>>,
    times: usize,
}

/// Row-major indices of earlier rows lie below the start of row `t`.
pub proof fn lemma_row_major(t2: int, h2: int, t: int, n: int)
    requires
        0 <= t2 < t,
        0 <= h2 < n,
    ensures
        t2 * n + h2 < t * n,
        0 <= t2 * n + h2,
{
    assert(t2 * n + h2 < t * n) by (nonlinear_arith)
        requires
            0 <= t2 < t,
            0 <= h2 < n,
    ;
    assert(0 <= t2 * n + h2) by (nonlinear_arith)
        requires
            0 <= t2,
            0 <= h2,
            0 <= n,
    ;
}

/// Bit `i` (least significant first) of the little-endian number `b`.
pub open spec fn byte_bit(b: Seq<u8>, i: int) -> bool {
    (b[i / 8] >> ((i % 8) as u8)) & 1u8 == 1u8
}

/// Writes the parts of a 3-part message as 48 bytes, each part little-endian.
pub fn convert_u128_to_u8(input: &[u128; 3]) -> (r: [u8; 48])
    ensures
        r@ == u128_to_le(input[0]) + u128_to_le(input[1]) + u128_to_le(input[2]),
{
    crate::bytes::concat_le3(input[0], input[1], input[2])
}

/// XOR of `f(i)` over `i < n` with `i != e`, with `f(i)` given as `vals[i]`.
fn xor_all_but(vals: &Vec<u128>, n: usize, e: usize, Ghost(f): Ghost<spec_fn(nat) -> u128>) -> (r: u128)
    requires
        n <= vals@.len(),
        forall|i: int| 0 <= i < n ==> #[trigger] vals@[i] == f(i as nat),
    ensures
        r == psum_except(f, n as nat, e as nat),
{
    let mut acc: u128 = 0;
    let mut i: usize = 0;
    while i < n
        invariant
            i <= n,
            n <= vals@.len(),
            forall|j: int| 0 <= j < n ==> #[trigger] vals@[j] == f(j as nat),
            acc == psum_except(f, i as nat, e as nat),
        decreases n - i,
    {
        if i != e {
            acc = acc ^ vals[i];
        }
        i += 1;
    }
    acc
}

impl IDCFReceiver {
    /// Number of levels below the root.
    pub closed spec fn spec_depth(&self) -> nat {
        self.depth as nat
    }

    /// Number of instances.
    pub closed spec fn spec_times(&self) -> nat {
        self.times as nat
    }

    /// The path bits of instance `t` (`alpha_of(t)[h]` for level `h`).
    pub closed spec fn alpha_of(&self, t: int) -> Seq<bool> {
        self.alpha@[t]@
    }

    /// The messages of instance `t` (`msgs_of(t)[h]` for level `h`).
    pub closed spec fn msgs_of(&self, t: int) -> Seq<Seq<u8>> {
        self.m@[t]@.map_values(|a: [u8; 48]| a@)
    }

    /// The value the receiver holds at the root of the tree of instance `t`.
    pub closed spec fn root_of(&self, t: int) -> u128 {
        self.base_ggm_tree@[t]@[0]
    }

    /// Node `x` of level `h` of the rebuilt base tree of instance `t`.
    pub closed spec fn base_node(&self, t: int, h: nat, x: nat) -> u128 {
        self.base_ggm_tree@[t]@[node_index(h, x)]
    }

    /// Implementation value of node `x` of level `h` of instance `t`.
    pub closed spec fn impl_node(&self, t: int, h: nat, x: nat) -> u128 {
        self.implementation_values@[t]@[node_index(h, x)]
    }

    /// Every instance but `time` holds the same base tree and implementation values in
    /// `self` as in `other`.
    pub open spec fn other_trees_unchanged(&self, other: &Self, time: int) -> bool {
        &&& forall|t: int, h: nat, x: nat|
            0 <= t < other.spec_times() && t != time ==> #[trigger] self.base_node(t, h, x)
                == other.base_node(t, h, x)
        &&& forall|t: int, h: nat, x: nat|
            0 <= t < other.spec_times() && t != time ==> #[trigger] self.impl_node(t, h, x)
                == other.impl_node(t, h, x)
    }

    /// Shapes of the per-instance buffers.
    pub closed spec fn wf(&self) -> bool {
        &&& self.alpha@.len() == self.times
        &&& self.base_ggm_tree@.len() == self.times
        &&& self.implementation_values@.len() == self.times
        &&& self.m@.len() == self.times
        &&& self.depth + 1 < usize::BITS
        &&& pow2(self.depth as nat + 1) <= usize::MAX
        &&& forall|t: int|
            0 <= t < self.times ==> #[trigger] self.base_ggm_tree@[t]@.len() == pow2(
                self.depth as nat + 1,
            )
        &&& forall|t: int|
            0 <= t < self.times ==> #[trigger] self.implementation_values@[t]@.len() == pow2(
                self.depth as nat + 1,
            )
        &&& forall|t: int| 0 <= t < self.times ==> #[trigger] self.alpha@[t]@.len() == self.depth + 1
        &&& forall|t: int| 0 <= t < self.times ==> #[trigger] self.m@[t]@.len() == self.depth + 1
    }

    /// Sets up `times` instances of trees with `depth` levels below the root.
    pub fn new(depth: usize, times: usize) -> (r: Self)
        requires
            depth + 1 < usize::BITS,
        ensures
            r.wf(),
            r.spec_depth() == depth,
            r.spec_times() == times,
            forall|t: int| 0 <= t < times ==> #[trigger] r.root_of(t) == 0u128,
            forall|t: int, h: int|
                0 <= t < times && 0 <= h <= depth ==> !#[trigger] r.alpha_of(t)[h],
    {
        proof {
            vstd::bits::lemma_usize_pow2_no_overflow(depth as nat + 1);
            vstd::arithmetic::power2::lemma_pow2_pos(depth as nat + 1);
        }
        let ggm_tree_size = pow2_usize(depth + 1);
        let mut alpha: Vec<Vec<bool>> = Vec::new();
        let mut m: Vec<Vec<[u8; 48]>> = Vec::new();
        let mut t: usize = 0;
        while t < times
            invariant
                t <= times,
                depth + 1 < usize::BITS,
                alpha@.len() == t,
                m@.len() == t,
                forall|k: int| 0 <= k < t ==> #[trigger] alpha@[k]@.len() == depth + 1,
                forall|k: int, h: int| 0 <= k < t && 0 <= h <= depth ==> !#[trigger] alpha@[k]@[h],
                forall|k: int| 0 <= k < t ==> #[trigger] m@[k]@.len() == depth + 1,
            decreases times - t,
        {
            let mut row: Vec<bool> = Vec::new();
            let mut mrow: Vec<[u8; 48]> = Vec::new();
            let mut i: usize = 0;
            while i <= depth
                invariant
                    i <= depth + 1,
                    depth + 1 < usize::BITS,
                    row@.len() == i,
                    mrow@.len() == i,
                    forall|h: int| 0 <= h < i ==> !#[trigger] row@[h],
                decreases depth + 1 - i,
            {
                row.push(false);
                mrow.push([0u8; 48]);
                i += 1;
            }
            alpha.push(row);
            m.push(mrow);
            t += 1;
        }
        let r = IDCFReceiver {
            depth,
            alpha,
            base_ggm_tree: zero_rows(times, ggm_tree_size),
            implementation_values: zero_rows(times, ggm_tree_size),
            m,
            times,
        };
        assert forall|t: int| 0 <= t < times implies #[trigger] r.root_of(t) == 0u128 by {
            assert(r.base_ggm_tree@[t]@ == Seq::new(ggm_tree_size as nat, |i: int| 0u128));
        }
        r
    }

    /// Records the input of instance `time`: bit `i` of the little-endian number `alpha`
    /// (for `i < depth`) becomes the bit of level `depth - i`.
    pub fn set_alpha(&mut self, alpha: [u8; 16], time: usize)
        requires
            old(self).wf(),
            time < old(self).spec_times(),
            old(self).spec_depth() <= 128,
        ensures
            final(self).wf(),
            final(self).spec_depth() == old(self).spec_depth(),
            final(self).spec_times() == old(self).spec_times(),
            forall|h: int|
                1 <= h <= old(self).spec_depth() ==> #[trigger] final(self).alpha_of(time as int)[h]
                    == byte_bit(alpha@, old(self).spec_depth() - h),
            final(self).alpha_of(time as int)[0] == old(self).alpha_of(time as int)[0],
            forall|t: int|
                0 <= t < old(self).spec_times() && t != time ==> #[trigger] final(self).alpha_of(t)
                    == old(self).alpha_of(t),
            forall|t: int| 0 <= t < old(self).spec_times() ==> #[trigger] final(self).msgs_of(t) == old(self).msgs_of(t),
            forall|t: int| 0 <= t < old(self).spec_times() ==> #[trigger] final(self).root_of(t) == old(self).root_of(t),
    {
        let depth = self.depth;
        let mut row = self.alpha[time].clone();
        let mut i: usize = 0;
        while i < depth
            invariant
                i <= depth,
                depth <= 128,
                row@.len() == depth + 1,
                forall|h: int|
                    depth - i < h <= depth ==> #[trigger] row@[h] == byte_bit(alpha@, depth - h),
                forall|h: int|
                    0 <= h <= depth - i ==> #[trigger] row@[h] == old(self).alpha@[time as int]@[h],
            decreases depth - i,
        {
            let b = ((alpha[i / 8] >> ((i % 8) as u8)) & 1u8) == 1u8;
            row.set(depth - i, b);
            i += 1;
        }
        self.alpha.set(time, row);
        assert forall|t: int|
            #![trigger self.base_ggm_tree@[t]@.len()]
            #![trigger self.implementation_values@[t]@.len()]
            #![trigger self.alpha@[t]@.len()]
            #![trigger self.m@[t]@.len()]
            0 <= t < self.times implies {
            &&& self.base_ggm_tree@[t]@.len() == pow2(self.depth as nat + 1)
            &&& self.implementation_values@[t]@.len() == pow2(self.depth as nat + 1)
            &&& self.alpha@[t]@.len() == self.depth + 1
            &&& self.m@[t]@.len() == self.depth + 1
        } by {
            if t != time {
                assert(self.alpha@[t] == old(self).alpha@[t]);
            }
        }
    }

    /// The OT choice bits of all instances and levels: entry `t * (depth + 1) + h` is the
    /// bit of level `h` of instance `t`.
    pub fn ot_choices(&self) -> (r: Vec<bool>)
        requires
            self.wf(),
            (self.spec_depth() + 1) * self.spec_times() <= usize::MAX,
        ensures
            r@.len() == (self.spec_depth() + 1) * self.spec_times(),
            forall|t: int, h: int|
                0 <= t < self.spec_times() && 0 <= h <= self.spec_depth() ==> #[trigger] r@[t * (
                self.spec_depth() + 1) + h] == self.alpha_of(t)[h],
    {
        let mut r: Vec<bool> = Vec::new();
        let n = self.depth + 1;
        let mut t: usize = 0;
        while t < self.times
            invariant
                self.wf(),
                n == self.depth + 1,
                t <= self.times,
                n * self.times <= usize::MAX,
                r@.len() == t * n,
                forall|t2: int, h: int|
                    0 <= t2 < t && 0 <= h < n ==> #[trigger] r@[t2 * n + h] == self.alpha@[t2]@[h],
            decreases self.times - t,
        {
            proof {
                vstd::arithmetic::mul::lemma_mul_inequality((t + 1) as int, self.times as int, n as int);
                vstd::arithmetic::mul::lemma_mul_is_distributive_add_other_way(n as int, t as int, 1);
                vstd::arithmetic::mul::lemma_mul_is_commutative(n as int, self.times as int);
            }
            let mut h: usize = 0;
            while h < n
                invariant
                    self.wf(),
                    n == self.depth + 1,
                    t < self.times,
                    (t + 1) * n <= usize::MAX,
                    (t + 1) * n == t * n + n,
                    r@.len() == t * n + h,
                    h <= n,
                    forall|t2: int, h2: int|
                        0 <= t2 < t && 0 <= h2 < n ==> #[trigger] r@[t2 * n + h2] == self.alpha@[t2]@[h2],
                    forall|h2: int| 0 <= h2 < h ==> #[trigger] r@[t * n + h2] == self.alpha@[t as int]@[h2],
                decreases n - h,
            {
                let ghost before = r@;
                r.push(self.alpha[t][h]);
                proof {
                    assert forall|t2: int, h2: int|
                        0 <= t2 < t && 0 <= h2 < n implies #[trigger] r@[t2 * n + h2] == self.alpha@[t2]@[h2] by {
                        lemma_row_major(t2, h2, t as int, n as int);
                        assert(r@[t2 * n + h2] == before[t2 * n + h2]);
                    }
                }
                h += 1;
            }
            proof {
                assert forall|t2: int, h2: int|
                    0 <= t2 < t + 1 && 0 <= h2 < n implies #[trigger] r@[t2 * n + h2] == self.alpha@[t2]@[h2] by {
                    if t2 == t {
                    }
                }
            }
            t += 1;
        }
        proof {
            vstd::arithmetic::mul::lemma_mul_is_commutative(n as int, self.times as int);
        }
        r
    }

    /// Stores the OT outputs of all instances and levels (entry `t * (depth + 1) + h` for
    /// level `h` of instance `t`) as 48-byte messages.
    pub fn store_ot_messages(&mut self, ot_msg: &Vec<[u128; 3]>)
        requires
            old(self).wf(),
            ot_msg@.len() >= (old(self).spec_depth() + 1) * old(self).spec_times(),
        ensures
            final(self).wf(),
            final(self).spec_depth() == old(self).spec_depth(),
            final(self).spec_times() == old(self).spec_times(),
            forall|t: int, h: int|
                0 <= t < old(self).spec_times() && 0 <= h <= old(self).spec_depth() ==> #[trigger] final(self).msgs_of(t)[h] == ({
                    let o = ot_msg@[t * (old(self).spec_depth() + 1) + h];
                    u128_to_le(o[0]) + u128_to_le(o[1]) + u128_to_le(o[2])
                }),
            forall|t: int| 0 <= t < old(self).spec_times() ==> #[trigger] final(self).alpha_of(t) == old(self).alpha_of(t),
            forall|t: int| 0 <= t < old(self).spec_times() ==> #[trigger] final(self).root_of(t) == old(self).root_of(t),
    {
        let n = self.depth + 1;
        let len = ot_msg.len();
        let mut t: usize = 0;
        while t < self.times
            invariant
                self.wf(),
                len == ot_msg@.len(),
                self.depth == old(self).depth,
                self.times == old(self).times,
                self.alpha == old(self).alpha,
                self.base_ggm_tree == old(self).base_ggm_tree,
                n == self.depth + 1,
                t <= self.times,
                ot_msg@.len() >= n * self.times,
                forall|t2: int, h: int|
                    0 <= t2 < t && 0 <= h < n ==> #[trigger] self.m@[t2]@[h]@ == ({
                        let o = ot_msg@[t2 * n + h];
                        u128_to_le(o[0]) + u128_to_le(o[1]) + u128_to_le(o[2])
                    }),
            decreases self.times - t,
        {
            proof {
                vstd::arithmetic::mul::lemma_mul_inequality((t + 1) as int, self.times as int, n as int);
                vstd::arithmetic::mul::lemma_mul_is_distributive_add_other_way(n as int, t as int, 1);
                vstd::arithmetic::mul::lemma_mul_is_commutative(n as int, self.times as int);
            }
            let mut row: Vec<[u8; 48]> = Vec::new();
            let mut h: usize = 0;
            while h < n
                invariant
                    n == self.depth + 1,
                    t < self.times,
                    len == ot_msg@.len(),
                    (t + 1) * n <= ot_msg@.len(),
                    (t + 1) * n == t * n + n,
                    h <= n,
                    row@.len() == h,
                    forall|h2: int| 0 <= h2 < h ==> #[trigger] row@[h2]@ == ({
                        let o = ot_msg@[t * n + h2];
                        u128_to_le(o[0]) + u128_to_le(o[1]) + u128_to_le(o[2])
                    }),
                decreases n - h,
            {
                row.push(convert_u128_to_u8(&ot_msg[t * n + h]));
                h += 1;
            }
            let ghost before = self.m@;
            self.m.set(t, row);
            proof {
                assert forall|t2: int, h2: int|
                    0 <= t2 < t + 1 && 0 <= h2 < n implies #[trigger] self.m@[t2]@[h2]@ == ({
                        let o = ot_msg@[t2 * n + h2];
                        u128_to_le(o[0]) + u128_to_le(o[1]) + u128_to_le(o[2])
                    }) by {
                    if t2 < t {
                        assert(self.m@[t2] == before[t2]);
                    }
                }
                assert forall|t2: int| 0 <= t2 < self.times implies #[trigger] self.m@[t2]@.len() == self.depth + 1 by {
                    if t2 != t {
                        assert(self.m@[t2] == before[t2]);
                    }
                }
            }
            t += 1;
        }
        proof {
            assert forall|t2: int, h2: int|
                0 <= t2 < self.times && 0 <= h2 <= self.depth implies #[trigger] self.msgs_of(t2)[h2] == ({
                    let o = ot_msg@[t2 * n + h2];
                    u128_to_le(o[0]) + u128_to_le(o[1]) + u128_to_le(o[2])
                }) by {
                assert(self.msgs_of(t2)[h2] == self.m@[t2]@[h2]@);
            }
        }
    }

    /// Rebuilds the tree of instance `time` and writes the receiver's share of every node.
    pub fn compute(&mut self, idcf_sharing: &mut [[u8; 16]], time: usize)
        requires
            old(self).wf(),
            time < old(self).spec_times(),
            old(self).spec_depth() >= 1,
            old(idcf_sharing)@.len() >= pow2(old(self).spec_depth() + 1) - 1,
        ensures
            final(self).wf(),
            final(self).spec_depth() == old(self).spec_depth(),
            final(self).spec_times() == old(self).spec_times(),
            forall|t: int| 0 <= t < old(self).spec_times() ==> #[trigger] final(self).alpha_of(t) == old(self).alpha_of(t),
            forall|t: int| 0 <= t < old(self).spec_times() ==> #[trigger] final(self).msgs_of(t) == old(self).msgs_of(t),
            forall|t: int| 0 <= t < old(self).spec_times() ==> #[trigger] final(self).root_of(t) == old(self).root_of(t),
            final(self).other_trees_unchanged(old(self), time as int),
            final(idcf_sharing)@.len() == old(idcf_sharing)@.len(),
            forall|h: nat, x: nat|
                1 <= h <= old(self).spec_depth() && x < pow2(h) ==> #[trigger] final(idcf_sharing)@[node_index(h, x)]@
                    == u128_to_le(
                    r_share(
                        old(self).root_of(time as int),
                        old(self).alpha_of(time as int),
                        old(self).msgs_of(time as int),
                        h,
                        x,
                    ),
                ),
            final(idcf_sharing)@[0] == old(idcf_sharing)@[0],
            forall|i: int|
                pow2(old(self).spec_depth() + 1) - 1 <= i < old(idcf_sharing)@.len()
                    ==> #[trigger] final(idcf_sharing)@[i] == old(idcf_sharing)@[i],
    {
        self.idcf_reconstruct(idcf_sharing, time);
    }

    /// Rebuilds the tree of instance `time` off the path of its input, fills the holes on
    /// the path from the messages, and writes the receiver's share of every node.
    #[verifier::rlimit(40)]
    pub fn idcf_reconstruct(&mut self, idcf_sharing: &mut [[u8; 16]], time: usize)
        requires
            old(self).wf(),
            time < old(self).spec_times(),
            old(self).spec_depth() >= 1,
            old(idcf_sharing)@.len() >= pow2(old(self).spec_depth() + 1) - 1,
        ensures
            final(self).wf(),
            final(self).spec_depth() == old(self).spec_depth(),
            final(self).spec_times() == old(self).spec_times(),
            forall|t: int| 0 <= t < old(self).spec_times() ==> #[trigger] final(self).alpha_of(t) == old(self).alpha_of(t),
            forall|t: int| 0 <= t < old(self).spec_times() ==> #[trigger] final(self).msgs_of(t) == old(self).msgs_of(t),
            forall|t: int| 0 <= t < old(self).spec_times() ==> #[trigger] final(self).root_of(t) == old(self).root_of(t),
            final(self).other_trees_unchanged(old(self), time as int),
            forall|h: nat, x: nat|
                h <= old(self).spec_depth() && x < pow2(h) ==> #[trigger] final(self).base_node(time as int, h, x)
                    == r_base(
                    old(self).root_of(time as int),
                    old(self).alpha_of(time as int),
                    old(self).msgs_of(time as int),
                    h,
                    x,
                ),
            final(idcf_sharing)@.len() == old(idcf_sharing)@.len(),
            forall|h: nat, x: nat|
                1 <= h <= old(self).spec_depth() && x < pow2(h) ==> #[trigger] final(idcf_sharing)@[node_index(h, x)]@
                    == u128_to_le(
                    r_share(
                        old(self).root_of(time as int),
                        old(self).alpha_of(time as int),
                        old(self).msgs_of(time as int),
                        h,
                        x,
                    ),
                ),
            final(idcf_sharing)@[0] == old(idcf_sharing)@[0],
            forall|i: int|
                pow2(old(self).spec_depth() + 1) - 1 <= i < old(idcf_sharing)@.len()
                    ==> #[trigger] final(idcf_sharing)@[i] == old(idcf_sharing)@[i],
    {
        let ghost root = self.root_of(time as int);
        let ghost alpha = self.alpha_of(time as int);
        let ghost msgs = self.msgs_of(time as int);
        let kg0 = fixed_key_block(0u8);
        let kg1 = fixed_key_block(1u8);
        let kc0 = fixed_key_block(2u8);
        let kc1 = fixed_key_block(3u8);
        let depth = self.depth;
        let mut base: Vec<u128> = self.base_ggm_tree[time].clone();
        let mut imp: Vec<u128> = self.implementation_values[time].clone();
        let ghost tree_len = pow2(depth as nat + 1);
        proof {
            vstd::arithmetic::power2::lemma2_to64();
            lemma_pow2_strictly_increases(1, depth as nat + 1);
        }
        let mut missing_pos: usize = 0;
        let mut h: usize = 1;
        let mut half: usize = 1;
        while h <= depth
            invariant
                1 <= h <= depth + 1,
                half == pow2((h - 1) as nat),
                half >= 1,
                depth == self.depth,
                depth + 1 < usize::BITS,
                pow2(depth as nat + 1) <= usize::MAX,
                tree_len == pow2(depth as nat + 1),
                self.wf(),
                time < self.times,
                root == self.base_ggm_tree@[time as int]@[0],
                alpha == self.alpha@[time as int]@,
                msgs == self.msgs_of(time as int),
                msgs.len() == depth + 1,
                alpha.len() == depth + 1,
                missing_pos == path_node(alpha, (h - 1) as nat),
                base@.len() == tree_len,
                imp@.len() == tree_len,
                base@[0] == root,
                kg0@ == fixed_key(0u8),
                kg1@ == fixed_key(1u8),
                kc0@ == fixed_key(2u8),
                kc1@ == fixed_key(3u8),
                forall|h2: nat, x: nat|
                    h2 < h && x < pow2(h2) ==> #[trigger] base@[node_index(h2, x)] == r_base(
                        root,
                        alpha,
                        msgs,
                        h2,
                        x,
                    ),
                forall|h2: nat, x: nat|
                    1 <= h2 < h && x < pow2(h2) ==> #[trigger] imp@[node_index(h2, x)] == r_impl(
                        root,
                        alpha,
                        msgs,
                        h2,
                        x,
                    ),
            decreases depth + 1 - h,
        {
            proof {
                lemma_pow2_unfold(h as nat);
                lemma_pow2_unfold(h as nat + 1);
                lemma_pow2_strictly_increases(h as nat, depth as nat + 1);
                if h < depth {
                    lemma_pow2_strictly_increases(h as nat + 1, depth as nat + 1);
                }
                crate::idcf_model::lemma_path_node_bound(alpha, (h - 1) as nat);
            }
            let ghost h1 = (h - 1) as nat;
            let p = missing_pos;
            let a = self.alpha[time][h];
            let prev_start = half - 1;
            let start = 2 * half - 1;
            let mut parents: Vec<u128> = Vec::new();
            let mut i: usize = 0;
            while i < half
                invariant
                    i <= half,
                    half == pow2(h1),
                    prev_start == half - 1,
                    base@.len() == tree_len,
                    tree_len <= usize::MAX,
                    2 * half <= tree_len,
                    parents@.len() == i,
                    forall|j: int| 0 <= j < i ==> #[trigger] parents@[j] == base@[prev_start + j],
                decreases half - i,
            {
                parents.push(base[prev_start + i]);
                i += 1;
            }
            assert forall|j: int| 0 <= j < half implies #[trigger] parents@[j] == r_base(
                root,
                alpha,
                msgs,
                h1,
                j as nat,
            ) by {
                assert(parents@[j] == base@[node_index(h1, j as nat)]);
            }
            let lg = aes128_encrypt_blocks(&kg0, &parents);
            let rg = aes128_encrypt_blocks(&kg1, &parents);
            let lc = aes128_encrypt_blocks(&kc0, &parents);
            let rc = aes128_encrypt_blocks(&kc1, &parents);
            // Holes on the path: the sibling of the path node, and both children of the
            // path's parent in the implementation tree.
            let fill_right = !a;
            let fill_pos = if fill_right { 2 * p + 1 } else { 2 * p };
            let ghost fb = r_children(root, alpha, msgs, h1, fill_right);
            let ghost fl = r_children_impl(root, alpha, msgs, h1, false);
            let ghost fr = r_children_impl(root, alpha, msgs, h1, true);
            let fill_sum = if fill_right {
                xor_all_but(&rg, half, p, Ghost(fb))
            } else {
                xor_all_but(&lg, half, p, Ghost(fb))
            };
            let left_sum = xor_all_but(&lc, half, p, Ghost(fl));
            let right_sum = xor_all_but(&rc, half, p, Ghost(fr));
            let mh = &self.m[time][h];
            let fill_val = u128_from_le_at(mh, 0) ^ fill_sum;
            let left_val = u128_from_le_at(mh, 16) ^ left_sum;
            let right_val = u128_from_le_at(mh, 32) ^ right_sum;
            proof {
                assert(mh@ == msgs[h as int]);
                assert(fill_val == msg_part(msgs[h as int], 0) ^ fill_sum);
                assert(left_val == msg_part(msgs[h as int], 1) ^ left_sum);
                assert(right_val == msg_part(msgs[h as int], 2) ^ right_sum);
            }
            let ghost base_before = base@;
            let ghost imp_before = imp@;
            let mut i: usize = 0;
            while i < half
                invariant
                    i <= half,
                    half == pow2(h1),
                    start == 2 * half - 1,
                    4 * half <= tree_len + 1,
                    tree_len <= usize::MAX,
                    base@.len() == tree_len,
                    imp@.len() == tree_len,
                    lg@.len() == half,
                    rg@.len() == half,
                    lc@.len() == half,
                    rc@.len() == half,
                    forall|j: int| 0 <= j < i ==> base@[start + 2 * j] == #[trigger] lg@[j],
                    forall|j: int| 0 <= j < i ==> base@[start + 2 * j + 1] == #[trigger] rg@[j],
                    forall|j: int| 0 <= j < i ==> imp@[start + 2 * j] == #[trigger] lc@[j],
                    forall|j: int| 0 <= j < i ==> imp@[start + 2 * j + 1] == #[trigger] rc@[j],
                    forall|j: int|
                        0 <= j < tree_len && !(start <= j < start + 2 * i) ==> #[trigger] base@[j]
                            == base_before[j],
                    forall|j: int|
                        0 <= j < tree_len && !(start <= j < start + 2 * i) ==> #[trigger] imp@[j]
                            == imp_before[j],
                decreases half - i,
            {
                base.set(start + 2 * i, lg[i]);
                base.set(start + 2 * i + 1, rg[i]);
                imp.set(start + 2 * i, lc[i]);
                imp.set(start + 2 * i + 1, rc[i]);
                i += 1;
            }
            base.set(start + fill_pos, fill_val);
            imp.set(start + 2 * p, left_val);
            imp.set(start + 2 * p + 1, right_val);
            proof {
                assert forall|x: nat| x < pow2(h as nat) implies base@[node_index(h as nat, x)]
                    == r_base(root, alpha, msgs, h as nat, x) && imp@[node_index(h as nat, x)]
                    == r_impl(root, alpha, msgs, h as nat, x) by {
                    let j = (x / 2) as int;
                    assert(x == 2 * j + x % 2);
                    assert(node_index(h as nat, x) == start + x);
                    assert(0 <= j < half);
                    if x % 2 == 0 {
                        assert(lg@[j] == prg_g_of(false, parents@[j]));
                        assert(lc@[j] == prg_c_of(false, parents@[j]));
                    } else {
                        assert(rg@[j] == prg_g_of(true, parents@[j]));
                        assert(rc@[j] == prg_c_of(true, parents@[j]));
                    }
                    if x != fill_pos {
                        if x % 2 == 0 {
                            assert(base@[start + 2 * j] == lg@[j]);
                        } else {
                            assert(base@[start + 2 * j + 1] == rg@[j]);
                        }
                    }
                    if x != 2 * p && x != 2 * p + 1 {
                        if x % 2 == 0 {
                            assert(imp@[start + 2 * j] == lc@[j]);
                        } else {
                            assert(imp@[start + 2 * j + 1] == rc@[j]);
                        }
                    }
                }
                assert forall|h2: nat, x: nat|
                    h2 < h + 1 && x < pow2(h2) implies #[trigger] base@[node_index(h2, x)]
                    == r_base(root, alpha, msgs, h2, x) by {
                    if h2 + 1 < h {
                        lemma_pow2_strictly_increases(h2 + 1, h as nat);
                    }
                    if h2 < h {
                        lemma_pow2_unfold(h2 + 1);
                        assert(base@[node_index(h2, x)] == base_before[node_index(h2, x)]);
                    }
                }
                assert forall|h2: nat, x: nat|
                    1 <= h2 < h + 1 && x < pow2(h2) implies #[trigger] imp@[node_index(h2, x)]
                    == r_impl(root, alpha, msgs, h2, x) by {
                    if h2 + 1 < h {
                        lemma_pow2_strictly_increases(h2 + 1, h as nat);
                    }
                    if h2 < h {
                        lemma_pow2_unfold(h2 + 1);
                        assert(imp@[node_index(h2, x)] == imp_before[node_index(h2, x)]);
                    }
                }
                assert(base@[0] == root);
            }
            missing_pos = 2 * p + (if a { 1 } else { 0 });
            h += 1;
            half = 2 * half;
        }
        let ghost share = |h: nat, x: nat| r_share(root, alpha, msgs, h, x);
        assert forall|x: nat| x < 2 implies #[trigger] share(1, x) == imp@[node_index(1, x)] by {
            vstd::arithmetic::power2::lemma2_to64();
        }
        assert forall|h: nat, x: nat| 2 <= h <= depth && x < pow2(h) implies #[trigger] share(
            h,
            x,
        ) == share((h - 1) as nat, x / 2) ^ imp@[node_index(h, x)] by {
        }
        write_path_shares(idcf_sharing, &imp, depth, Ghost(share));
        let ghost old_trees = self.base_ggm_tree@;
        self.base_ggm_tree.set(time, base);
        self.implementation_values.set(time, imp);
        assert forall|t: int|
            #![trigger self.base_ggm_tree@[t]@.len()]
            #![trigger self.implementation_values@[t]@.len()]
            #![trigger self.alpha@[t]@.len()]
            #![trigger self.m@[t]@.len()]
            0 <= t < self.times implies {
            &&& self.base_ggm_tree@[t]@.len() == pow2(self.depth as nat + 1)
            &&& self.implementation_values@[t]@.len() == pow2(self.depth as nat + 1)
            &&& self.alpha@[t]@.len() == self.depth + 1
            &&& self.m@[t]@.len() == self.depth + 1
        } by {
            if t != time {
                assert(self.base_ggm_tree@[t] == old(self).base_ggm_tree@[t]);
                assert(self.implementation_values@[t] == old(self).implementation_values@[t]);
            }
        }
        assert forall|t: int| 0 <= t < self.times implies #[trigger] self.root_of(t) == old(self).root_of(t) by {
            if t != time {
                assert(self.base_ggm_tree@[t] == old(self).base_ggm_tree@[t]);
            }
        }
    }

    /// Whether the shares of instance `time` agree with the sender's on the nodes left of
    /// the path and differ by `beta` elsewhere, on every level `1..=depth`.
    pub fn consistency_check(
        &self,
        idcf_sharing: &[[u8; 16]],
        sender_idcf_sharing: &[[u8; 16]],
        beta: &Vec<u8>,
        time: usize,
    ) -> (r: bool)
        requires
            self.wf(),
            time < self.spec_times(),
            idcf_sharing@.len() >= pow2(self.spec_depth() + 1) - 1,
            sender_idcf_sharing@.len() >= pow2(self.spec_depth() + 1) - 1,
        ensures
            r == shares_consistent(
                idcf_sharing@,
                sender_idcf_sharing@,
                beta@,
                self.alpha_of(time as int),
                self.spec_depth(),
            ),
    {
        let depth = self.depth;
        let ghost alpha = self.alpha_of(time as int);
        let mut alpha_pref: usize = 0;
        let mut h: usize = 1;
        let mut size: usize = 2;
        proof {
            vstd::arithmetic::power2::lemma2_to64();
        }
        while h <= depth
            invariant
                1 <= h <= depth + 1,
                size == pow2(h as nat),
                depth == self.depth,
                self.wf(),
                time < self.times,
                alpha == self.alpha@[time as int]@,
                alpha.len() == depth + 1,
                alpha_pref == path_node(alpha, (h - 1) as nat),
                idcf_sharing@.len() >= pow2(depth as nat + 1) - 1,
                sender_idcf_sharing@.len() >= pow2(depth as nat + 1) - 1,
                forall|h2: nat, x: nat|
                    1 <= h2 < h && x < pow2(h2) ==> #[trigger] node_consistent(
                        idcf_sharing@,
                        sender_idcf_sharing@,
                        beta@,
                        alpha,
                        h2,
                        x,
                    ),
            decreases depth + 1 - h,
        {
            proof {
                lemma_pow2_unfold(h as nat);
                lemma_pow2_unfold(h as nat + 1);
                lemma_pow2_strictly_increases(h as nat, depth as nat + 1);
                if h < depth {
                    lemma_pow2_strictly_increases(h as nat + 1, depth as nat + 1);
                }
                crate::idcf_model::lemma_path_node_bound(alpha, (h - 1) as nat);
            }
            alpha_pref = 2 * alpha_pref + (if self.alpha[time][h] { 1 } else { 0 });
            let start = size - 1;
            let mut x: usize = 0;
            while x < size
                invariant
                    x <= size,
                    1 <= h <= depth,
                    depth == self.depth,
                    self.wf(),
                    time < self.times,
                    alpha == self.alpha@[time as int]@,
                    size == pow2(h as nat),
                    start == size - 1,
                    2 * size <= pow2(depth as nat + 1),
                    pow2(depth as nat + 1) <= usize::MAX,
                    alpha_pref == path_node(alpha, h as nat),
                    idcf_sharing@.len() >= pow2(depth as nat + 1) - 1,
                    sender_idcf_sharing@.len() >= pow2(depth as nat + 1) - 1,
                    forall|y: nat| y < x ==> #[trigger] node_consistent(
                        idcf_sharing@,
                        sender_idcf_sharing@,
                        beta@,
                        alpha,
                        h as nat,
                        y,
                    ),
                decreases size - x,
            {
                let mut shared_value = idcf_sharing[start + x];
                xor_block(&mut shared_value, &sender_idcf_sharing[start + x]);
                assert(node_index(h as nat, x as nat) == start + x);
                let ok = if x < alpha_pref {
                    is_zero_block(&shared_value)
                } else {
                    block_equals(&shared_value, beta)
                };
                if !ok {
                    proof {
                        assert(!node_consistent(idcf_sharing@, sender_idcf_sharing@, beta@, alpha, h as nat, x as nat));
                        assert(1 <= h as nat <= self.spec_depth() && (x as nat) < pow2(h as nat));
                        assert(alpha == self.alpha_of(time as int));
                        assert(!shares_consistent(
                            idcf_sharing@,
                            sender_idcf_sharing@,
                            beta@,
                            self.alpha_of(time as int),
                            self.spec_depth(),
                        ));
                    }
                    return false;
                }
                x += 1;
            }
            h += 1;
            size = 2 * size;
        }
        true
    }
}

/// `G_right` applied to a value, as the fixed-key AES instances compute it.
pub open spec fn prg_g_of(right: bool, v: u128) -> u128 {
    crate::idcf_model::prg_g(right, v)
}

/// `C_right` applied to a value.
pub open spec fn prg_c_of(right: bool, v: u128) -> u128 {
    crate::idcf_model::prg_c(right, v)
}

/// Node `x` of level `h`: the two shares XOR to zero left of the path and to `beta` elsewhere.
pub open spec fn node_consistent(
    mine: Seq<[u8; 16]>,
    theirs: Seq<[u8; 16]>,
    beta: Seq<u8>,
    alpha: Seq<bool>,
    h: nat,
    x: nat,
) -> bool {
    let v = xor_bytes(mine[node_index(h, x)]@, theirs[node_index(h, x)]@);
    if x < path_node(alpha, h) {
        v == Seq::new(16, |j: int| 0u8)
    } else {
        v == beta
    }
}

/// Every node of every level `1..=depth` is consistent.
pub open spec fn shares_consistent(
    mine: Seq<[u8; 16]>,
    theirs: Seq<[u8; 16]>,
    beta: Seq<u8>,
    alpha: Seq<bool>,
    depth: nat,
) -> bool {
    forall|h: nat, x: nat|
        1 <= h <= depth && x < pow2(h) ==> #[trigger] node_consistent(mine, theirs, beta, alpha, h, x)
}

/// The check covers every level from 1 to `depth`, the leaves included: the shares are
/// consistent exactly when at every node `x` of every level `h` with `1 <= h <= depth`
/// (node `2^h - 1 + x` of the tables) the XOR of the two shares is zero where `x` lies left
/// of the path and `beta` elsewhere. So one altered share at any such node, a leaf
/// included, makes the check fail.
pub proof fn lemma_shares_consistent_every_level(
    mine: Seq<[u8; 16]>,
    theirs: Seq<[u8; 16]>,
    beta: Seq<u8>,
    alpha: Seq<bool>,
    depth: nat,
)
    ensures
        shares_consistent(mine, theirs, beta, alpha, depth) <==> forall|h: nat, x: nat|
            1 <= h <= depth && x < pow2(h) ==> #[trigger] xor_bytes(
                mine[node_index(h, x)]@,
                theirs[node_index(h, x)]@,
            ) == if x < path_node(alpha, h) {
                Seq::new(16, |j: int| 0u8)
            } else {
                beta
            },
        forall|h: nat, x: nat| #[trigger] node_index(h, x) == pow2(h) - 1 + x,
{
    if shares_consistent(mine, theirs, beta, alpha, depth) {
        assert forall|h: nat, x: nat| 1 <= h <= depth && x < pow2(h) implies #[trigger] xor_bytes(
            mine[node_index(h, x)]@,
            theirs[node_index(h, x)]@,
        ) == if x < path_node(alpha, h) {
            Seq::new(16, |j: int| 0u8)
        } else {
            beta
        } by {
            assert(node_consistent(mine, theirs, beta, alpha, h, x));
        }
    }
    if forall|h: nat, x: nat|
        1 <= h <= depth && x < pow2(h) ==> #[trigger] xor_bytes(
            mine[node_index(h, x)]@,
            theirs[node_index(h, x)]@,
        ) == if x < path_node(alpha, h) {
            Seq::new(16, |j: int| 0u8)
        } else {
            beta
        } {
        assert forall|h: nat, x: nat| 1 <= h <= depth && x < pow2(h) implies #[trigger] node_consistent(
            mine,
            theirs,
            beta,
            alpha,
            h,
            x,
        ) by {
            assert(xor_bytes(mine[node_index(h, x)]@, theirs[node_index(h, x)]@) == if x < path_node(alpha, h) {
                Seq::new(16, |j: int| 0u8)
            } else {
                beta
            });
        }
    }
}

proof fn lemma_le_zero()
    ensures
        u128_to_le(0u128) == Seq::new(16, |j: int| 0u8),
{
    assert forall|j: int| 0 <= j < 16 implies crate::bytes::le_byte(0u128, j) == 0u8 by {
        let s = (8 * j) as u128;
        assert(((0u128 >> s) & 0xffu128) as u8 == 0u8) by (bit_vector);
    }
    assert(u128_to_le(0u128) =~= Seq::new(16, |j: int| 0u8));
}

/// Correctness of the comparison between the two parties: when the receiver holds, for
/// every level, the sender's message for its bit at that level, and both have written the
/// shares that `compute` produces, the receiver's consistency check succeeds with the
/// sender's `beta`: the shares XOR to zero on the nodes left of the receiver's path and to
/// `beta` on the others.
pub proof fn lemma_idcf_consistency(
    mine: Seq<[u8; 16]>,
    theirs: Seq<[u8; 16]>,
    key: u128,
    beta: u128,
    root: u128,
    alpha: Seq<bool>,
    m: Seq<Seq<u8>>,
    depth: nat,
)
    requires
        alpha.len() > depth,
        m.len() > depth,
        forall|h: nat|
            1 <= h <= depth ==> #[trigger] m[h as int] == crate::idcf_model::msg_bytes(
                crate::idcf_model::s_msg(key, beta, h, alpha[h as int]),
            ),
        forall|h: nat, x: nat|
            1 <= h <= depth && x < pow2(h) ==> #[trigger] theirs[node_index(h, x)]@ == u128_to_le(
                crate::idcf_model::s_share(key, h, x),
            ),
        forall|h: nat, x: nat|
            1 <= h <= depth && x < pow2(h) ==> #[trigger] mine[node_index(h, x)]@ == u128_to_le(
                r_share(root, alpha, m, h, x),
            ),
    ensures
        shares_consistent(mine, theirs, u128_to_le(beta), alpha, depth),
{
    assert forall|h: nat| 1 <= h <= depth implies {
        let s = crate::idcf_model::s_msg(key, beta, h, alpha[h as int]);
        &&& #[trigger] msg_part(m[h as int], 0) == s.0
        &&& msg_part(m[h as int], 1) == s.1
        &&& msg_part(m[h as int], 2) == s.2
    } by {
        crate::idcf_model::lemma_msg_part_of_bytes(crate::idcf_model::s_msg(key, beta, h, alpha[h as int]));
    }
    assert(crate::idcf_model::messages_match(key, beta, alpha, m, depth));
    assert forall|h: nat, x: nat| 1 <= h <= depth && x < pow2(h) implies #[trigger] node_consistent(
        mine,
        theirs,
        u128_to_le(beta),
        alpha,
        h,
        x,
    ) by {
        let r = r_share(root, alpha, m, h, x);
        let sv = crate::idcf_model::s_share(key, h, x);
        crate::idcf_model::lemma_idcf_shares_compare(key, beta, root, alpha, m, depth, h, x);
        lemma_le_xor(r, sv);
        lemma_le_zero();
    }
}

/// Whether all 16 bytes are zero.
fn is_zero_block(a: &[u8; 16]) -> (r: bool)
    ensures
        r == (a@ == Seq::new(16, |j: int| 0u8)),
{
    let mut j: usize = 0;
    while j < 16
        invariant
            j <= 16,
            forall|k: int| 0 <= k < j ==> #[trigger] a@[k] == 0u8,
        decreases 16 - j,
    {
        if a[j] != 0 {
            assert(a@[j as int] != Seq::new(16, |k: int| 0u8)[j as int]);
            return false;
        }
        j += 1;
    }
    assert(a@ =~= Seq::new(16, |k: int| 0u8));
    true
}

/// Whether the block equals the byte string `b`.
fn block_equals(a: &[u8; 16], b: &Vec<u8>) -> (r: bool)
    ensures
        r == (a@ == b@),
{
    if b.len() != 16 {
        return false;
    }
    let mut j: usize = 0;
    while j < 16
        invariant
            j <= 16,
            b@.len() == 16,
            forall|k: int| 0 <= k < j ==> #[trigger] a@[k] == b@[k],
        decreases 16 - j,
    {
        if a[j] != b[j] {
            return false;
        }
        j += 1;
    }
    assert(a@ =~= b@);
    true
}

/// The IDCF step functions agree. Let the sender's instance `time` hold `key` and `beta`
/// (as `idcf_gen` leaves it) and the receiver's instance `time`, with the same depth, hold
/// at every level `h` the sender's message for its path bit there (what the oblivious
/// transfers deliver). Then at every node of level `h`, the share that the receiver's
/// `idcf_reconstruct` writes XOR the share that the sender's `idcf_gen` writes is `beta`
/// at or right of the receiver's path and zero left of it.
pub proof fn lemma_idcf_steps_agree(
    sender: crate::idcf_sender::IDCFSender,
    receiver: IDCFReceiver,
    time: int,
    key: u128,
    beta: u128,
    h: nat,
    x: nat,
)
    requires
        receiver.wf(),
        0 <= time < receiver.spec_times(),
        sender.spec_depth() == receiver.spec_depth(),
        sender.holds_instance(time, key, beta),
        forall|l: nat|
            1 <= l <= receiver.spec_depth() ==> #[trigger] receiver.msgs_of(time)[l as int] == if receiver.alpha_of(
                time,
            )[l as int] {
                sender.msg1(time, l as int)
            } else {
                sender.msg0(time, l as int)
            },
        1 <= h <= receiver.spec_depth(),
        x < pow2(h),
    ensures
        r_share(receiver.root_of(time), receiver.alpha_of(time), receiver.msgs_of(time), h, x) ^ s_share(key, h, x)
            == if x >= path_node(receiver.alpha_of(time), h) {
            beta
        } else {
            0u128
        },
{
    let d = receiver.spec_depth();
    let alpha = receiver.alpha_of(time);
    let m = receiver.msgs_of(time);
    assert(alpha.len() == d + 1);
    assert(m.len() == d + 1);
    assert forall|l: nat| 1 <= l <= d implies {
        let s = s_msg(key, beta, l, alpha[l as int]);
        &&& #[trigger] msg_part(m[l as int], 0) == s.0
        &&& msg_part(m[l as int], 1) == s.1
        &&& msg_part(m[l as int], 2) == s.2
    } by {
        lemma_msg_part_of_bytes(s_msg(key, beta, l, alpha[l as int]));
        assert(sender.msg0(time, l as int) == msg_bytes(s_msg(key, beta, l, false)));
        assert(sender.msg1(time, l as int) == msg_bytes(s_msg(key, beta, l, true)));
    }
    assert(messages_match(key, beta, alpha, m, d));
    lemma_idcf_shares_compare(key, beta, receiver.root_of(time), alpha, m, d, h, x);
}

} // verus!
