//! Sender side of the incremental distributed comparison function (IDCF).
//!
//! For each of `times` instances the sender expands a random key into a GGM tree of
//! `depth + 1` levels, outputs its share of every node and prepares, for every level,
//! the two 48-byte OT messages from which the receiver rebuilds the tree off its path.
//! The tree of an instance is stored level by level: node `x` of level `h` sits at
//! index `2^h - 1 + x`.
use crate::aes_prf::{aes128_encrypt_blocks, fixed_key_block};
use crate::bytes::{concat_le3, le_to_u128, u128_from_le, u128_from_le_at, u128_to_le, u128_to_le_bytes};
use crate::idcf_model::{msg_bytes, msg_part, msg_parts, psum, s_base, s_children, s_children_impl, s_impl, s_msg, s_share};
use vstd::arithmetic::power2::{lemma_pow2_strictly_increases, lemma_pow2_unfold, pow2};
use vstd::prelude::*;

verus! {

/// Bytes of a tree node or share.
pub const NUM_BYTES: usize = 16;

/// Bytes of one OT message (three 16-byte parts).
pub const OT_NUM_BYTES: usize = 48;

pub struct IDCFSender {
    beta: Vec<[u8; 16]>,
    base_ggm_tree: Vec<Vec<u128>>,
    implementation_values: Vec<Vec<u128>>,
    depth: usize,
    m0: Vec<Vec<[u8; 48]>>,
    m1: Vec<Vec<[u8; 48]>>,
    times: usize,
}

/// Index of node `x` of level `h` in a tree stored level by level.
pub open spec fn node_index(h: nat, x: nat) -> int {
    pow2(h) - 1 + x
}

/// A vector of `rows` rows of `len` zeros.
pub fn zero_rows(rows: usize, len: usize) -> (r: Vec<Vec<u128>>)
    ensures
        r@.len() == rows,
        forall|t: int| 0 <= t < rows ==> #[trigger] r@[t]@ == Seq::new(len as nat, |i: int| 0u128),
{
    let mut r: Vec<Vec<u128>> = Vec::new();
    let mut t: usize = 0;
    while t < rows
        invariant
            t <= rows,
            r@.len() == t,
            forall|k: int| 0 <= k < t ==> #[trigger] r@[k]@ == Seq::new(len as nat, |i: int| 0u128),
        decreases rows - t,
    {
        let mut row: Vec<u128> = Vec::new();
        let mut i: usize = 0;
        while i < len
            invariant
                i <= len,
                row@ == Seq::new(i as nat, |j: int| 0u128),
            decreases len - i,
        {
            row.push(0u128);
            i += 1;
            assert(row@ =~= Seq::new(i as nat, |j: int| 0u128));
        }
        r.push(row);
        t += 1;
    }
    r
}

/// A vector of `rows` rows of `len` zero messages.
pub fn zero_msg_rows(rows: usize, len: usize) -> (r: Vec<Vec<[u8; 48]>>)
    ensures
        r@.len() == rows,
        forall|t: int| 0 <= t < rows ==> #[trigger] r@[t]@.len() == len,
{
    let mut r: Vec<Vec<[u8; 48]>> = Vec::new();
    let mut t: usize = 0;
    while t < rows
        invariant
            t <= rows,
            r@.len() == t,
            forall|k: int| 0 <= k < t ==> #[trigger] r@[k]@.len() == len,
        decreases rows - t,
    {
        let mut row: Vec<[u8; 48]> = Vec::new();
        let mut i: usize = 0;
        while i < len
            invariant
                i <= len,
                row@.len() == i,
            decreases len - i,
        {
            row.push([0u8; 48]);
            i += 1;
        }
        r.push(row);
        t += 1;
    }
    r
}

/// `2^k` for `k` below the width of `usize`.
pub fn pow2_usize(k: usize) -> (r: usize)
    requires
        pow2(k as nat) <= usize::MAX,
    ensures
        r == pow2(k as nat),
{
    let mut r: usize = 1;
    let mut i: usize = 0;
    proof {
        vstd::arithmetic::power2::lemma2_to64();
    }
    while i < k
        invariant
            i <= k,
            r == pow2(i as nat),
            pow2(k as nat) <= usize::MAX,
        decreases k - i,
    {
        proof {
            lemma_pow2_unfold((i + 1) as nat);
            if i + 1 < k {
                lemma_pow2_strictly_increases((i + 1) as nat, k as nat);
            }
        }
        if i + 1 == k {
            assert(pow2((i + 1) as nat) == pow2(k as nat));
        }
        r = r * 2;
        i += 1;
    }
    r
}

impl IDCFSender {
    /// Number of levels below the root.
    pub closed spec fn spec_depth(&self) -> nat {
        self.depth as nat
    }

    /// Number of instances.
    pub closed spec fn spec_times(&self) -> nat {
        self.times as nat
    }

    /// The `beta` of instance `t`.
    pub closed spec fn beta_of(&self, t: int) -> Seq<u8> {
        self.beta@[t]@
    }

    /// Node `x` of level `h` of the base tree of instance `t`.
    pub closed spec fn base_node(&self, t: int, h: nat, x: nat) -> u128 {
        self.base_ggm_tree@[t]@[node_index(h, x)]
    }

    /// Implementation value of node `x` of level `h` of instance `t`.
    pub closed spec fn impl_node(&self, t: int, h: nat, x: nat) -> u128 {
        self.implementation_values@[t]@[node_index(h, x)]
    }

    /// OT message for the bit `0` at level `h` of instance `t`.
    pub closed spec fn msg0(&self, t: int, h: int) -> Seq<u8> {
        self.m0@[t]@[h]@
    }

    /// OT message for the bit `1` at level `h` of instance `t`.
    pub closed spec fn msg1(&self, t: int, h: int) -> Seq<u8> {
        self.m1@[t]@[h]@
    }

    /// Shapes of the per-instance buffers.
    pub closed spec fn wf(&self) -> bool {
        &&& self.beta@.len() == self.times
        &&& self.base_ggm_tree@.len() == self.times
        &&& self.implementation_values@.len() == self.times
        &&& self.m0@.len() == self.times
        &&& self.m1@.len() == self.times
        &&& self.depth + 1 < usize::BITS
        &&& pow2(self.depth as nat + 1) <= usize::MAX
        &&& forall|t: int|
            0 <= t < self.times ==> #[trigger] self.base_ggm_tree@[t]@.len() == pow2(
                self.depth as nat + 1,
            )
        &&& forall|t: int|
            0 <= t < self.times ==> #[trigger] self.implementation_values@[t]@.len() == pow2(
                self.depth as nat + 1,
            )
        &&& forall|t: int| 0 <= t < self.times ==> #[trigger] self.m0@[t]@.len() == self.depth + 1
        &&& forall|t: int| 0 <= t < self.times ==> #[trigger] self.m1@[t]@.len() == self.depth + 1
    }

    /// Every instance other than `time` is the same in `self` and `other`.
    pub open spec fn other_instances_unchanged(&self, other: &Self, time: int) -> bool {
        &&& forall|t: int, h: nat, x: nat|
            0 <= t < other.spec_times() && t != time ==> #[trigger] self.base_node(t, h, x)
                == other.base_node(t, h, x)
        &&& forall|t: int, h: nat, x: nat|
            0 <= t < other.spec_times() && t != time ==> #[trigger] self.impl_node(t, h, x)
                == other.impl_node(t, h, x)
        &&& forall|t: int, h: int|
            0 <= t < other.spec_times() && t != time ==> #[trigger] self.msg0(t, h) == other.msg0(
                t,
                h,
            )
        &&& forall|t: int, h: int|
            0 <= t < other.spec_times() && t != time ==> #[trigger] self.msg1(t, h) == other.msg1(
                t,
                h,
            )
    }

    /// Instance `t` holds the tree, implementation values and messages of `key` and `beta`.
    pub open spec fn holds_instance(&self, t: int, key: u128, beta: u128) -> bool {
        &&& forall|h: nat, x: nat|
            h <= self.spec_depth() && x < pow2(h) ==> #[trigger] self.base_node(t, h, x) == s_base(
                key,
                h,
                x,
            )
        &&& forall|h: nat, x: nat|
            1 <= h <= self.spec_depth() && x < pow2(h) ==> #[trigger] self.impl_node(t, h, x)
                == s_impl(key, h, x)
        &&& forall|h: nat|
            1 <= h <= self.spec_depth() ==> #[trigger] self.msg0(t, h as int) == msg_bytes(
                s_msg(key, beta, h, false),
            )
        &&& forall|h: nat|
            1 <= h <= self.spec_depth() ==> #[trigger] self.msg1(t, h as int) == msg_bytes(
                s_msg(key, beta, h, true),
            )
    }

    /// Sets up `times` instances of trees with `depth` levels below the root.
    pub fn new(depth: usize, times: usize) -> (r: Self)
        requires
            depth + 1 < usize::BITS,
        ensures
            r.wf(),
            r.spec_depth() == depth,
            r.spec_times() == times,
    {
        proof {
            vstd::bits::lemma_usize_pow2_no_overflow(depth as nat + 1);
        }
        let ggm_tree_size = pow2_usize(depth + 1);
        let mut beta: Vec<[u8; 16]> = Vec::new();
        let mut t: usize = 0;
        while t < times
            invariant
                t <= times,
                beta@.len() == t,
            decreases times - t,
        {
            beta.push([0u8; 16]);
            t += 1;
        }
        IDCFSender {
            beta,
            base_ggm_tree: zero_rows(times, ggm_tree_size),
            implementation_values: zero_rows(times, ggm_tree_size),
            depth,
            m0: zero_msg_rows(times, depth + 1),
            m1: zero_msg_rows(times, depth + 1),
            times,
        }
    }

    /// The OT messages of all instances and levels `0..=depth`, for the bit `0` and the bit
    /// `1`: entry `t * (depth + 1) + h` holds the three parts of the message of level `h`
    /// of instance `t`.
    #[verifier::rlimit(40)]
    pub fn ot_messages(&self) -> (r: (Vec<[u128; 3]>, Vec<[u128; 3]>))
        requires
            self.wf(),
            (self.spec_depth() + 1) * self.spec_times() <= usize::MAX,
        ensures
            r.0@.len() == (self.spec_depth() + 1) * self.spec_times(),
            r.1@.len() == (self.spec_depth() + 1) * self.spec_times(),
            forall|t: int, h: int|
                0 <= t < self.spec_times() && 0 <= h <= self.spec_depth() ==> #[trigger] r.0@[t * (
                self.spec_depth() + 1) + h]@ == msg_parts(self.msg0(t, h)),
            forall|t: int, h: int|
                0 <= t < self.spec_times() && 0 <= h <= self.spec_depth() ==> #[trigger] r.1@[t * (
                self.spec_depth() + 1) + h]@ == msg_parts(self.msg1(t, h)),
    {
        let mut r0: Vec<[u128; 3]> = Vec::new();
        let mut r1: Vec<[u128; 3]> = Vec::new();
        let n = self.depth + 1;
        let mut t: usize = 0;
        while t < self.times
            invariant
                self.wf(),
                n == self.depth + 1,
                t <= self.times,
                n * self.times <= usize::MAX,
                r0@.len() == t * n,
                r1@.len() == t * n,
                forall|t2: int, h: int|
                    0 <= t2 < t && 0 <= h < n ==> #[trigger] r0@[t2 * n + h]@ == msg_parts(self.msg0(t2, h)),
                forall|t2: int, h: int|
                    0 <= t2 < t && 0 <= h < n ==> #[trigger] r1@[t2 * n + h]@ == msg_parts(self.msg1(t2, h)),
            decreases self.times - t,
        {
            proof {
                vstd::arithmetic::mul::lemma_mul_inequality((t + 1) as int, self.times as int, n as int);
                vstd::arithmetic::mul::lemma_mul_is_distributive_add_other_way(n as int, t as int, 1);
                vstd::arithmetic::mul::lemma_mul_is_commutative(n as int, self.times as int);
            }
            let mut h: usize = 0;
            while h < n
                invariant
                    self.wf(),
                    n == self.depth + 1,
                    t < self.times,
                    (t + 1) * n <= usize::MAX,
                    (t + 1) * n == t * n + n,
                    r0@.len() == t * n + h,
                    r1@.len() == t * n + h,
                    h <= n,
                    forall|t2: int, h2: int|
                        0 <= t2 < t && 0 <= h2 < n ==> #[trigger] r0@[t2 * n + h2]@ == msg_parts(self.msg0(t2, h2)),
                    forall|t2: int, h2: int|
                        0 <= t2 < t && 0 <= h2 < n ==> #[trigger] r1@[t2 * n + h2]@ == msg_parts(self.msg1(t2, h2)),
                    forall|h2: int| 0 <= h2 < h ==> #[trigger] r0@[t * n + h2]@ == msg_parts(self.msg0(t as int, h2)),
                    forall|h2: int| 0 <= h2 < h ==> #[trigger] r1@[t * n + h2]@ == msg_parts(self.msg1(t as int, h2)),
                decreases n - h,
            {
                let ghost b0 = r0@;
                let ghost b1 = r1@;
                r0.push(convert_u8_to_u128(&self.m0[t][h]));
                r1.push(convert_u8_to_u128(&self.m1[t][h]));
                proof {
                    assert forall|t2: int, h2: int|
                        0 <= t2 < t && 0 <= h2 < n implies #[trigger] r0@[t2 * n + h2] == b0[t2 * n + h2] by {
                        crate::idcf_receiver::lemma_row_major(t2, h2, t as int, n as int);
                    }
                    assert forall|t2: int, h2: int|
                        0 <= t2 < t && 0 <= h2 < n implies #[trigger] r1@[t2 * n + h2] == b1[t2 * n + h2] by {
                        crate::idcf_receiver::lemma_row_major(t2, h2, t as int, n as int);
                    }
                }
                h += 1;
            }
            proof {
                assert forall|t2: int, h2: int|
                    0 <= t2 < t + 1 && 0 <= h2 < n implies #[trigger] r0@[t2 * n + h2]@ == msg_parts(self.msg0(t2, h2)) by {
                }
                assert forall|t2: int, h2: int|
                    0 <= t2 < t + 1 && 0 <= h2 < n implies #[trigger] r1@[t2 * n + h2]@ == msg_parts(self.msg1(t2, h2)) by {
                }
            }
            t += 1;
        }
        proof {
            vstd::arithmetic::mul::lemma_mul_is_commutative(n as int, self.times as int);
        }
        (r0, r1)
    }

    /// The comparison table of `table_size` bins: for bin `index` and dimension `dim`,
    /// instance `index * 8 + dim` is generated from `keys[index * 8 + dim]` with
    /// `betas[index * 8 + dim]`, and its shares fill a fresh zeroed buffer of
    /// `2^(depth + 1)` blocks.
    pub fn idcf_table(&mut self, keys: &Vec<[u8; 16]>, betas: &Vec<[u8; 16]>, table_size: usize) -> (r: Vec<
        Vec<Vec<[u8; 16]>>,
    >)
        requires
            old(self).wf(),
            old(self).spec_depth() >= 1,
            table_size * 8 <= old(self).spec_times(),
            keys@.len() >= table_size * 8,
            betas@.len() >= table_size * 8,
        ensures
            final(self).wf(),
            final(self).spec_depth() == old(self).spec_depth(),
            final(self).spec_times() == old(self).spec_times(),
            r@.len() == table_size,
            forall|index: int| 0 <= index < table_size ==> #[trigger] r@[index]@.len() == 8,
            forall|index: int, dim: int|
                0 <= index < table_size && 0 <= dim < 8 ==> #[trigger] r@[index]@[dim]@.len() == pow2(
                    old(self).spec_depth() + 1,
                ),
            forall|index: int, dim: int, h: nat, x: nat|
                0 <= index < table_size && 0 <= dim < 8 && 1 <= h <= old(self).spec_depth() && x < pow2(h)
                    ==> #[trigger] r@[index]@[dim]@[node_index(h, x)]@ == u128_to_le(
                    s_share(le_to_u128(keys@[index * 8 + dim]@), h, x),
                ),
            forall|t: int|
                0 <= t < table_size * 8 ==> #[trigger] final(self).holds_instance(
                    t,
                    le_to_u128(keys@[t]@),
                    le_to_u128(betas@[t]@),
                ),
    {
        proof {
            vstd::bits::lemma_usize_pow2_no_overflow(self.depth as nat + 1);
            vstd::arithmetic::power2::lemma_pow2_pos(self.depth as nat + 1);
        }
        let size = pow2_usize(self.depth + 1);
        let mut table: Vec<Vec<Vec<[u8; 16]>>> = Vec::new();
        let mut index: usize = 0;
        while index < table_size
            invariant
                self.wf(),
                self.spec_depth() == old(self).spec_depth(),
                self.spec_times() == old(self).spec_times(),
                self.spec_depth() >= 1,
                size == pow2(self.spec_depth() + 1),
                table_size * 8 <= self.spec_times(),
                keys@.len() >= table_size * 8,
                betas@.len() >= table_size * 8,
                index <= table_size,
                table@.len() == index,
                forall|a: int| 0 <= a < index ==> #[trigger] table@[a]@.len() == 8,
                forall|a: int, dim: int| 0 <= a < index && 0 <= dim < 8 ==> #[trigger] table@[a]@[dim]@.len() == size,
                forall|a: int, dim: int, h: nat, x: nat|
                    0 <= a < index && 0 <= dim < 8 && 1 <= h <= self.spec_depth() && x < pow2(h)
                        ==> #[trigger] table@[a]@[dim]@[node_index(h, x)]@ == u128_to_le(
                        s_share(le_to_u128(keys@[a * 8 + dim]@), h, x),
                    ),
                forall|t: int|
                    0 <= t < index * 8 ==> #[trigger] self.holds_instance(
                        t,
                        le_to_u128(keys@[t]@),
                        le_to_u128(betas@[t]@),
                    ),
            decreases table_size - index,
        {
            let mut row: Vec<Vec<[u8; 16]>> = Vec::new();
            let mut dim: usize = 0;
            while dim < 8
                invariant
                    self.wf(),
                    self.spec_depth() == old(self).spec_depth(),
                    self.spec_times() == old(self).spec_times(),
                    self.spec_depth() >= 1,
                    size == pow2(self.spec_depth() + 1),
                    table_size * 8 <= self.spec_times(),
                    keys@.len() >= table_size * 8,
                    betas@.len() >= table_size * 8,
                    index < table_size,
                    dim <= 8,
                    row@.len() == dim,
                    forall|dd: int| 0 <= dd < dim ==> #[trigger] row@[dd]@.len() == size,
                    forall|dd: int, h: nat, x: nat|
                        0 <= dd < dim && 1 <= h <= self.spec_depth() && x < pow2(h) ==> #[trigger] row@[dd]@[node_index(
                            h,
                            x,
                        )]@ == u128_to_le(s_share(le_to_u128(keys@[index * 8 + dd]@), h, x)),
                    forall|t: int|
                        0 <= t < index * 8 + dim ==> #[trigger] self.holds_instance(
                            t,
                            le_to_u128(keys@[t]@),
                            le_to_u128(betas@[t]@),
                        ),
                decreases 8 - dim,
            {
                proof {
                    assert(index * 8 + dim < table_size * 8) by (nonlinear_arith)
                        requires
                            index < table_size,
                            dim < 8,
                    ;
                }
                let t = index * 8 + dim;
                let mut sharing: Vec<[u8; 16]> = Vec::new();
                let mut k: usize = 0;
                while k < size
                    invariant
                        k <= size,
                        sharing@.len() == k,
                    decreases size - k,
                {
                    sharing.push([0u8; 16]);
                    k += 1;
                }
                let ghost before = *self;
                self.compute(sharing.as_mut_slice(), keys[t], betas[t], t);
                proof {
                    assert forall|t2: int| 0 <= t2 < index * 8 + dim + 1 implies #[trigger] self.holds_instance(
                        t2,
                        le_to_u128(keys@[t2]@),
                        le_to_u128(betas@[t2]@),
                    ) by {
                        if t2 < t {
                            assert(before.holds_instance(t2, le_to_u128(keys@[t2]@), le_to_u128(betas@[t2]@)));
                            assert(self.other_instances_unchanged(&before, t as int));
                            assert(self.beta_of(t2) == before.beta_of(t2));
                        }
                    }
                }
                row.push(sharing);
                dim += 1;
            }
            table.push(row);
            proof {
                assert((index + 1) * 8 == index * 8 + 8) by (nonlinear_arith);
            }
            index += 1;
        }
        table
    }

    /// Records `beta` for instance `time` and generates the instance from `key`: the
    /// sender's share of every node is written to `idcf_sharing` (node `x` of level `h`
    /// at index `2^h - 1 + x`).
    pub fn compute(
        &mut self,
        idcf_sharing: &mut [[u8; 16]],
        key: [u8; 16],
        beta: [u8; 16],
        time: usize,
    )
        requires
            old(self).wf(),
            time < old(self).spec_times(),
            old(self).spec_depth() >= 1,
            old(idcf_sharing)@.len() >= pow2(old(self).spec_depth() + 1) - 1,
        ensures
            final(self).wf(),
            final(self).spec_depth() == old(self).spec_depth(),
            final(self).spec_times() == old(self).spec_times(),
            final(self).beta_of(time as int) == beta@,
            final(self).holds_instance(time as int, le_to_u128(key@), le_to_u128(beta@)),
            forall|t: int|
                0 <= t < old(self).spec_times() && t != time ==> #[trigger] final(self).beta_of(t)
                    == old(self).beta_of(t),
            final(self).other_instances_unchanged(old(self), time as int),
            final(self).msg0(time as int, 0) == old(self).msg0(time as int, 0),
            final(self).msg1(time as int, 0) == old(self).msg1(time as int, 0),
            final(idcf_sharing)@.len() == old(idcf_sharing)@.len(),
            forall|h: nat, x: nat|
                1 <= h <= old(self).spec_depth() && x < pow2(h) ==> #[trigger] final(idcf_sharing)@[node_index(h, x)]@ == u128_to_le(s_share(le_to_u128(key@), h, x)),
            final(idcf_sharing)@[0] == old(idcf_sharing)@[0],
            forall|i: int|
                pow2(old(self).spec_depth() + 1) - 1 <= i < old(idcf_sharing)@.len()
                    ==> #[trigger] final(idcf_sharing)@[i] == old(idcf_sharing)@[i],
    {
        self.beta.set(time, beta);
        self.idcf_gen(idcf_sharing, key, time);
    }

    /// Expands `key` into the tree of instance `time`, prepares its OT messages with the
    /// recorded `beta`, and writes the sender's shares to `idcf_sharing`.
    pub fn idcf_gen(&mut self, idcf_sharing: &mut [[u8; 16]], key: [u8; 16], time: usize)
        requires
            old(self).wf(),
            time < old(self).spec_times(),
            old(self).spec_depth() >= 1,
            old(idcf_sharing)@.len() >= pow2(old(self).spec_depth() + 1) - 1,
        ensures
            final(self).wf(),
            final(self).spec_depth() == old(self).spec_depth(),
            final(self).spec_times() == old(self).spec_times(),
            forall|t: int|
                0 <= t < old(self).spec_times() ==> #[trigger] final(self).beta_of(t) == old(self).beta_of(t),
            final(self).holds_instance(
                time as int,
                le_to_u128(key@),
                le_to_u128(old(self).beta_of(time as int)),
            ),
            final(self).other_instances_unchanged(old(self), time as int),
            final(self).msg0(time as int, 0) == old(self).msg0(time as int, 0),
            final(self).msg1(time as int, 0) == old(self).msg1(time as int, 0),
            final(idcf_sharing)@.len() == old(idcf_sharing)@.len(),
            forall|h: nat, x: nat|
                1 <= h <= old(self).spec_depth() && x < pow2(h) ==> #[trigger] final(idcf_sharing)@[node_index(h, x)]@ == u128_to_le(s_share(le_to_u128(key@), h, x)),
            final(idcf_sharing)@[0] == old(idcf_sharing)@[0],
            forall|i: int|
                pow2(old(self).spec_depth() + 1) - 1 <= i < old(idcf_sharing)@.len()
                    ==> #[trigger] final(idcf_sharing)@[i] == old(idcf_sharing)@[i],
    {
        let ghost k = le_to_u128(key@);
        let kg0 = fixed_key_block(0u8);
        let kg1 = fixed_key_block(1u8);
        let kc0 = fixed_key_block(2u8);
        let kc1 = fixed_key_block(3u8);
        let depth = self.depth;
        let beta = u128_from_le(&self.beta[time]);
        let mut base: Vec<u128> = self.base_ggm_tree[time].clone();
        let mut imp: Vec<u128> = self.implementation_values[time].clone();
        let mut m0_row: Vec<[u8; 48]> = self.m0[time].clone();
        let mut m1_row: Vec<[u8; 48]> = self.m1[time].clone();
        let ghost tree_len = pow2(depth as nat + 1);
        proof {
            vstd::arithmetic::power2::lemma2_to64();
            lemma_pow2_strictly_increases(1, depth as nat + 1);
        }
        // The root of the base tree is the key.
        base.set(0, u128_from_le(&key));
        let mut h: usize = 1;
        let mut half: usize = 1;
        while h <= depth
            invariant
                1 <= h <= depth + 1,
                half == pow2((h - 1) as nat),
                half >= 1,
                depth == self.depth,
                depth + 1 < usize::BITS,
                pow2(depth as nat + 1) <= usize::MAX,
                tree_len == pow2(depth as nat + 1),
                base@.len() == tree_len,
                imp@.len() == tree_len,
                m0_row@.len() == depth + 1,
                m1_row@.len() == depth + 1,
                m0_row@[0] == old(self).m0@[time as int]@[0],
                m1_row@[0] == old(self).m1@[time as int]@[0],
                k == le_to_u128(key@),
                kg0@ == crate::aes_prf::fixed_key(0u8),
                kg1@ == crate::aes_prf::fixed_key(1u8),
                kc0@ == crate::aes_prf::fixed_key(2u8),
                kc1@ == crate::aes_prf::fixed_key(3u8),
                forall|h2: nat, x: nat|
                    h2 < h && x < pow2(h2) ==> #[trigger] base@[node_index(h2, x)] == s_base(
                        k,
                        h2,
                        x,
                    ),
                forall|h2: nat, x: nat|
                    1 <= h2 < h && x < pow2(h2) ==> #[trigger] imp@[node_index(h2, x)] == s_impl(
                        k,
                        h2,
                        x,
                    ),
                forall|h2: nat|
                    1 <= h2 < h ==> #[trigger] m0_row@[h2 as int]@ == msg_bytes(
                        s_msg(k, beta, h2, false),
                    ),
                forall|h2: nat|
                    1 <= h2 < h ==> #[trigger] m1_row@[h2 as int]@ == msg_bytes(
                        s_msg(k, beta, h2, true),
                    ),
                forall|i: int|
                    pow2(h as nat) - 1 <= i < tree_len ==> #[trigger] base@[i] == old(self).base_ggm_tree@[time as int]@[i],
                forall|i: int|
                    pow2(h as nat) - 1 <= i < tree_len ==> #[trigger] imp@[i] == old(self).implementation_values@[time as int]@[i],
            decreases depth + 1 - h,
        {
            proof {
                lemma_pow2_unfold(h as nat);
                lemma_pow2_unfold(h as nat + 1);
                lemma_pow2_strictly_increases(h as nat, depth as nat + 1);
                if h < depth {
                    lemma_pow2_strictly_increases(h as nat + 1, depth as nat + 1);
                }
            }
            let prev_start = half - 1;
            let start = 2 * half - 1;
            let mut parents: Vec<u128> = Vec::new();
            let mut i: usize = 0;
            while i < half
                invariant
                    i <= half,
                    half == pow2((h - 1) as nat),
                    prev_start == half - 1,
                    base@.len() == tree_len,
                    tree_len <= usize::MAX,
                    2 * half <= tree_len,
                    parents@.len() == i,
                    forall|j: int| 0 <= j < i ==> #[trigger] parents@[j] == base@[prev_start + j],
                decreases half - i,
            {
                parents.push(base[prev_start + i]);
                i += 1;
            }
            let lg = aes128_encrypt_blocks(&kg0, &parents);
            let rg = aes128_encrypt_blocks(&kg1, &parents);
            let lc = aes128_encrypt_blocks(&kc0, &parents);
            let rc = aes128_encrypt_blocks(&kc1, &parents);
            let ghost h1 = (h - 1) as nat;
            assert forall|j: int| 0 <= j < half implies #[trigger] parents@[j] == s_base(
                k,
                h1,
                j as nat,
            ) by {
                assert(parents@[j] == base@[node_index(h1, j as nat)]);
            }
            let mut lb: u128 = 0;
            let mut rb: u128 = 0;
            let mut li: u128 = 0;
            let mut ri: u128 = 0;
            let ghost base_before = base@;
            let ghost imp_before = imp@;
            let mut i: usize = 0;
            while i < half
                invariant
                    i <= half,
                    half == pow2(h1),
                    h1 == h - 1,
                    start == 2 * half - 1,
                    4 * half <= tree_len + 1,
                    tree_len <= usize::MAX,
                    base@.len() == tree_len,
                    imp@.len() == tree_len,
                    lg@.len() == half,
                    rg@.len() == half,
                    lc@.len() == half,
                    rc@.len() == half,
                    forall|j: int|
                        0 <= j < half ==> #[trigger] lg@[j] == s_children(k, h1, false)(j as nat),
                    forall|j: int|
                        0 <= j < half ==> #[trigger] rg@[j] == s_children(k, h1, true)(j as nat),
                    forall|j: int|
                        0 <= j < half ==> #[trigger] lc@[j] == s_children_impl(k, h1, false)(
                            j as nat,
                        ),
                    forall|j: int|
                        0 <= j < half ==> #[trigger] rc@[j] == s_children_impl(k, h1, true)(
                            j as nat,
                        ),
                    lb == psum(s_children(k, h1, false), i as nat),
                    rb == psum(s_children(k, h1, true), i as nat),
                    li == psum(s_children_impl(k, h1, false), i as nat),
                    ri == psum(s_children_impl(k, h1, true), i as nat),
                    forall|j: int| 0 <= j < i ==> base@[start + 2 * j] == #[trigger] lg@[j],
                    forall|j: int| 0 <= j < i ==> base@[start + 2 * j + 1] == #[trigger] rg@[j],
                    forall|j: int| 0 <= j < i ==> imp@[start + 2 * j] == #[trigger] lc@[j],
                    forall|j: int| 0 <= j < i ==> imp@[start + 2 * j + 1] == #[trigger] rc@[j],
                    forall|j: int|
                        0 <= j < tree_len && !(start <= j < start + 2 * i) ==> #[trigger] base@[j]
                            == base_before[j],
                    forall|j: int|
                        0 <= j < tree_len && !(start <= j < start + 2 * i) ==> #[trigger] imp@[j]
                            == imp_before[j],
                decreases half - i,
            {
                base.set(start + 2 * i, lg[i]);
                base.set(start + 2 * i + 1, rg[i]);
                imp.set(start + 2 * i, lc[i]);
                imp.set(start + 2 * i + 1, rc[i]);
                lb = lb ^ lg[i];
                rb = rb ^ rg[i];
                li = li ^ lc[i];
                ri = ri ^ rc[i];
                i += 1;
            }
            let (m0h, m1h) = if h == 1 {
                (concat_le3(rb, li ^ beta, ri ^ beta), concat_le3(lb, li, ri ^ beta))
            } else {
                (concat_le3(rb, li, ri), concat_le3(lb, li ^ beta, ri))
            };
            m0_row.set(h, m0h);
            m1_row.set(h, m1h);
            proof {
                assert forall|x: nat| x < pow2(h as nat) implies base@[node_index(h as nat, x)]
                    == s_base(k, h as nat, x) && imp@[node_index(h as nat, x)] == s_impl(
                    k,
                    h as nat,
                    x,
                ) by {
                    let j = (x / 2) as int;
                    assert(x == 2 * j + x % 2);
                    assert(node_index(h as nat, x) == start + x);
                    assert(0 <= j < half);
                    if x % 2 == 0 {
                        assert(base@[start + 2 * j] == lg@[j]);
                        assert(imp@[start + 2 * j] == lc@[j]);
                    } else {
                        assert(base@[start + 2 * j + 1] == rg@[j]);
                        assert(imp@[start + 2 * j + 1] == rc@[j]);
                    }
                }
                assert forall|h2: nat, x: nat|
                    h2 < h + 1 && x < pow2(h2) implies #[trigger] base@[node_index(h2, x)]
                    == s_base(k, h2, x) by {
                    if h2 + 1 < h {
                        lemma_pow2_strictly_increases(h2 + 1, h as nat);
                    }
                    if h2 < h {
                        lemma_pow2_unfold(h2 + 1);
                        assert(base@[node_index(h2, x)] == base_before[node_index(h2, x)]);
                    }
                }
                assert forall|h2: nat, x: nat|
                    1 <= h2 < h + 1 && x < pow2(h2) implies #[trigger] imp@[node_index(h2, x)]
                    == s_impl(k, h2, x) by {
                    if h2 + 1 < h {
                        lemma_pow2_strictly_increases(h2 + 1, h as nat);
                    }
                    if h2 < h {
                        lemma_pow2_unfold(h2 + 1);
                        assert(imp@[node_index(h2, x)] == imp_before[node_index(h2, x)]);
                    }
                }
                assert(m0_row@[h as int]@ == msg_bytes(s_msg(k, beta, h as nat, false)));
                assert(m1_row@[h as int]@ == msg_bytes(s_msg(k, beta, h as nat, true)));
            }
            h += 1;
            half = 2 * half;
        }
        self.write_shares(idcf_sharing, &imp, Ghost(k));
        assert(self.depth == old(self).depth && self.times == old(self).times);
        assert(base@.len() == tree_len && imp@.len() == tree_len);
        self.base_ggm_tree.set(time, base);
        self.implementation_values.set(time, imp);
        self.m0.set(time, m0_row);
        self.m1.set(time, m1_row);
        assert forall|t: int|
            #![trigger self.base_ggm_tree@[t]@.len()]
            #![trigger self.implementation_values@[t]@.len()]
            #![trigger self.m0@[t]@.len()]
            #![trigger self.m1@[t]@.len()]
            0 <= t < self.times implies {
            &&& self.base_ggm_tree@[t]@.len() == pow2(self.depth as nat + 1)
            &&& self.implementation_values@[t]@.len() == pow2(self.depth as nat + 1)
            &&& self.m0@[t]@.len() == self.depth + 1
            &&& self.m1@[t]@.len() == self.depth + 1
        } by {
            if t != time {
                assert(self.base_ggm_tree@[t] == old(self).base_ggm_tree@[t]);
                assert(self.implementation_values@[t] == old(self).implementation_values@[t]);
                assert(self.m0@[t] == old(self).m0@[t]);
                assert(self.m1@[t] == old(self).m1@[t]);
            } else {
                assert(self.base_ggm_tree@[t]@.len() == tree_len);
                assert(self.implementation_values@[t]@.len() == tree_len);
            }
        }
    }

    /// Writes the shares of all nodes of levels `1..=depth`, computed from the
    /// implementation values `imp` of `key`.
    fn write_shares(&self, idcf_sharing: &mut [[u8; 16]], imp: &Vec<u128>, Ghost(k): Ghost<u128>)
        requires
            self.depth >= 1,
            self.depth + 1 < usize::BITS,
            pow2(self.depth as nat + 1) <= usize::MAX,
            imp@.len() == pow2(self.depth as nat + 1),
            old(idcf_sharing)@.len() >= pow2(self.depth as nat + 1) - 1,
            forall|h2: nat, x: nat|
                1 <= h2 <= self.depth && x < pow2(h2) ==> #[trigger] imp@[node_index(h2, x)]
                    == s_impl(k, h2, x),
        ensures
            final(idcf_sharing)@.len() == old(idcf_sharing)@.len(),
            forall|h: nat, x: nat|
                1 <= h <= self.depth && x < pow2(h) ==> #[trigger] final(idcf_sharing)@[node_index(h, x)]@ == u128_to_le(s_share(k, h, x)),
            final(idcf_sharing)@[0] == old(idcf_sharing)@[0],
            forall|i: int|
                pow2(self.depth as nat + 1) - 1 <= i < old(idcf_sharing)@.len()
                    ==> #[trigger] final(idcf_sharing)@[i] == old(idcf_sharing)@[i],
    {
        let ghost share = |h: nat, x: nat| s_share(k, h, x);
        assert forall|x: nat| x < 2 implies #[trigger] share(1, x) == imp@[node_index(1, x)] by {
            vstd::arithmetic::power2::lemma2_to64();
            assert(imp@[node_index(1, x)] == s_impl(k, 1, x));
        }
        assert forall|h: nat, x: nat| 2 <= h <= self.depth && x < pow2(h) implies #[trigger] share(
            h,
            x,
        ) == share((h - 1) as nat, x / 2) ^ imp@[node_index(h, x)] by {
            assert(imp@[node_index(h, x)] == s_impl(k, h, x));
        }
        write_path_shares(idcf_sharing, imp, self.depth, Ghost(share))
    }
}

/// Writes `XOR` of `imp` along the path from level 1 to every node of levels `1..=depth`.
pub fn write_path_shares(
    idcf_sharing: &mut [[u8; 16]],
    imp: &Vec<u128>,
    depth: usize,
    Ghost(share): Ghost<spec_fn(nat, nat) -> u128>,
)
    requires
        depth >= 1,
        depth + 1 < usize::BITS,
        pow2(depth as nat + 1) <= usize::MAX,
        imp@.len() == pow2(depth as nat + 1),
        old(idcf_sharing)@.len() >= pow2(depth as nat + 1) - 1,
        forall|x: nat| x < 2 ==> #[trigger] share(1, x) == imp@[node_index(1, x)],
        forall|h: nat, x: nat|
            2 <= h <= depth && x < pow2(h) ==> #[trigger] share(h, x) == share(
                (h - 1) as nat,
                x / 2,
            ) ^ imp@[node_index(h, x)],
    ensures
        final(idcf_sharing)@.len() == old(idcf_sharing)@.len(),
        forall|h: nat, x: nat|
            1 <= h <= depth && x < pow2(h) ==> #[trigger] final(idcf_sharing)@[node_index(h, x)]@
                == u128_to_le(share(h, x)),
        final(idcf_sharing)@[0] == old(idcf_sharing)@[0],
        forall|i: int|
            pow2(depth as nat + 1) - 1 <= i < old(idcf_sharing)@.len() ==> #[trigger] final(idcf_sharing)@[i] == old(idcf_sharing)@[i],
{
    proof {
        vstd::arithmetic::power2::lemma2_to64();
        if depth >= 2 {
            lemma_pow2_strictly_increases(2, depth as nat + 1);
        }
    }
    let mut prev: Vec<u128> = Vec::new();
    prev.push(imp[1]);
    prev.push(imp[2]);
    idcf_sharing[1] = u128_to_le_bytes(imp[1]);
    idcf_sharing[2] = u128_to_le_bytes(imp[2]);
    let mut h: usize = 2;
    let mut size: usize = 4;
    assert(node_index(1, 0) == 1 && node_index(1, 1) == 2);
    while h <= depth
        invariant
            2 <= h <= depth + 1,
            size == pow2(h as nat),
            size >= 4,
            depth + 1 < usize::BITS,
            pow2(depth as nat + 1) <= usize::MAX,
            imp@.len() == pow2(depth as nat + 1),
            idcf_sharing@.len() == old(idcf_sharing)@.len(),
            old(idcf_sharing)@.len() >= pow2(depth as nat + 1) - 1,
            forall|x: nat| x < 2 ==> #[trigger] share(1, x) == imp@[node_index(1, x)],
            forall|h2: nat, x: nat|
                2 <= h2 <= depth && x < pow2(h2) ==> #[trigger] share(h2, x) == share(
                    (h2 - 1) as nat,
                    x / 2,
                ) ^ imp@[node_index(h2, x)],
            prev@.len() == size / 2,
            forall|x: int| 0 <= x < size / 2 ==> #[trigger] prev@[x] == share((h - 1) as nat, x as nat),
            forall|h2: nat, x: nat|
                1 <= h2 < h && x < pow2(h2) ==> #[trigger] idcf_sharing@[node_index(h2, x)]@
                    == u128_to_le(share(h2, x)),
            idcf_sharing@[0] == old(idcf_sharing)@[0],
            forall|i: int|
                pow2(h as nat) - 1 <= i < old(idcf_sharing)@.len() ==> #[trigger] idcf_sharing@[i]
                    == old(idcf_sharing)@[i],
        decreases depth + 1 - h,
    {
        proof {
            lemma_pow2_unfold(h as nat);
            lemma_pow2_unfold(h as nat + 1);
            lemma_pow2_strictly_increases(h as nat, depth as nat + 1);
            if h < depth {
                lemma_pow2_strictly_increases(h as nat + 1, depth as nat + 1);
            }
        }
        let start = size - 1;
        let ghost before = idcf_sharing@;
        let mut cur: Vec<u128> = Vec::new();
        let mut x: usize = 0;
        while x < size
            invariant
                x <= size,
                size == pow2(h as nat),
                size == 2 * (size / 2),
                size >= 4,
                start == size - 1,
                pow2(depth as nat + 1) <= usize::MAX,
                2 <= h <= depth,
                2 * size <= pow2(depth as nat + 1),
                imp@.len() == pow2(depth as nat + 1),
                idcf_sharing@.len() == before.len(),
                before.len() >= pow2(depth as nat + 1) - 1,
                prev@.len() == size / 2,
                forall|y: int| 0 <= y < size / 2 ==> #[trigger] prev@[y] == share((h - 1) as nat, y as nat),
                forall|h2: nat, y: nat|
                    2 <= h2 <= depth && y < pow2(h2) ==> #[trigger] share(h2, y) == share(
                        (h2 - 1) as nat,
                        y / 2,
                    ) ^ imp@[node_index(h2, y)],
                cur@.len() == x,
                forall|y: int| 0 <= y < x ==> #[trigger] cur@[y] == share(h as nat, y as nat),
                forall|y: int| 0 <= y < x ==> #[trigger] idcf_sharing@[start + y]@ == u128_to_le(share(h as nat, y as nat)),
                forall|i: int|
                    0 <= i < before.len() && !(start <= i < start + x) ==> #[trigger] idcf_sharing@[i] == before[i],
            decreases size - x,
        {
            let v = prev[x / 2] ^ imp[start + x];
            assert(node_index(h as nat, x as nat) == start + x);
            assert(v == share(h as nat, x as nat));
            cur.push(v);
            idcf_sharing[start + x] = u128_to_le_bytes(v);
            x += 1;
        }
        proof {
            assert forall|h2: nat, y: nat|
                1 <= h2 < h + 1 && y < pow2(h2) implies #[trigger] idcf_sharing@[node_index(h2, y)]@
                == u128_to_le(share(h2, y)) by {
                if h2 + 1 < h {
                    lemma_pow2_strictly_increases(h2 + 1, h as nat);
                }
                if h2 < h {
                    lemma_pow2_unfold(h2 + 1);
                } else {
                    assert(node_index(h2, y) == start + y);
                }
            }
        }
        prev = cur;
        h += 1;
        size = size * 2;
    }
}

/// Reads the three 16-byte parts of a 48-byte message as little-endian `u128`s.
pub fn convert_u8_to_u128(a: &[u8; 48]) -> (r: [u128; 3])
    ensures
        r@ == msg_parts(a@),
{
    let r = [u128_from_le_at(a, 0), u128_from_le_at(a, 16), u128_from_le_at(a, 32)];
    assert(r@ =~= msg_parts(a@));
    r
}

} // verus!
