//! Mathematical model of the single-point function secret sharing over GF(2^128) (SPFSS).
//!
//! The sender expands a random seed into a GGM tree (left child `G0`, right child `G1`)
//! and, for every level, sends through oblivious transfer the XOR of the left children
//! and the XOR of the right children. The receiver, who picks one of the two sums per
//! level, rebuilds every node of the tree except those on one root-to-leaf path.
use vstd::prelude::*;
use vstd::arithmetic::power2::pow2;
use crate::two_key_prp::ggm_child;
use crate::gf128::hash_coeff;
use crate::hashing::digest_seed;
use crate::gf128::lemma_xor_facts;
use crate::band_system::lemma_xor_cancel;
use vstd::arithmetic::power2::lemma_pow2_unfold;

verus! {

/// Node `x` of level `h` of the sender's tree with root `seed`.
pub open spec fn s_node(seed: u128, h: nat, x: nat) -> u128
    decreases h,
{
    if h == 0 {
        seed
    } else {
        ggm_child(x % 2 == 1, s_node(seed, (h - 1) as nat, x / 2))
    }
}

/// Level `h` of the sender's tree.
pub open spec fn s_level(seed: u128, h: nat) -> Seq<u128> {
    Seq::new(pow2(h), |x: int| s_node(seed, h, x as nat))
}

/// XOR of the `s[j]`, `j < n`, with `j mod 2 == parity`.
pub open spec fn parity_xor(s: Seq<u128>, parity: int, n: int) -> u128
    decreases n,
{
    if n <= 0 {
        0
    } else {
        parity_xor(s, parity, n - 1) ^ (if (n - 1) % 2 == parity { s[n - 1] } else { 0 })
    }
}

/// XOR of the `s[j]`, `j < n`.
pub open spec fn xor_all(s: Seq<u128>, n: int) -> u128
    decreases n,
{
    if n <= 0 {
        0
    } else {
        xor_all(s, n - 1) ^ s[n - 1]
    }
}

/// The leaves of a tree of `depth` levels (level `depth - 1` holds the `2^(depth-1)` leaves;
/// a tree of one level has the left child of the root as its only leaf).
pub open spec fn s_leaves(seed: u128, depth: nat) -> Seq<u128> {
    if depth <= 1 {
        seq![ggm_child(false, seed)]
    } else {
        s_level(seed, (depth - 1) as nat)
    }
}

/// The position at level `i` of the receiver's unknown path: left where the receiver chose
/// the right-hand sum (`b[i-1]`), right where it chose the left-hand one.
pub open spec fn r_path(b: Seq<bool>, i: nat) -> nat
    decreases i,
{
    if i == 0 {
        0
    } else {
        2 * r_path(b, (i - 1) as nat) + if b[i - 1] { 0nat } else { 1nat }
    }
}

/// The sibling, at level `i >= 1`, of the path node: the node the receiver recovers from
/// the sum it chose.
pub open spec fn r_sibling(b: Seq<bool>, i: nat) -> nat {
    2 * r_path(b, (i - 1) as nat) + if b[i - 1] { 1nat } else { 0nat }
}

/// Level `i` before the sibling is filled: children of the known nodes of level `i - 1`,
/// zero under the path node.
pub open spec fn r_pre_level(b: Seq<bool>, m: Seq<u128>, i: nat) -> Seq<u128>
    decreases i, 0nat,
{
    if i == 0 {
        seq![0u128]
    } else {
        let prev = r_level(b, m, (i - 1) as nat);
        Seq::new(
            pow2(i),
            |x: int|
                if x / 2 == r_path(b, (i - 1) as nat) {
                    0u128
                } else {
                    ggm_child(x % 2 == 1, prev[x / 2])
                },
        )
    }
}

/// Level `i` as the receiver rebuilds it: the sibling of the path node is the received sum
/// XOR the known nodes on its side; the path node stays zero.
pub open spec fn r_level(b: Seq<bool>, m: Seq<u128>, i: nat) -> Seq<u128>
    decreases i, 1nat,
{
    if i == 0 {
        seq![0u128]
    } else {
        let p = r_pre_level(b, m, i);
        let sib = r_sibling(b, i);
        p.update(sib as int, parity_xor(p, (sib % 2) as int, pow2(i) as int) ^ m[i - 1])
    }
}

/// The receiver's leaves before the punctured one is set: level `depth - 1`, or a single
/// zero for a one-level tree.
pub open spec fn r_leaves(b: Seq<bool>, m: Seq<u128>, depth: nat) -> Seq<u128> {
    if depth <= 1 {
        seq![0u128]
    } else {
        r_level(b, m, (depth - 1) as nat)
    }
}

/// The receiver's output: the rebuilt leaves, with the punctured leaf `alpha` set to
/// `delta2 ^ share ^` the XOR of all other leaves.
pub open spec fn r_output(leaves: Seq<u128>, alpha: int, share: u128, delta2: u128) -> Seq<u128> {
    let z = leaves.update(alpha, 0u128);
    leaves.update(alpha, delta2 ^ (xor_all(z, z.len() as int) ^ share))
}

/// The `n` coefficients of the consistency check derived from `v`: the powers of
/// `digest_seed(v)`.
pub open spec fn check_coeffs(v: u128, n: nat) -> Seq<u128> {
    Seq::new(n, |i: int| hash_coeff(digest_seed(v), i as nat))
}

/// The sums the sender offers for level `i + 1`: the XOR of its left children (`false`) or
/// of its right children (`true`).
pub open spec fn s_msg(seed: u128, i: nat, right: bool) -> u128 {
    parity_xor(s_level(seed, i + 1), if right { 1int } else { 0int }, pow2(i + 1) as int)
}

/// Replacing one entry of side `parity` by zero removes it from that side's sum; the other
/// side's sum does not change.
proof fn lemma_parity_xor_zeroed(s: Seq<u128>, t: Seq<u128>, parity: int, k: int, n: int)
    requires
        0 <= k < n,
        0 <= parity <= 1,
        forall|j: int| 0 <= j < n && j != k ==> #[trigger] t[j] == s[j],
        t[k] == 0,
    ensures
        k % 2 == parity ==> parity_xor(t, parity, n) == parity_xor(s, parity, n) ^ s[k],
        k % 2 != parity ==> parity_xor(t, parity, n) == parity_xor(s, parity, n),
    decreases n,
{
    if n - 1 > k {
        lemma_parity_xor_zeroed(s, t, parity, k, n - 1);
        let a = parity_xor(s, parity, n - 1);
        let v = if (n - 1) % 2 == parity { s[n - 1] } else { 0u128 };
        assert(t[n - 1] == s[n - 1]);
        assert(parity_xor(t, parity, n) == parity_xor(t, parity, n - 1) ^ v);
        assert(parity_xor(s, parity, n) == a ^ v);
        lemma_xor_facts(a, s[k], v);
        lemma_xor_facts(a, v, s[k]);
        lemma_xor_facts(s[k], v, 0u128);
    } else {
        crate::spfss_receiver_f2k::lemma_parity_xor_prefix(s, t, parity, n - 1);
        let a = parity_xor(s, parity, n - 1);
        assert(parity_xor(t, parity, n) == parity_xor(t, parity, n - 1) ^ 0u128);
        lemma_xor_facts(a, 0u128, 0u128);
        lemma_xor_cancel(a, s[k]);
    }
}

/// Replacing one entry by zero removes it from the sum.
proof fn lemma_xor_all_zeroed(s: Seq<u128>, t: Seq<u128>, k: int, n: int)
    requires
        0 <= k < n,
        forall|j: int| 0 <= j < n && j != k ==> #[trigger] t[j] == s[j],
        t[k] == 0,
    ensures
        xor_all(t, n) == xor_all(s, n) ^ s[k],
    decreases n,
{
    if n - 1 > k {
        lemma_xor_all_zeroed(s, t, k, n - 1);
        let a = xor_all(s, n - 1);
        assert(t[n - 1] == s[n - 1]);
        lemma_xor_facts(a, s[k], s[n - 1]);
        lemma_xor_facts(a, s[n - 1], s[k]);
        lemma_xor_facts(s[k], s[n - 1], 0u128);
    } else {
        crate::spfss_receiver_f2k::lemma_xor_all_prefix(s, t, n - 1);
        let a = xor_all(s, n - 1);
        lemma_xor_facts(a, 0u128, 0u128);
        lemma_xor_cancel(a, s[k]);
    }
}

/// Level `i` as the receiver rebuilds it equals the sender's off the receiver's path, when
/// the receiver's sums are the sender's sums it chose.
pub proof fn lemma_r_level_agrees(seed: u128, b: Seq<bool>, m: Seq<u128>, i: nat)
    requires
        forall|l: int| 0 <= l < i ==> #[trigger] m[l] == s_msg(seed, l as nat, b[l]),
    ensures
        forall|x: int|
            0 <= x < pow2(i) && x != r_path(b, i) ==> #[trigger] r_level(b, m, i)[x] == s_node(seed, i, x as nat),
    decreases i,
{
    vstd::arithmetic::power2::lemma2_to64();
    if i > 0 {
        lemma_r_level_agrees(seed, b, m, (i - 1) as nat);
        crate::spfss_receiver_f2k::lemma_r_path_bound(b, (i - 1) as nat);
        crate::spfss_receiver_f2k::lemma_r_level_len(b, m, i);
        lemma_pow2_unfold(i);
        let p = r_path(b, (i - 1) as nat);
        let pre = r_pre_level(b, m, i);
        let sl = s_level(seed, i);
        let sib = r_sibling(b, i);
        let lr = (sib % 2) as int;
        // Off the two children of the path node, the pre-level is the sender's level.
        assert forall|x: int| 0 <= x < pow2(i) && x / 2 != p implies #[trigger] pre[x] == sl[x] by {
            assert(x / 2 < pow2((i - 1) as nat));
            assert(r_level(b, m, (i - 1) as nat)[x / 2] == s_node(seed, (i - 1) as nat, (x / 2) as nat));
            assert(pre[x] == ggm_child(x % 2 == 1, r_level(b, m, (i - 1) as nat)[x / 2]));
            assert(sl[x] == s_node(seed, i, x as nat));
            assert(s_node(seed, i, x as nat) == ggm_child((x as nat) % 2 == 1, s_node(seed, (i - 1) as nat, (x as nat) / 2)));
        }
        assert forall|x: int| 0 <= x < pow2(i) && x / 2 == p implies #[trigger] pre[x] == 0 by {}
        // Zero the sibling in the sender's level: the pre-level agrees with it off the path.
        let sz = sl.update(sib as int, 0u128);
        let path_i = r_path(b, i);
        assert(path_i == 2 * p + if b[i - 1] { 0nat } else { 1nat });
        assert forall|j: int| 0 <= j < pow2(i) && j != path_i implies #[trigger] pre[j] == sz[j] by {
            if j / 2 == p {
                assert(j == sib);
            }
        }
        assert(pre[path_i as int] == 0);
        let st = sz.update(path_i as int, 0u128);
        assert(pre =~= st) by {
            assert forall|j: int| 0 <= j < pre.len() implies pre[j] == st[j] by {
                if j != path_i {
                    assert(pre[j] == sz[j]);
                }
            }
        }
        // The path node is on the other side, so its zero does not change the sibling's side.
        lemma_parity_xor_zeroed(sz, st, lr, path_i as int, pow2(i) as int);
        lemma_parity_xor_zeroed(sl, sz, lr, sib as int, pow2(i) as int);
        assert(m[i - 1] == parity_xor(sl, lr, pow2(i) as int));
        lemma_xor_cancel(parity_xor(sl, lr, pow2(i) as int), sl[sib as int]);
        lemma_xor_facts(parity_xor(sl, lr, pow2(i) as int), sl[sib as int], parity_xor(sl, lr, pow2(i) as int));
        lemma_xor_facts(sl[sib as int], parity_xor(sl, lr, pow2(i) as int), 0u128);
        let lev = r_level(b, m, i);
        assert forall|x: int| 0 <= x < pow2(i) && x != path_i implies #[trigger] lev[x] == s_node(seed, i, x as nat) by {
            if x == sib {
                assert(lev[x] == parity_xor(pre, lr, pow2(i) as int) ^ m[i - 1]);
            } else {
                assert(lev[x] == pre[x]);
                assert(x / 2 != p);
            }
        }
    }
}

/// Single-point function secret sharing is correct: when the receiver's sums are the
/// sender's sums it chose and its share is the sender's masked sum of leaves, the two
/// outputs agree on every leaf but the receiver's punctured one, where they differ by
/// `delta2 ^ gamma`.
pub proof fn lemma_spfss_correct(
    seed: u128,
    depth: nat,
    b: Seq<bool>,
    m: Seq<u128>,
    gamma: u128,
    delta2: u128,
)
    requires
        depth >= 1,
        forall|l: int| 0 <= l < depth - 1 ==> #[trigger] m[l] == s_msg(seed, l as nat, b[l]),
    ensures
        ({
            let sender = s_leaves(seed, depth);
            let alpha = r_path(b, (depth - 1) as nat) as int;
            let share = xor_all(sender, sender.len() as int) ^ gamma;
            let receiver = r_output(r_leaves(b, m, depth), alpha, share, delta2);
            &&& receiver.len() == sender.len()
            &&& forall|x: int|
                0 <= x < sender.len() ==> #[trigger] (receiver[x] ^ sender[x]) == if x == alpha {
                    delta2 ^ gamma
                } else {
                    0u128
                }
        }),
{
    let sender = s_leaves(seed, depth);
    let alpha = r_path(b, (depth - 1) as nat) as int;
    let share = xor_all(sender, sender.len() as int) ^ gamma;
    let leaves = r_leaves(b, m, depth);
    let n = sender.len() as int;
    vstd::arithmetic::power2::lemma2_to64();
    crate::spfss_receiver_f2k::lemma_r_path_bound(b, (depth - 1) as nat);
    if depth >= 2 {
        lemma_r_level_agrees(seed, b, m, (depth - 1) as nat);
        crate::spfss_receiver_f2k::lemma_r_level_len(b, m, (depth - 1) as nat);
    }
    assert(leaves.len() == n);
    let z = leaves.update(alpha, 0u128);
    assert forall|j: int| 0 <= j < n && j != alpha implies #[trigger] z[j] == sender[j] by {}
    lemma_xor_all_zeroed(sender, z, alpha, n);
    let receiver = r_output(leaves, alpha, share, delta2);
    let total = xor_all(sender, n);
    let sa = sender[alpha];
    assert(receiver[alpha] == delta2 ^ ((total ^ sa) ^ (total ^ gamma)));
    lemma_xor_facts(total, sa, total ^ gamma);
    lemma_xor_facts(sa, total, gamma);
    lemma_xor_facts(total, total, gamma);
    lemma_xor_facts(sa, total ^ total, gamma);
    lemma_xor_facts(sa, 0u128, gamma);
    lemma_xor_facts(total ^ sa, total, gamma);
    lemma_xor_facts(sa, gamma, 0u128);
    lemma_xor_facts(delta2, sa ^ gamma, sa);
    lemma_xor_facts(sa, gamma, sa);
    lemma_xor_facts(gamma, sa, sa);
    lemma_xor_facts(sa, sa, gamma);
    lemma_xor_facts(0u128, gamma, 0u128);
    lemma_xor_facts(gamma, 0u128, 0u128);
    assert forall|x: int| 0 <= x < n implies #[trigger] (receiver[x] ^ sender[x]) == if x == alpha {
        delta2 ^ gamma
    } else {
        0u128
    } by {
        if x != alpha {
            lemma_xor_facts(sender[x], 0u128, 0u128);
        } else {
            crate::gf128::lemma_xor4(total, sa, total, gamma);
            lemma_xor_cancel(sa ^ gamma, 0u128);
            assert((total ^ sa) ^ (total ^ gamma) == sa ^ gamma);
            assert((delta2 ^ (sa ^ gamma)) ^ sa == delta2 ^ gamma);
        }
    }
}

} // verus!
