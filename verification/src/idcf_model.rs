//! Mathematical model of the incremental distributed comparison function (IDCF).
//!
//! Nodes of a complete binary tree are numbered level by level: node `x` of level `h`
//! (`0 <= x < 2^h`) has children `2x` and `2x + 1`.  The sender expands a key along the
//! tree with two fixed-key AES instances (`G0`, `G1`) and derives one "implementation value"
//! per node with two more (`C0`, `C1`).  A share of node `x` at level `h` is the XOR of the
//! implementation values on the path from level 1 to `x`.  The receiver, who learns one
//! 48-byte message per level through oblivious transfer, rebuilds everything except the
//! path of its input `alpha`; the two shares then differ by `beta` exactly on the nodes
//! `x >= alpha[..h]` and agree elsewhere.
use crate::aes_prf::{aes128_encrypt, fixed_key};
use crate::bytes::{le_to_u128, u128_to_le};
use crate::gf128::lemma_xor_facts;
use vstd::arithmetic::power2::{lemma_pow2_unfold, pow2};
use vstd::prelude::*;

verus! {

/// `G0` / `G1`: expansion of a base-tree node into its left / right child.
pub open spec fn prg_g(right: bool, v: u128) -> u128 {
    aes128_encrypt(fixed_key(if right { 1u8 } else { 0u8 }), v)
}

/// `C0` / `C1`: implementation value of the left / right child of a base-tree node.
pub open spec fn prg_c(right: bool, v: u128) -> u128 {
    aes128_encrypt(fixed_key(if right { 3u8 } else { 2u8 }), v)
}

/// `XOR_{i < n} f(i)`.
pub open spec fn psum(f: spec_fn(nat) -> u128, n: nat) -> u128
    decreases n,
{
    if n == 0 {
        0u128
    } else {
        psum(f, (n - 1) as nat) ^ f((n - 1) as nat)
    }
}

/// `XOR_{i < n, i != e} f(i)`.
pub open spec fn psum_except(f: spec_fn(nat) -> u128, n: nat, e: nat) -> u128
    decreases n,
{
    if n == 0 {
        0u128
    } else if (n - 1) as nat == e {
        psum_except(f, (n - 1) as nat, e)
    } else {
        psum_except(f, (n - 1) as nat, e) ^ f((n - 1) as nat)
    }
}

// ---------------------------------------------------------------------------
// Sender
// ---------------------------------------------------------------------------

/// Node `x` of level `h` of the sender's base (GGM) tree rooted at `key`.
pub open spec fn s_base(key: u128, h: nat, x: nat) -> u128
    decreases h,
{
    if h == 0 {
        key
    } else {
        prg_g(x % 2 == 1, s_base(key, (h - 1) as nat, x / 2))
    }
}

/// Implementation value of node `x` of level `h >= 1` of the sender's tree.
pub open spec fn s_impl(key: u128, h: nat, x: nat) -> u128 {
    prg_c(x % 2 == 1, s_base(key, (h - 1) as nat, x / 2))
}

/// Share of node `x` of level `h >= 1`: XOR of the implementation values from level 1 down to `x`.
pub open spec fn s_share(key: u128, h: nat, x: nat) -> u128
    decreases h,
{
    if h <= 1 {
        s_impl(key, 1, x)
    } else {
        s_share(key, (h - 1) as nat, x / 2) ^ s_impl(key, h, x)
    }
}

/// `i |-> G_right(s_base(key, h1, i))`: the left or right children of level `h1`.
pub open spec fn s_children(key: u128, h1: nat, right: bool) -> spec_fn(nat) -> u128 {
    |i: nat| prg_g(right, s_base(key, h1, i))
}

/// `i |-> C_right(s_base(key, h1, i))`: implementation values of the children of level `h1`.
pub open spec fn s_children_impl(key: u128, h1: nat, right: bool) -> spec_fn(nat) -> u128 {
    |i: nat| prg_c(right, s_base(key, h1, i))
}

/// XOR of the left (`right == false`) or right children's base values at level `h >= 1`.
pub open spec fn s_base_sum(key: u128, h: nat, right: bool) -> u128 {
    psum(s_children(key, (h - 1) as nat, right), pow2((h - 1) as nat))
}

/// XOR of the left or right children's implementation values at level `h >= 1`.
pub open spec fn s_impl_sum(key: u128, h: nat, right: bool) -> u128 {
    psum(s_children_impl(key, (h - 1) as nat, right), pow2((h - 1) as nat))
}

/// The three 128-bit parts of the OT message for level `h` that a receiver whose bit at
/// that level is `choice` obtains: a base-tree sum that lets it fill the sibling of its
/// path node, and the two implementation sums, masked with `beta` as the comparison requires.
pub open spec fn s_msg(key: u128, beta: u128, h: nat, choice: bool) -> (u128, u128, u128) {
    let lb = s_base_sum(key, h, false);
    let rb = s_base_sum(key, h, true);
    let li = s_impl_sum(key, h, false);
    let ri = s_impl_sum(key, h, true);
    if !choice {
        (rb, if h == 1 { li ^ beta } else { li }, if h == 1 { ri ^ beta } else { ri })
    } else {
        (lb, if h == 1 { li } else { li ^ beta }, if h == 1 { ri ^ beta } else { ri })
    }
}

/// The 48 bytes of a message: its three parts, each in little-endian order.
pub open spec fn msg_bytes(m: (u128, u128, u128)) -> Seq<u8> {
    u128_to_le(m.0) + u128_to_le(m.1) + u128_to_le(m.2)
}

/// The three parts of a 48-byte message.
pub open spec fn msg_parts(m: Seq<u8>) -> Seq<u128> {
    seq![msg_part(m, 0), msg_part(m, 1), msg_part(m, 2)]
}

/// Part `j` of a 48-byte message.
pub open spec fn msg_part(m: Seq<u8>, j: int) -> u128 {
    le_to_u128(m.subrange(16 * j, 16 * j + 16))
}

// ---------------------------------------------------------------------------
// Receiver
// ---------------------------------------------------------------------------

/// The prefix of length `h` of the receiver's path, as a number: `alpha[1] alpha[2] ... alpha[h]`.
pub open spec fn path_node(alpha: Seq<bool>, h: nat) -> nat
    decreases h,
{
    if h == 0 {
        0
    } else {
        2 * path_node(alpha, (h - 1) as nat) + (if alpha[h as int] { 1nat } else { 0nat })
    }
}

/// `i |-> G_right(r_base(.., h1, i))`.
pub open spec fn r_children(root: u128, alpha: Seq<bool>, m: Seq<Seq<u8>>, h1: nat, right: bool) -> spec_fn(nat) -> u128
    decreases h1 + 1, 0nat,
{
    |i: nat| prg_g(right, r_base(root, alpha, m, h1, i))
}

/// `i |-> C_right(r_base(.., h1, i))`.
pub open spec fn r_children_impl(root: u128, alpha: Seq<bool>, m: Seq<Seq<u8>>, h1: nat, right: bool) -> spec_fn(nat) -> u128 {
    |i: nat| prg_c(right, r_base(root, alpha, m, h1, i))
}

/// Node `x` of level `h` of the receiver's base tree, rebuilt from its root value `root`,
/// its path `alpha` and the messages `m` (`m[h]` holds 48 bytes for level `h`).
pub open spec fn r_base(root: u128, alpha: Seq<bool>, m: Seq<Seq<u8>>, h: nat, x: nat) -> u128
    decreases h, 1nat,
{
    if h == 0 {
        root
    } else {
        let p = path_node(alpha, (h - 1) as nat);
        let fill_right = !alpha[h as int];
        if x == 2 * p + (if fill_right { 1nat } else { 0nat }) {
            msg_part(m[h as int], 0) ^ psum_except(
                r_children(root, alpha, m, (h - 1) as nat, fill_right),
                pow2((h - 1) as nat),
                p,
            )
        } else {
            prg_g(x % 2 == 1, r_base(root, alpha, m, (h - 1) as nat, x / 2))
        }
    }
}

/// Implementation value of node `x` of level `h >= 1` of the receiver's tree.
pub open spec fn r_impl(root: u128, alpha: Seq<bool>, m: Seq<Seq<u8>>, h: nat, x: nat) -> u128 {
    let p = path_node(alpha, (h - 1) as nat);
    if x == 2 * p {
        msg_part(m[h as int], 1) ^ psum_except(
            r_children_impl(root, alpha, m, (h - 1) as nat, false),
            pow2((h - 1) as nat),
            p,
        )
    } else if x == 2 * p + 1 {
        msg_part(m[h as int], 2) ^ psum_except(
            r_children_impl(root, alpha, m, (h - 1) as nat, true),
            pow2((h - 1) as nat),
            p,
        )
    } else {
        prg_c(x % 2 == 1, r_base(root, alpha, m, (h - 1) as nat, x / 2))
    }
}

/// Share of node `x` of level `h >= 1` held by the receiver.
pub open spec fn r_share(root: u128, alpha: Seq<bool>, m: Seq<Seq<u8>>, h: nat, x: nat) -> u128
    decreases h,
{
    if h <= 1 {
        r_impl(root, alpha, m, 1, x)
    } else {
        r_share(root, alpha, m, (h - 1) as nat, x / 2) ^ r_impl(root, alpha, m, h, x)
    }
}

/// The receiver holds, for every level `1 <= h <= depth`, the message that the sender with
/// `key` and `beta` prepared for the receiver's bit at that level.
pub open spec fn messages_match(
    key: u128,
    beta: u128,
    alpha: Seq<bool>,
    m: Seq<Seq<u8>>,
    depth: nat,
) -> bool {
    &&& alpha.len() > depth
    &&& m.len() > depth
    &&& forall|h: nat|
        1 <= h <= depth ==> {
            let s = s_msg(key, beta, h, alpha[h as int]);
            &&& #[trigger] msg_part(m[h as int], 0) == s.0
            &&& msg_part(m[h as int], 1) == s.1
            &&& msg_part(m[h as int], 2) == s.2
        }
}

/// Reading part `j` of the bytes of a message gives the part back.
pub proof fn lemma_msg_part_of_bytes(t: (u128, u128, u128))
    ensures
        msg_part(msg_bytes(t), 0) == t.0,
        msg_part(msg_bytes(t), 1) == t.1,
        msg_part(msg_bytes(t), 2) == t.2,
        msg_bytes(t).len() == 48,
{
    let b = msg_bytes(t);
    assert(b.subrange(0, 16) =~= u128_to_le(t.0));
    assert(b.subrange(16, 32) =~= u128_to_le(t.1));
    assert(b.subrange(32, 48) =~= u128_to_le(t.2));
    crate::bytes::lemma_le_roundtrip_value(t.0);
    crate::bytes::lemma_le_roundtrip_value(t.1);
    crate::bytes::lemma_le_roundtrip_value(t.2);
}

/// Writing the parts of a 48-byte message gives the message back.
pub proof fn lemma_msg_bytes_of_parts(a: Seq<u8>)
    requires
        a.len() == 48,
    ensures
        msg_bytes((msg_part(a, 0), msg_part(a, 1), msg_part(a, 2))) == a,
{
    crate::bytes::lemma_le_roundtrip_bytes(a.subrange(0, 16));
    crate::bytes::lemma_le_roundtrip_bytes(a.subrange(16, 32));
    crate::bytes::lemma_le_roundtrip_bytes(a.subrange(32, 48));
    assert(msg_bytes((msg_part(a, 0), msg_part(a, 1), msg_part(a, 2))) =~= a);
}

// ---------------------------------------------------------------------------
// Sums
// ---------------------------------------------------------------------------

proof fn lemma_psum_split(f: spec_fn(nat) -> u128, n: nat, e: nat)
    requires
        e < n,
    ensures
        psum(f, n) == psum_except(f, n, e) ^ f(e),
    decreases n,
{
    if (n - 1) as nat == e {
        lemma_psum_except_no_e(f, (n - 1) as nat, e);
    } else {
        lemma_psum_split(f, (n - 1) as nat, e);
        let a = psum_except(f, (n - 1) as nat, e);
        let b = f(e);
        let c = f((n - 1) as nat);
        lemma_xor_comm3(a, b, c);
    }
}

proof fn lemma_xor_comm3(a: u128, b: u128, c: u128)
    ensures
        (a ^ b) ^ c == (a ^ c) ^ b,
{
    assert((a ^ b) ^ c == (a ^ c) ^ b) by (bit_vector);
}

proof fn lemma_xor_cancel(a: u128, b: u128, t: u128)
    ensures
        (((a ^ b) ^ t) ^ a) ^ b == t,
        ((a ^ b) ^ a) ^ b == 0u128,
        (a ^ b) ^ a == b,
        a ^ a == 0u128,
        a ^ 0u128 == a,
        0u128 ^ a == a,
{
    assert(a ^ a == 0u128 && a ^ 0u128 == a && 0u128 ^ a == a && (((a ^ b) ^ t) ^ a) ^ b == t && ((a ^ b) ^ a)
        ^ b == 0u128 && (a ^ b) ^ a == b) by (bit_vector);
}

proof fn lemma_psum_except_no_e(f: spec_fn(nat) -> u128, n: nat, e: nat)
    requires
        n <= e,
    ensures
        psum_except(f, n, e) == psum(f, n),
    decreases n,
{
    if n > 0 {
        lemma_psum_except_no_e(f, (n - 1) as nat, e);
    }
}

proof fn lemma_psum_except_congruent(f: spec_fn(nat) -> u128, g: spec_fn(nat) -> u128, n: nat, e: nat)
    requires
        forall|i: nat| i < n && i != e ==> #[trigger] f(i) == g(i),
    ensures
        psum_except(f, n, e) == psum_except(g, n, e),
    decreases n,
{
    if n > 0 {
        lemma_psum_except_congruent(f, g, (n - 1) as nat, e);
    }
}

/// The path node of level `h` is a node of level `h`.
pub proof fn lemma_path_node_bound(alpha: Seq<bool>, h: nat)
    ensures
        path_node(alpha, h) < pow2(h),
    decreases h,
{
    if h > 0 {
        lemma_path_node_bound(alpha, (h - 1) as nat);
        lemma_pow2_unfold(h);
    } else {
        vstd::arithmetic::power2::lemma2_to64();
    }
}

// ---------------------------------------------------------------------------
// Correctness of the comparison
// ---------------------------------------------------------------------------

/// Off the receiver's path, its base tree equals the sender's.
proof fn lemma_base_agrees(
    key: u128,
    beta: u128,
    root: u128,
    alpha: Seq<bool>,
    m: Seq<Seq<u8>>,
    depth: nat,
    h: nat,
    x: nat,
)
    requires
        messages_match(key, beta, alpha, m, depth),
        h <= depth,
        x < pow2(h),
        x != path_node(alpha, h),
    ensures
        r_base(root, alpha, m, h, x) == s_base(key, h, x),
    decreases h,
{
    if h == 0 {
        vstd::arithmetic::power2::lemma2_to64();
    } else {
        let h1 = (h - 1) as nat;
        let p = path_node(alpha, h1);
        let half = pow2(h1);
        lemma_pow2_unfold(h);
        lemma_path_node_bound(alpha, h1);
        let fill_right = !alpha[h as int];
        let fill = 2 * p + (if fill_right { 1nat } else { 0nat });
        if x == fill {
            let fr = r_children(root, alpha, m, h1, fill_right);
            let fs = s_children(key, h1, fill_right);
            assert forall|i: nat| i < half && i != p implies #[trigger] fr(i) == fs(i) by {
                lemma_base_agrees(key, beta, root, alpha, m, depth, h1, i);
            }
            lemma_psum_except_congruent(fr, fs, half, p);
            lemma_psum_split(fs, half, p);
            assert(msg_part(m[h as int], 0) == s_msg(key, beta, h, alpha[h as int]).0);
            assert(msg_part(m[h as int], 0) == psum(fs, half));
            let a = psum_except(fs, half, p);
            let b = fs(p);
            lemma_xor_cancel(a, b, 0u128);
            assert(x / 2 == p);
            assert((x % 2 == 1) == fill_right);
        } else {
            assert(x / 2 != p);
            lemma_base_agrees(key, beta, root, alpha, m, depth, h1, x / 2);
        }
    }
}

/// The receiver's implementation values differ from the sender's only at the two children of
/// its path node, and there by the masks that the messages carry.
proof fn lemma_impl_diff(
    key: u128,
    beta: u128,
    root: u128,
    alpha: Seq<bool>,
    m: Seq<Seq<u8>>,
    depth: nat,
    h: nat,
    x: nat,
)
    requires
        messages_match(key, beta, alpha, m, depth),
        1 <= h <= depth,
        x < pow2(h),
    ensures
        r_impl(root, alpha, m, h, x) ^ s_impl(key, h, x) == ({
            let p = path_node(alpha, (h - 1) as nat);
            if x == 2 * p {
                if (h == 1) != alpha[h as int] {
                    beta
                } else {
                    0u128
                }
            } else if x == 2 * p + 1 {
                if h == 1 {
                    beta
                } else {
                    0u128
                }
            } else {
                0u128
            }
        }),
{
    let h1 = (h - 1) as nat;
    let p = path_node(alpha, h1);
    let half = pow2(h1);
    lemma_pow2_unfold(h);
    lemma_path_node_bound(alpha, h1);
    let s = s_msg(key, beta, h, alpha[h as int]);
    assert(msg_part(m[h as int], 0) == s.0);
    if x == 2 * p || x == 2 * p + 1 {
        let right = x == 2 * p + 1;
        let fr = r_children_impl(root, alpha, m, h1, right);
        let fs = s_children_impl(key, h1, right);
        assert forall|i: nat| i < half && i != p implies #[trigger] fr(i) == fs(i) by {
            lemma_base_agrees(key, beta, root, alpha, m, depth, h1, i);
        }
        lemma_psum_except_congruent(fr, fs, half, p);
        lemma_psum_split(fs, half, p);
        let a = psum_except(fs, half, p);
        let b = fs(p);
        assert(x / 2 == p);
        assert(s_impl(key, h, x) == b);
        lemma_xor_cancel(a, b, beta);
        assert(msg_part(m[h as int], 1) == s.1);
        assert(msg_part(m[h as int], 2) == s.2);
        assert(psum(fs, half) == a ^ b);
        if right {
            assert(s_impl_sum(key, h, true) == a ^ b);
            assert(r_impl(root, alpha, m, h, x) == msg_part(m[h as int], 2) ^ a);
            if h == 1 {
                assert(s.2 == (a ^ b) ^ beta);
            } else {
                assert(s.2 == a ^ b);
            }
        } else {
            assert(s_impl_sum(key, h, false) == a ^ b);
            assert(r_impl(root, alpha, m, h, x) == msg_part(m[h as int], 1) ^ a);
            if (h == 1) != alpha[h as int] {
                assert(s.1 == (a ^ b) ^ beta);
            } else {
                assert(s.1 == a ^ b);
            }
        }
    } else {
        assert(x / 2 != p);
        lemma_base_agrees(key, beta, root, alpha, m, depth, h1, x / 2);
        lemma_xor_cancel(r_impl(root, alpha, m, h, x), 0u128, 0u128);
    }
}

/// Correctness of the incremental distributed comparison function: when the receiver holds,
/// for each level, the message matching its bit, the two shares of every node `x` of every
/// level `h` XOR to `beta` when `x >= alpha[..h]` and to `0` when `x < alpha[..h]`.
pub proof fn lemma_idcf_shares_compare(
    key: u128,
    beta: u128,
    root: u128,
    alpha: Seq<bool>,
    m: Seq<Seq<u8>>,
    depth: nat,
    h: nat,
    x: nat,
)
    requires
        messages_match(key, beta, alpha, m, depth),
        1 <= h <= depth,
        x < pow2(h),
    ensures
        r_share(root, alpha, m, h, x) ^ s_share(key, h, x) == if x >= path_node(alpha, h) {
            beta
        } else {
            0u128
        },
    decreases h,
{
    lemma_impl_diff(key, beta, root, alpha, m, depth, h, x);
    lemma_pow2_unfold(h);
    if h == 1 {
        vstd::arithmetic::power2::lemma2_to64();
        assert(path_node(alpha, 0) == 0);
    } else {
        let h1 = (h - 1) as nat;
        let p = path_node(alpha, h1);
        lemma_idcf_shares_compare(key, beta, root, alpha, m, depth, h1, x / 2);
        let a = r_share(root, alpha, m, h1, x / 2);
        let b = s_share(key, h1, x / 2);
        let c = r_impl(root, alpha, m, h, x);
        let d = s_impl(key, h, x);
        assert((a ^ c) ^ (b ^ d) == (a ^ b) ^ (c ^ d)) by (bit_vector);
        assert(beta ^ beta == 0u128) by (bit_vector);
        assert(beta ^ 0u128 == beta) by (bit_vector);
        assert(0u128 ^ beta == beta) by (bit_vector);
        assert(0u128 ^ 0u128 == 0u128) by (bit_vector);
    }
}

} // verus!
