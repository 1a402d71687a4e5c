//! Base subfield VOLE over GF(2^128) from COPE, with its consistency check: the sender
//! holds `delta`, and a correlated batch satisfies `share_recv = share_send ^ u * delta`.
use vstd::prelude::*;
use crate::cope_f2k::{delta_bit, CopeF2k, NUM_BITS};
use crate::gf128::{
    gf128mul, gf_mul, inner_product, inner_product_upto, lemma_gf_mul_associates, lemma_gf_mul_commutes,
    lemma_gf_mul_distributes, lemma_gf_mul_zero, lemma_xor4, lemma_xor_facts, vector_inner_product_f2k,
};

verus! {

/// One side of the base sVOLE: its role, its COPE instance, and the sender's `delta`.
pub struct BaseSvoleF2k {
    party: bool,
    cope: CopeF2k,
    delta: Option<u128>,
}

impl BaseSvoleF2k {
    /// `true` for the sender.
    pub closed spec fn spec_party(&self) -> bool {
        self.party
    }

    /// The sender's `delta`.
    pub closed spec fn spec_delta(&self) -> Option<u128> {
        self.delta
    }

    /// The COPE instance.
    pub closed spec fn spec_cope(&self) -> CopeF2k {
        self.cope
    }

    /// The sender's side for `delta`, its COPE initialized with `delta`.
    pub fn new_sender(delta: u128) -> (r: Self)
        ensures
            r.spec_party(),
            r.spec_delta() == Some(delta),
            r.spec_cope().initialized(),
            r.spec_cope().spec_delta() == Some(delta),
            forall|i: int| 0 <= i < NUM_BITS ==> #[trigger] r.spec_cope().spec_delta_bool()[i] == delta_bit(delta, i),
    {
        let mut cope = CopeF2k::new(0);
        let _bits = cope.initialize_sender(delta);
        Self { party: true, cope, delta: Some(delta) }
    }

    /// The receiver's side, its COPE initialized.
    pub fn new_receiver() -> (r: Self)
        ensures
            !r.spec_party(),
            r.spec_delta() == None::<u128>,
            r.spec_cope().initialized(),
    {
        let mut cope = CopeF2k::new(1);
        cope.initialize_receiver();
        Self { party: false, cope, delta: None }
    }

    /// The COPE instance.
    pub fn cope(&self) -> (c: &CopeF2k)
        ensures
            *c == self.spec_cope(),
    {
        &self.cope
    }

    /// The sender's consistency check: with coefficients `chi`, the receiver's
    /// `(xz0, xz1)` must satisfy `<share, chi> ^ b ^ xz1 * delta == xz0`.
    pub fn sender_check(&self, share: &[u128], b: u128, chi: &[u128], xz0: u128, xz1: u128) -> (ok: bool)
        requires
            self.spec_party(),
            self.spec_delta() is Some,
        ensures
            ok == ((inner_product(share@, chi@) ^ b) ^ gf_mul(xz1, self.spec_delta().unwrap()) == xz0),
    {
        let y = vector_inner_product_f2k(share, chi) ^ b;
        let delta = match self.delta {
            Some(d) => d,
            None => 0,
        };
        let t = gf128mul(xz1, delta);
        (y ^ t) == xz0
    }

    /// The receiver's answer in the consistency check: `(<share, chi> ^ c, <x, chi> ^ a)`.
    pub fn receiver_check(&self, share: &[u128], x: &[u128], c: u128, a: u128, chi: &[u128]) -> (r: (u128, u128))
        requires
            !self.spec_party(),
        ensures
            r.0 == inner_product(share@, chi@) ^ c,
            r.1 == inner_product(x@, chi@) ^ a,
    {
        let xz_0 = vector_inner_product_f2k(share, chi) ^ c;
        let xz_1 = vector_inner_product_f2k(x, chi) ^ a;
        (xz_0, xz_1)
    }
}


/// Over the first `k` entries: the inner product of correlated shares is the inner product
/// of the other side's shares plus `delta` times the inner product of the inputs.
proof fn lemma_inner_product_correlated(
    ss: Seq<u128>,
    rs: Seq<u128>,
    u: Seq<u128>,
    chi: Seq<u128>,
    delta: u128,
    k: nat,
)
    requires
        k <= ss.len(),
        k <= rs.len(),
        k <= u.len(),
        k <= chi.len(),
        forall|i: int| 0 <= i < k ==> #[trigger] rs[i] == ss[i] ^ gf_mul(u[i], delta),
    ensures
        inner_product_upto(rs, chi, k) == inner_product_upto(ss, chi, k) ^ gf_mul(inner_product_upto(u, chi, k), delta),
    decreases k,
{
    if k == 0 {
        lemma_gf_mul_zero(delta);
        lemma_xor_facts(0u128, 0u128, 0u128);
    } else {
        let k1 = (k - 1) as nat;
        lemma_inner_product_correlated(ss, rs, u, chi, delta, k1);
        let (s1, r1, u1, c1) = (ss[k1 as int], rs[k1 as int], u[k1 as int], chi[k1 as int]);
        let ps = inner_product_upto(ss, chi, k1);
        let pu = inner_product_upto(u, chi, k1);
        let ud = gf_mul(u1, delta);
        let uc = gf_mul(u1, c1);
        lemma_gf_mul_distributes(c1, s1, ud);
        lemma_gf_mul_commutes(r1, c1);
        lemma_gf_mul_commutes(s1, c1);
        lemma_gf_mul_commutes(ud, c1);
        lemma_gf_mul_distributes(delta, pu, uc);
        lemma_gf_mul_commutes(pu ^ uc, delta);
        lemma_gf_mul_commutes(pu, delta);
        lemma_gf_mul_commutes(uc, delta);
        // (u * delta) * chi == (u * chi) * delta
        lemma_gf_mul_associates(u1, delta, c1);
        lemma_gf_mul_commutes(delta, c1);
        lemma_gf_mul_associates(u1, c1, delta);
        lemma_gf_mul_commutes(c1, ud);
        lemma_xor4(ps, gf_mul(pu, delta), gf_mul(s1, c1), gf_mul(uc, delta));
    }
}

/// The check accepts honest shares: when each receiver share is the sender's share plus
/// `u[i] * delta` and the extra pair satisfies `c = b + a * delta`, the receiver's answer
/// `(<rs, chi> + c, <u, chi> + a)` passes the sender's test `<ss, chi> + b + xz1 * delta == xz0`.
pub proof fn lemma_svole_check_complete(
    ss: Seq<u128>,
    rs: Seq<u128>,
    u: Seq<u128>,
    chi: Seq<u128>,
    delta: u128,
    a: u128,
    b: u128,
    c: u128,
)
    requires
        ss.len() == chi.len(),
        rs.len() == chi.len(),
        u.len() == chi.len(),
        forall|i: int| 0 <= i < chi.len() ==> #[trigger] rs[i] == ss[i] ^ gf_mul(u[i], delta),
        c == b ^ gf_mul(a, delta),
    ensures
        (inner_product(ss, chi) ^ b) ^ gf_mul(inner_product(u, chi) ^ a, delta) == inner_product(rs, chi) ^ c,
{
    let n = chi.len();
    lemma_inner_product_correlated(ss, rs, u, chi, delta, n);
    let ps = inner_product(ss, chi);
    let pu = inner_product(u, chi);
    lemma_gf_mul_distributes(delta, pu, a);
    lemma_gf_mul_commutes(pu ^ a, delta);
    lemma_gf_mul_commutes(pu, delta);
    lemma_gf_mul_commutes(a, delta);
    lemma_xor4(ps, b, gf_mul(pu, delta), gf_mul(a, delta));
}

} // verus!
