//! The primal LPN encoding over GF(2^128) used to extend VOLE correlations: each output
//! entry adds ten weighted entries of a shorter vector, at positions and with weights
//! drawn from AES under two seeds.
use vstd::prelude::*;
use crate::aes_prf::{aes128_encrypt, aes128_encrypt_blocks};
use crate::gf128::{
    gf128mul, gf_mul, lemma_gf_mul_associates, lemma_gf_mul_commutes, lemma_gf_mul_distributes, lemma_gf_mul_zero,
    lemma_xor4, lemma_xor_facts,
};

verus! {

/// Nonzero entries per row of the LPN matrix.
pub const ROW_WEIGHT: usize = 10;

/// The block that row `i`, entry `m` of the matrix is drawn from: `i` in the low and `m` in
/// the high 64 bits.
pub open spec fn lpn_block(i: int, m: int) -> u128 {
    (i as u128) | ((m as u128) << 64u128)
}

/// `acc ^ w[0]*kk[idx[0]] ^ ... ^ w[m-1]*kk[idx[m-1]]`, added in that order.
pub open spec fn lpn_acc(acc: u128, w: [u128; 10], idx: [usize; 10], kk: Seq<u128>, m: int) -> u128
    decreases m,
{
    if m <= 0 {
        acc
    } else {
        lpn_acc(acc, w, idx, kk, m - 1) ^ gf_mul(w[m - 1], kk[idx[m - 1] as int])
    }
}

/// The accumulation is linear in the vector: over `kk3 == kk1 ^ kk2` (at the columns used)
/// it is the accumulation over `kk1` XOR that of `kk2` from zero; over zeros it adds nothing.
proof fn lemma_lpn_acc_linear(
    acc: u128,
    w: [u128; 10],
    idx: [usize; 10],
    kk1: Seq<u128>,
    kk2: Seq<u128>,
    kk3: Seq<u128>,
    m: int,
)
    requires
        m <= 10,
        forall|t: int| 0 <= t < m ==> #[trigger] kk3[idx[t] as int] == kk1[idx[t] as int] ^ kk2[idx[t] as int],
    ensures
        lpn_acc(acc, w, idx, kk3, m) == lpn_acc(acc, w, idx, kk1, m) ^ lpn_acc(0, w, idx, kk2, m),
        (forall|t: int| 0 <= t < m ==> #[trigger] kk1[idx[t] as int] == 0) ==> lpn_acc(acc, w, idx, kk1, m) == acc,
    decreases m,
{
    lemma_xor_facts(acc, 0u128, 0u128);
    if m > 0 {
        lemma_lpn_acc_linear(acc, w, idx, kk1, kk2, kk3, m - 1);
        let c = idx[m - 1] as int;
        assert(kk3[c] == kk1[c] ^ kk2[c]);
        lemma_gf_mul_distributes(w[m - 1], kk1[c], kk2[c]);
        lemma_xor4(
            lpn_acc(acc, w, idx, kk1, m - 1),
            lpn_acc(0, w, idx, kk2, m - 1),
            gf_mul(w[m - 1], kk1[c]),
            gf_mul(w[m - 1], kk2[c]),
        );
        if forall|t: int| 0 <= t < m ==> #[trigger] kk1[idx[t] as int] == 0 {
            assert(kk1[c] == 0);
            lemma_gf_mul_zero(w[m - 1]);
            lemma_xor_facts(lpn_acc(acc, w, idx, kk1, m - 1), 0u128, 0u128);
        }
    }
}

/// One row keeps a VOLE correlation: where `acc_r == acc_s ^ d * acc_m` and, at the columns
/// the row uses, `kk_r == kk_s ^ d * kk_m`, the accumulations keep the relation.
proof fn lemma_lpn_acc_correlated(
    acc_s: u128,
    acc_r: u128,
    acc_m: u128,
    w: [u128; 10],
    idx: [usize; 10],
    kk_s: Seq<u128>,
    kk_r: Seq<u128>,
    kk_m: Seq<u128>,
    d: u128,
    m: int,
)
    requires
        m <= 10,
        acc_r == acc_s ^ gf_mul(d, acc_m),
        forall|t: int| 0 <= t < m ==> #[trigger] kk_r[idx[t] as int] == kk_s[idx[t] as int] ^ gf_mul(d, kk_m[idx[t] as int]),
    ensures
        lpn_acc(acc_r, w, idx, kk_r, m) == lpn_acc(acc_s, w, idx, kk_s, m) ^ gf_mul(d, lpn_acc(acc_m, w, idx, kk_m, m)),
    decreases m,
{
    if m > 0 {
        lemma_lpn_acc_correlated(acc_s, acc_r, acc_m, w, idx, kk_s, kk_r, kk_m, d, m - 1);
        let c = idx[m - 1] as int;
        let wm = w[m - 1];
        assert(kk_r[c] == kk_s[c] ^ gf_mul(d, kk_m[c]));
        let s0 = lpn_acc(acc_s, w, idx, kk_s, m - 1);
        let m0 = lpn_acc(acc_m, w, idx, kk_m, m - 1);
        lemma_gf_mul_distributes(wm, kk_s[c], gf_mul(d, kk_m[c]));
        lemma_gf_mul_distributes(d, m0, gf_mul(wm, kk_m[c]));
        lemma_gf_mul_associates(wm, d, kk_m[c]);
        lemma_gf_mul_associates(d, wm, kk_m[c]);
        lemma_gf_mul_commutes(wm, d);
        lemma_xor4(s0, gf_mul(d, m0), gf_mul(wm, kk_s[c]), gf_mul(d, gf_mul(wm, kk_m[c])));
    }
}

/// The VOLE correlation survives the LPN step. Let the sender's and the receiver's matrices
/// be the same (as `new` builds them from the same seeds), and let the receiver's inputs be
/// correlated with the sender's under `d`: `kr[j] == ks[j] ^ d * mr[j]` for its entries
/// and `kkr[j] == kks[j] ^ d * kkm[j]` for the short vectors. Then what `compute_send`
/// makes of `ks` and what `compute_recv` makes of `kr` and `mr` are correlated in the same
/// way, entry by entry.
pub proof fn lemma_vole_correlation_survives(
    sender: LpnF2k,
    receiver: LpnF2k,
    ks: Seq<u128>,
    kr: Seq<u128>,
    mr: Seq<u128>,
    kks: Seq<u128>,
    kkr: Seq<u128>,
    kkm: Seq<u128>,
    d: u128,
)
    requires
        receiver.spec_idx() == sender.spec_idx(),
        receiver.spec_weight() == sender.spec_weight(),
        sender.fits(kks.len() as int, ks.len() as int),
        kkr.len() == kks.len(),
        kkm.len() == kks.len(),
        kr.len() == ks.len(),
        mr.len() == ks.len(),
        forall|j: int| 0 <= j < ks.len() ==> #[trigger] kr[j] == ks[j] ^ gf_mul(d, mr[j]),
        forall|j: int| 0 <= j < kks.len() ==> #[trigger] kkr[j] == kks[j] ^ gf_mul(d, kkm[j]),
    ensures
        forall|i: int|
            0 <= i < ks.len() ==> #[trigger] lpn_acc(kr[i], receiver.spec_weight()[i], receiver.spec_idx()[i], kkr, 10)
                == lpn_acc(ks[i], sender.spec_weight()[i], sender.spec_idx()[i], kks, 10) ^ gf_mul(
                d,
                lpn_acc(mr[i], receiver.spec_weight()[i], receiver.spec_idx()[i], kkm, 10),
            ),
{
    assert forall|i: int| 0 <= i < ks.len() implies #[trigger] lpn_acc(
        kr[i],
        receiver.spec_weight()[i],
        receiver.spec_idx()[i],
        kkr,
        10,
    ) == lpn_acc(ks[i], sender.spec_weight()[i], sender.spec_idx()[i], kks, 10) ^ gf_mul(
        d,
        lpn_acc(mr[i], receiver.spec_weight()[i], receiver.spec_idx()[i], kkm, 10),
    ) by {
        let w = sender.spec_weight()[i];
        let idx = sender.spec_idx()[i];
        assert forall|t: int| 0 <= t < 10 implies #[trigger] kkr[idx[t] as int] == kks[idx[t] as int] ^ gf_mul(
            d,
            kkm[idx[t] as int],
        ) by {
            assert(idx[t] < kks.len());
        }
        assert(kr[i] == ks[i] ^ gf_mul(d, mr[i]));
        lemma_lpn_acc_correlated(ks[i], kr[i], mr[i], w, idx, kks, kkr, kkm, d, 10);
    }
}

/// The smaller of two lengths.
pub open spec fn min_len(a: nat, b: nat) -> int {
    if a <= b { a as int } else { b as int }
}

/// The sparse LPN matrix: row `i` has weight `big_a_weight[i][m]` at column `big_a_idx[i][m]`.
pub struct LpnF2k {
    party: usize,
    big_a_idx: Vec<[usize; 10]>,
    big_a_weight: Vec<[u128; 10]>,
}

impl LpnF2k {
    /// The party that last used the matrix: `0` for the sender, `1` for the receiver.
    pub closed spec fn spec_party(&self) -> usize {
        self.party
    }

    /// The columns of each row.
    pub closed spec fn spec_idx(&self) -> Seq<[usize; 10]> {
        self.big_a_idx@
    }

    /// The weights of each row.
    pub closed spec fn spec_weight(&self) -> Seq<[u128; 10]> {
        self.big_a_weight@
    }

    /// The matrix has columns in `[0, k)` for each of its rows, of which there are at least `n`.
    pub open spec fn fits(&self, k: int, n: int) -> bool {
        &&& self.spec_idx().len() == self.spec_weight().len()
        &&& n <= self.spec_idx().len()
        &&& forall|i: int, m: int|
            0 <= i < n && 0 <= m < 10 ==> #[trigger] self.spec_idx()[i][m] < k
    }

    /// An `n`-row matrix over `k` columns. Entry `m` of row `i` has column
    /// `(AES_seed(lpn_block(i, m)) >> 64) mod k` and weight `AES_seed_field(lpn_block(i, m))`.
    pub fn new(k: usize, n: usize, seed: &[u8; 16], seed_field: &[u8; 16]) -> (r: Self)
        requires
            n == 0 || k > 0,
            n <= u64::MAX,
        ensures
            r.spec_party() == 0,
            r.spec_idx().len() == n,
            r.spec_weight().len() == n,
            forall|i: int, m: int|
                0 <= i < n && 0 <= m < 10 ==> #[trigger] r.spec_idx()[i][m] == ((aes128_encrypt(
                    seed@,
                    lpn_block(i, m),
                ) >> 64u128) as usize) % k,
            forall|i: int, m: int|
                0 <= i < n && 0 <= m < 10 ==> #[trigger] r.spec_weight()[i][m] == aes128_encrypt(
                    seed_field@,
                    lpn_block(i, m),
                ),
    {
        let mut big_a_idx: Vec<[usize; 10]> = Vec::new();
        let mut big_a_weight: Vec<[u128; 10]> = Vec::new();
        let mut i: usize = 0;
        while i < n
            invariant
                n == 0 || k > 0,
                i <= n <= u64::MAX,
                big_a_idx@.len() == i,
                big_a_weight@.len() == i,
                forall|a: int, m: int|
                    0 <= a < i && 0 <= m < 10 ==> #[trigger] big_a_idx@[a][m] == ((aes128_encrypt(
                        seed@,
                        lpn_block(a, m),
                    ) >> 64u128) as usize) % k,
                forall|a: int, m: int|
                    0 <= a < i && 0 <= m < 10 ==> #[trigger] big_a_weight@[a][m] == aes128_encrypt(
                        seed_field@,
                        lpn_block(a, m),
                    ),
            decreases n - i,
        {
            let mut blocks: Vec<u128> = Vec::new();
            let mut m: usize = 0;
            while m < 10
                invariant
                    m <= 10,
                    i < n <= u64::MAX,
                    k > 0,
                    blocks@.len() == m,
                    forall|t: int| 0 <= t < m ==> #[trigger] blocks@[t] == lpn_block(i as int, t),
                decreases 10 - m,
            {
                blocks.push((i as u128) | ((m as u128) << 64u32));
                m += 1;
            }
            let permuted = aes128_encrypt_blocks(seed, &blocks);
            let permuted_field = aes128_encrypt_blocks(seed_field, &blocks);
            let mut r = [0usize; 10];
            let mut w = [0u128; 10];
            let mut m: usize = 0;
            while m < 10
                invariant
                    m <= 10,
                    k > 0,
                    permuted@.len() == 10,
                    permuted_field@.len() == 10,
                    forall|t: int| 0 <= t < 10 ==> #[trigger] permuted@[t] == aes128_encrypt(seed@, lpn_block(i as int, t)),
                    forall|t: int| 0 <= t < 10 ==> #[trigger] permuted_field@[t] == aes128_encrypt(seed_field@, lpn_block(i as int, t)),
                    forall|t: int| 0 <= t < m ==> #[trigger] r[t] == ((aes128_encrypt(seed@, lpn_block(i as int, t)) >> 64u128) as usize) % k,
                    forall|t: int| 0 <= t < m ==> #[trigger] w[t] == aes128_encrypt(seed_field@, lpn_block(i as int, t)),
                decreases 10 - m,
            {
                r[m] = ((permuted[m] >> 64u32) as usize) % k;
                w[m] = permuted_field[m];
                m += 1;
            }
            big_a_idx.push(r);
            big_a_weight.push(w);
            i += 1;
        }
        Self { party: 0, big_a_idx, big_a_weight }
    }

    /// `compute_big_k` is linear in the vector it multiplies: for `kk3 == kk1 ^ kk2` entry by
    /// entry, what row `i` makes of an entry `acc` under `kk3` is what it makes of `acc`
    /// under `kk1` XOR what it makes of zero under `kk2`; under a vector of zeros it leaves
    /// `acc` as it is.
    pub proof fn lemma_compute_big_k_linear(&self, i: int, acc: u128, kk1: Seq<u128>, kk2: Seq<u128>, kk3: Seq<u128>)
        requires
            0 <= i,
            self.fits(kk1.len() as int, i + 1),
            kk2.len() == kk1.len(),
            kk3.len() == kk1.len(),
            forall|j: int| 0 <= j < kk1.len() ==> #[trigger] kk3[j] == kk1[j] ^ kk2[j],
        ensures
            lpn_acc(acc, self.spec_weight()[i], self.spec_idx()[i], kk3, 10) == lpn_acc(
                acc,
                self.spec_weight()[i],
                self.spec_idx()[i],
                kk1,
                10,
            ) ^ lpn_acc(0, self.spec_weight()[i], self.spec_idx()[i], kk2, 10),
            (forall|j: int| 0 <= j < kk1.len() ==> #[trigger] kk1[j] == 0) ==> lpn_acc(
                acc,
                self.spec_weight()[i],
                self.spec_idx()[i],
                kk1,
                10,
            ) == acc,
    {
        let w = self.spec_weight()[i];
        let idx = self.spec_idx()[i];
        assert forall|t: int| 0 <= t < 10 implies #[trigger] kk3[idx[t] as int] == kk1[idx[t] as int] ^ kk2[idx[t] as int] by {
            assert(idx[t] < kk1.len());
        }
        lemma_lpn_acc_linear(acc, w, idx, kk1, kk2, kk3, 10);
        if forall|j: int| 0 <= j < kk1.len() ==> #[trigger] kk1[j] == 0 {
            assert forall|t: int| 0 <= t < 10 implies #[trigger] kk1[idx[t] as int] == 0 by {
                assert(idx[t] < kk1.len());
            }
        }
    }

    /// Adds row `i` of the matrix times `kk_big_k` into `big_k[i]`, for every `i`.
    pub fn compute_big_k(&mut self, big_k: &mut [u128], kk_big_k: &[u128])
        requires
            old(self).fits(kk_big_k@.len() as int, old(big_k)@.len() as int),
        ensures
            *final(self) == *old(self),
            final(big_k)@.len() == old(big_k)@.len(),
            forall|i: int|
                0 <= i < old(big_k)@.len() ==> #[trigger] final(big_k)@[i] == lpn_acc(
                    old(big_k)@[i],
                    old(self).spec_weight()[i],
                    old(self).spec_idx()[i],
                    kk_big_k@,
                    10,
                ),
    {
        let n = big_k.len();
        let mut i: usize = 0;
        while i < n
            invariant
                n == big_k@.len(),
                n == old(big_k)@.len(),
                *self == *old(self),
                self.fits(kk_big_k@.len() as int, n as int),
                i <= n,
                forall|a: int| 0 <= a < i ==> #[trigger] big_k@[a] == lpn_acc(
                    old(big_k)@[a],
                    self.spec_weight()[a],
                    self.spec_idx()[a],
                    kk_big_k@,
                    10,
                ),
                forall|a: int| i <= a < n ==> #[trigger] big_k@[a] == old(big_k)@[a],
            decreases n - i,
        {
            let w = self.big_a_weight[i];
            let idx = self.big_a_idx[i];
            let mut acc = big_k[i];
            let ghost acc0 = acc;
            let mut m: usize = 0;
            while m < 10
                invariant
                    m <= 10,
                    i < n,
                    self.fits(kk_big_k@.len() as int, n as int),
                    idx == self.spec_idx()[i as int],
                    acc == lpn_acc(acc0, w, idx, kk_big_k@, m as int),
                decreases 10 - m,
            {
                assert(idx[m as int] < kk_big_k@.len());
                acc = acc ^ gf128mul(w[m], kk_big_k[idx[m]]);
                m += 1;
            }
            big_k[i] = acc;
            i += 1;
        }
    }

    /// `compute_big_k` on two vectors at once, with the same matrix.
    pub fn compute_big_k_and_big_m(
        &mut self,
        big_k: &mut [u128],
        big_m: &mut [u128],
        kk_big_k: &[u128],
        kk_big_m: &[u128],
    )
        requires
            old(self).fits(kk_big_k@.len() as int, min_len(old(big_k)@.len(), old(big_m)@.len())),
            old(self).fits(kk_big_m@.len() as int, min_len(old(big_k)@.len(), old(big_m)@.len())),
        ensures
            *final(self) == *old(self),
            final(big_k)@.len() == old(big_k)@.len(),
            final(big_m)@.len() == old(big_m)@.len(),
            forall|i: int|
                0 <= i < min_len(old(big_k)@.len(), old(big_m)@.len()) ==> #[trigger] final(big_k)@[i]
                    == lpn_acc(
                    old(big_k)@[i],
                    old(self).spec_weight()[i],
                    old(self).spec_idx()[i],
                    kk_big_k@,
                    10,
                ),
            forall|i: int|
                0 <= i < min_len(old(big_k)@.len(), old(big_m)@.len()) ==> #[trigger] final(big_m)@[i]
                    == lpn_acc(
                    old(big_m)@[i],
                    old(self).spec_weight()[i],
                    old(self).spec_idx()[i],
                    kk_big_m@,
                    10,
                ),
            forall|i: int|
                min_len(old(big_k)@.len(), old(big_m)@.len()) <= i < old(big_k)@.len() ==> #[trigger] final(big_k)@[i] == old(big_k)@[i],
            forall|i: int|
                min_len(old(big_k)@.len(), old(big_m)@.len()) <= i < old(big_m)@.len() ==> #[trigger] final(big_m)@[i] == old(big_m)@[i],
    {
        let n = if big_k.len() <= big_m.len() { big_k.len() } else { big_m.len() };
        let mut i: usize = 0;
        while i < n
            invariant
                n == min_len(old(big_k)@.len(), old(big_m)@.len()),
                big_k@.len() == old(big_k)@.len(),
                big_m@.len() == old(big_m)@.len(),
                *self == *old(self),
                self.fits(kk_big_k@.len() as int, n as int),
                self.fits(kk_big_m@.len() as int, n as int),
                i <= n,
                forall|a: int| 0 <= a < i ==> #[trigger] big_k@[a] == lpn_acc(
                    old(big_k)@[a],
                    self.spec_weight()[a],
                    self.spec_idx()[a],
                    kk_big_k@,
                    10,
                ),
                forall|a: int| 0 <= a < i ==> #[trigger] big_m@[a] == lpn_acc(
                    old(big_m)@[a],
                    self.spec_weight()[a],
                    self.spec_idx()[a],
                    kk_big_m@,
                    10,
                ),
                forall|a: int| i <= a < big_k@.len() ==> #[trigger] big_k@[a] == old(big_k)@[a],
                forall|a: int| i <= a < big_m@.len() ==> #[trigger] big_m@[a] == old(big_m)@[a],
            decreases n - i,
        {
            let w = self.big_a_weight[i];
            let idx = self.big_a_idx[i];
            let mut acc_k = big_k[i];
            let mut acc_m = big_m[i];
            let ghost k0 = acc_k;
            let ghost m0 = acc_m;
            let mut m: usize = 0;
            while m < 10
                invariant
                    m <= 10,
                    i < n,
                    self.fits(kk_big_k@.len() as int, n as int),
                    self.fits(kk_big_m@.len() as int, n as int),
                    idx == self.spec_idx()[i as int],
                    acc_k == lpn_acc(k0, w, idx, kk_big_k@, m as int),
                    acc_m == lpn_acc(m0, w, idx, kk_big_m@, m as int),
                decreases 10 - m,
            {
                assert(idx[m as int] < kk_big_k@.len());
                assert(idx[m as int] < kk_big_m@.len());
                acc_k = acc_k ^ gf128mul(w[m], kk_big_k[idx[m]]);
                acc_m = acc_m ^ gf128mul(w[m], kk_big_m[idx[m]]);
                m += 1;
            }
            big_k[i] = acc_k;
            big_m[i] = acc_m;
            i += 1;
        }
    }

    /// The sender's side: `compute_big_k`, recording the sender as the party.
    pub fn compute_send(&mut self, big_k: &mut [u128], kk_big_k: &[u128])
        requires
            old(self).fits(kk_big_k@.len() as int, old(big_k)@.len() as int),
        ensures
            final(self).spec_party() == 0,
            final(self).spec_idx() == old(self).spec_idx(),
            final(self).spec_weight() == old(self).spec_weight(),
            final(big_k)@.len() == old(big_k)@.len(),
            forall|i: int|
                0 <= i < old(big_k)@.len() ==> #[trigger] final(big_k)@[i] == lpn_acc(
                    old(big_k)@[i],
                    old(self).spec_weight()[i],
                    old(self).spec_idx()[i],
                    kk_big_k@,
                    10,
                ),
    {
        self.party = 0;
        self.compute_big_k(big_k, kk_big_k);
    }

    /// The receiver's side: `compute_big_k_and_big_m`, recording the receiver as the party.
    pub fn compute_recv(
        &mut self,
        big_k: &mut [u128],
        big_m: &mut [u128],
        kk_big_k: &[u128],
        kk_big_m: &[u128],
    )
        requires
            old(self).fits(kk_big_k@.len() as int, min_len(old(big_k)@.len(), old(big_m)@.len())),
            old(self).fits(kk_big_m@.len() as int, min_len(old(big_k)@.len(), old(big_m)@.len())),
        ensures
            final(self).spec_party() == 1,
            final(self).spec_idx() == old(self).spec_idx(),
            final(self).spec_weight() == old(self).spec_weight(),
            final(big_k)@.len() == old(big_k)@.len(),
            final(big_m)@.len() == old(big_m)@.len(),
            forall|i: int|
                0 <= i < min_len(old(big_k)@.len(), old(big_m)@.len()) ==> #[trigger] final(big_k)@[i]
                    == lpn_acc(
                    old(big_k)@[i],
                    old(self).spec_weight()[i],
                    old(self).spec_idx()[i],
                    kk_big_k@,
                    10,
                ),
            forall|i: int|
                0 <= i < min_len(old(big_k)@.len(), old(big_m)@.len()) ==> #[trigger] final(big_m)@[i]
                    == lpn_acc(
                    old(big_m)@[i],
                    old(self).spec_weight()[i],
                    old(self).spec_idx()[i],
                    kk_big_m@,
                    10,
                ),
            forall|i: int|
                min_len(old(big_k)@.len(), old(big_m)@.len()) <= i < old(big_k)@.len() ==> #[trigger] final(big_k)@[i] == old(big_k)@[i],
            forall|i: int|
                min_len(old(big_k)@.len(), old(big_m)@.len()) <= i < old(big_m)@.len() ==> #[trigger] final(big_m)@[i] == old(big_m)@[i],
    {
        self.party = 1;
        self.compute_big_k_and_big_m(big_k, big_m, kk_big_k, kk_big_m);
    }
}

} // verus!
