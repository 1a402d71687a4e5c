//! Correlated oblivious product evaluation over GF(2^128) (COPE).
//!
//! The sender holds `delta`; for every bit `i` of `delta` it holds one of two random streams
//! `w0[i]`, `w1[i]` of the receiver (the one its bit selects). To share `u * delta`, the
//! receiver sends `tau[i] = w0[i] ^ w1[i] ^ u`; the sender turns its stream into
//! `w0[i] ^ delta_i * u`, and both sides compose their 128 values with the powers of `X`.
use vstd::prelude::*;
use crate::gf128::{
    bit, gf128mul, gf_mul, gf_mul_upto, lemma_gf_mul_distributes, lemma_gf_mul_zero, lemma_xor4,
    lemma_xor_facts, xtime, xtime_pow,
};

verus! {

/// Bits of a field element.
pub const NUM_BITS: usize = 128;

/// `X^i` in GF(2^128), computed by repeated multiplication by `X` (the element `2`).
pub open spec fn field_pow(i: nat) -> u128
    decreases i,
{
    if i == 0 {
        1
    } else {
        gf_mul(field_pow((i - 1) as nat), 2)
    }
}

/// `XOR_{i < k} e[i] * p[i]`.
pub open spec fn compose(e: Seq<u128>, p: Seq<u128>, k: int) -> u128
    decreases k,
{
    if k <= 0 {
        0
    } else {
        compose(e, p, k - 1) ^ gf_mul(e[k - 1], p[k - 1])
    }
}

/// The smaller of two lengths.
pub open spec fn min_len(a: nat, b: nat) -> int {
    if a <= b { a as int } else { b as int }
}

/// Bit `i` of `delta`.
pub open spec fn delta_bit(delta: u128, i: int) -> bool {
    (delta >> (i as u128)) & 1u128 == 1u128
}

/// The bits of `delta`, least significant first.
pub fn delta_to_bool(delta: u128) -> (r: [bool; 128])
    ensures
        forall|i: int| 0 <= i < NUM_BITS ==> #[trigger] r@[i] == delta_bit(delta, i),
{
    let mut delta_bool = [false; 128];
    let mut i: usize = 0;
    while i < NUM_BITS
        invariant
            i <= NUM_BITS,
            forall|k: int| 0 <= k < i ==> #[trigger] delta_bool@[k] == delta_bit(delta, k),
        decreases NUM_BITS - i,
    {
        delta_bool[i] = (delta >> i) & 1 == 1;
        i += 1;
    }
    delta_bool
}

/// The state of one side of COPE: its role, the sender's `delta` and its bits, and the
/// powers of `X` once initialized.
pub struct CopeF2k {
    party: u8,
    delta: Option<u128>,
    delta_bool: [bool; 128],
    mask: u128,
    powers_of_two: Vec<u128>,
}

impl CopeF2k {
    /// The role: `0` for the sender, `1` for the receiver.
    pub closed spec fn spec_party(&self) -> u8 {
        self.party
    }

    /// The sender's `delta`, once initialized.
    pub closed spec fn spec_delta(&self) -> Option<u128> {
        self.delta
    }

    /// The bits of `delta` (all clear on the receiver).
    pub closed spec fn spec_delta_bool(&self) -> Seq<bool> {
        self.delta_bool@
    }

    /// The powers of `X` used to compose values (empty before initialization).
    pub closed spec fn spec_powers(&self) -> Seq<u128> {
        self.powers_of_two@
    }

    /// The powers are `X^0, ..., X^127`.
    pub open spec fn initialized(&self) -> bool {
        &&& self.spec_powers().len() == NUM_BITS
        &&& forall|i: int| 0 <= i < NUM_BITS ==> #[trigger] self.spec_powers()[i] == field_pow(i as nat)
    }

    /// The bits of `delta` (all clear on the receiver).
    pub fn delta_bits(&self) -> (r: [bool; 128])
        ensures
            r@ == self.spec_delta_bool(),
    {
        self.delta_bool
    }

    /// A side of COPE with role `party`, not yet initialized.
    pub fn new(party: u8) -> (r: Self)
        ensures
            r.spec_party() == party,
            r.spec_delta() == None::<u128>,
            r.spec_delta_bool() == Seq::new(NUM_BITS as nat, |_i: int| false),
            r.spec_powers() == Seq::<u128>::empty(),
    {
        let r = Self { party, delta: None, delta_bool: [false; 128], mask: u128::MAX, powers_of_two: Vec::new() };
        assert(r.delta_bool@ =~= Seq::new(NUM_BITS as nat, |_i: int| false));
        r
    }

    /// Computes `X^0, ..., X^127`.
    fn precompute_powers_of_two(&mut self)
        ensures
            final(self).initialized(),
            final(self).spec_party() == old(self).spec_party(),
            final(self).spec_delta() == old(self).spec_delta(),
            final(self).spec_delta_bool() == old(self).spec_delta_bool(),
    {
        let mut powers: Vec<u128> = Vec::new();
        powers.push(1);
        let mut i: usize = 1;
        while i < NUM_BITS
            invariant
                1 <= i <= NUM_BITS,
                powers@.len() == i,
                forall|k: int| 0 <= k < i ==> #[trigger] powers@[k] == field_pow(k as nat),
            decreases NUM_BITS - i,
        {
            let p = gf128mul(powers[i - 1], 2);
            powers.push(p);
            i += 1;
        }
        self.powers_of_two = powers;
    }

    /// The sender's initialization with `delta`; returns the bits of `delta`, which choose
    /// the receiver's keys in the base oblivious transfers.
    pub fn initialize_sender(&mut self, delta: u128) -> (bits: [bool; 128])
        ensures
            final(self).initialized(),
            final(self).spec_party() == old(self).spec_party(),
            final(self).spec_delta() == Some(delta),
            final(self).spec_delta_bool() == bits@,
            forall|i: int| 0 <= i < NUM_BITS ==> #[trigger] bits@[i] == delta_bit(delta, i),
    {
        self.delta = Some(delta);
        self.delta_bool = delta_to_bool(delta);
        self.precompute_powers_of_two();
        self.delta_bool
    }

    /// The receiver's initialization.
    pub fn initialize_receiver(&mut self)
        ensures
            final(self).initialized(),
            final(self).spec_party() == old(self).spec_party(),
            final(self).spec_delta() == old(self).spec_delta(),
            final(self).spec_delta_bool() == old(self).spec_delta_bool(),
    {
        self.precompute_powers_of_two();
    }

    /// `XOR_i elements[i] * X^i` over the common length of `elements` and the powers.
    pub fn prm2pr(&self, elements: &[u128]) -> (r: u128)
        ensures
            r == compose(elements@, self.spec_powers(), min_len(elements@.len(), self.spec_powers().len())),
    {
        let n = if elements.len() <= self.powers_of_two.len() { elements.len() } else { self.powers_of_two.len() };
        let mut acc: u128 = 0;
        let mut i: usize = 0;
        while i < n
            invariant
                n == min_len(elements@.len(), self.powers_of_two@.len()),
                i <= n,
                acc == compose(elements@, self.powers_of_two@, i as int),
            decreases n - i,
        {
            acc = acc ^ gf128mul(elements[i], self.powers_of_two[i]);
            i += 1;
        }
        acc
    }

    /// Column `j` of a batch: `XOR_i elements[i][j] * X^i`, for every `j < ret.len()`.
    pub fn prm2pr_batch(&self, ret: &mut [u128], elements: &Vec<Vec<u128>>)
        requires
            forall|i: int|
                0 <= i < min_len(elements@.len(), self.spec_powers().len()) ==> #[trigger] elements@[i]@.len()
                    >= old(ret)@.len(),
        ensures
            final(ret)@.len() == old(ret)@.len(),
            forall|j: int|
                0 <= j < old(ret)@.len() ==> #[trigger] final(ret)@[j] == compose(
                    column(elements@, j),
                    self.spec_powers(),
                    min_len(elements@.len(), self.spec_powers().len()),
                ),
    {
        let n = if elements.len() <= self.powers_of_two.len() { elements.len() } else { self.powers_of_two.len() };
        let mut j: usize = 0;
        while j < ret.len()
            invariant
                n == min_len(elements@.len(), self.powers_of_two@.len()),
                forall|i: int| 0 <= i < n ==> #[trigger] elements@[i]@.len() >= ret@.len(),
                ret@.len() == old(ret)@.len(),
                j <= ret@.len(),
                forall|k: int|
                    0 <= k < j ==> #[trigger] ret@[k] == compose(column(elements@, k), self.powers_of_two@, n as int),
            decreases ret@.len() - j,
        {
            let mut acc: u128 = 0;
            let mut i: usize = 0;
            while i < n
                invariant
                    n == min_len(elements@.len(), self.powers_of_two@.len()),
                    forall|t: int| 0 <= t < n ==> #[trigger] elements@[t]@.len() >= ret@.len(),
                    j < ret@.len(),
                    i <= n,
                    acc == compose(column(elements@, j as int), self.powers_of_two@, i as int),
                decreases n - i,
            {
                assert(column(elements@, j as int)[i as int] == elements@[i as int]@[j as int]);
                acc = acc ^ gf128mul(elements[i][j], self.powers_of_two[i]);
                i += 1;
            }
            ret[j] = acc;
            j += 1;
        }
    }
}

/// Entry `j` of every row.
pub open spec fn column(rows: Seq<Vec<u128>>, j: int) -> Seq<u128> {
    Seq::new(rows.len(), |i: int| rows[i]@[j])
}

/// The sender's values from its streams `w` and the receiver's corrections `v`: where bit
/// `i` of `delta` is set, `w[i] ^ v[i]`; elsewhere `w[i]`.
pub open spec fn sender_values(delta_bool: Seq<bool>, w: Seq<u128>, v: Seq<u128>) -> Seq<u128> {
    Seq::new(NUM_BITS as nat, |i: int| if delta_bool[i] { w[i] ^ v[i] } else { w[i] })
}

/// The receiver's corrections `tau[i] = w0[i] ^ (w1[i] ^ u)`.
pub open spec fn corrections(w0: Seq<u128>, w1: Seq<u128>, u: u128) -> Seq<u128> {
    Seq::new(NUM_BITS as nat, |i: int| w0[i] ^ (w1[i] ^ u))
}

/// Row `i` of a flat row-major buffer with rows of `size` entries.
pub open spec fn flat_row(flat: Seq<u128>, size: int, i: int) -> Seq<u128> {
    Seq::new(size as nat, |j: int| flat[i * size + j])
}

impl CopeF2k {
    /// The sender's share: its stream values corrected where its bit of `delta` is set,
    /// composed with the powers of `X`.
    pub fn extend_sender(&self, w: &[u128], v: &[u128]) -> (r: u128)
        requires
            w@.len() >= NUM_BITS,
            v@.len() >= NUM_BITS,
        ensures
            r == compose(
                sender_values(self.spec_delta_bool(), w@, v@),
                self.spec_powers(),
                min_len(NUM_BITS as nat, self.spec_powers().len()),
            ),
    {
        let mut vals: Vec<u128> = Vec::new();
        let mut i: usize = 0;
        while i < NUM_BITS
            invariant
                w@.len() >= NUM_BITS,
                v@.len() >= NUM_BITS,
                i <= NUM_BITS,
                vals@.len() == i,
                forall|k: int| 0 <= k < i ==> #[trigger] vals@[k] == sender_values(self.delta_bool@, w@, v@)[k],
            decreases NUM_BITS - i,
        {
            if self.delta_bool[i] {
                vals.push(w[i] ^ v[i]);
            } else {
                vals.push(w[i]);
            }
            i += 1;
        }
        assert(vals@ =~= sender_values(self.delta_bool@, w@, v@));
        self.prm2pr(vals.as_slice())
    }

    /// The receiver's corrections to send, and its share: its first stream composed with
    /// the powers of `X`.
    pub fn extend_receiver(&self, w0: &[u128], w1: &[u128], u: u128) -> (r: (Vec<u128>, u128))
        requires
            w0@.len() == NUM_BITS,
            w1@.len() >= NUM_BITS,
        ensures
            r.0@ == corrections(w0@, w1@, u),
            r.1 == compose(w0@, self.spec_powers(), min_len(NUM_BITS as nat, self.spec_powers().len())),
    {
        let mut tau: Vec<u128> = Vec::new();
        let mut i: usize = 0;
        while i < NUM_BITS
            invariant
                w0@.len() == NUM_BITS,
                w1@.len() >= NUM_BITS,
                i <= NUM_BITS,
                tau@.len() == i,
                forall|k: int| 0 <= k < i ==> #[trigger] tau@[k] == corrections(w0@, w1@, u)[k],
            decreases NUM_BITS - i,
        {
            let w1i = w1[i] ^ u;
            tau.push(w0[i] ^ w1i);
            i += 1;
        }
        assert(tau@ =~= corrections(w0@, w1@, u));
        let res = self.prm2pr(w0);
        (tau, res)
    }

    /// The sender's shares for a batch of `size`: `received` holds the receiver's
    /// corrections row by row (`size` per bit of `delta`).
    pub fn extend_sender_batch(&self, ret: &mut [u128], w: &Vec<Vec<u128>>, received: &[u128], size: usize)
        requires
            w@.len() >= NUM_BITS,
            forall|i: int| 0 <= i < NUM_BITS ==> #[trigger] w@[i]@.len() >= size,
            received@.len() >= NUM_BITS * size,
            old(ret)@.len() <= size,
        ensures
            final(ret)@.len() == old(ret)@.len(),
            forall|j: int|
                0 <= j < old(ret)@.len() ==> #[trigger] final(ret)@[j] == compose(
                    Seq::new(
                        NUM_BITS as nat,
                        |i: int| sender_values(self.spec_delta_bool(), column(w@, j), flat_column(received@, size as int, j))[i],
                    ),
                    self.spec_powers(),
                    min_len(NUM_BITS as nat, self.spec_powers().len()),
                ),
    {
        let mut v: Vec<Vec<u128>> = Vec::new();
        let mut i: usize = 0;
        let rl = received.len();
        while i < NUM_BITS
            invariant
                rl == received@.len(),
                w@.len() >= NUM_BITS,
                forall|t: int| 0 <= t < NUM_BITS ==> #[trigger] w@[t]@.len() >= size,
                received@.len() >= NUM_BITS * size,
                i <= NUM_BITS,
                v@.len() == i,
                forall|t: int| 0 <= t < i ==> #[trigger] v@[t]@.len() == size,
                forall|t: int, j: int|
                    0 <= t < i && 0 <= j < size ==> #[trigger] v@[t]@[j] == (if self.delta_bool@[t] {
                        w@[t]@[j] ^ received@[t * size + j]
                    } else {
                        w@[t]@[j]
                    }),
            decreases NUM_BITS - i,
        {
            let mut row: Vec<u128> = Vec::new();
            let mut j: usize = 0;
            while j < size
                invariant
                    rl == received@.len(),
                    i < NUM_BITS,
                    w@.len() >= NUM_BITS,
                    w@[i as int]@.len() >= size,
                    received@.len() >= NUM_BITS * size,
                    j <= size,
                    row@.len() == j,
                    forall|k: int|
                        0 <= k < j ==> #[trigger] row@[k] == (if self.delta_bool@[i as int] {
                            w@[i as int]@[k] ^ received@[i * size + k]
                        } else {
                            w@[i as int]@[k]
                        }),
                decreases size - j,
            {
                proof {
                    assert(i * size + j < NUM_BITS * size) by (nonlinear_arith)
                        requires
                            i < NUM_BITS,
                            j < size,
                    ;
                }
                let x = received[i * size + j];
                if self.delta_bool[i] {
                    row.push(w[i][j] ^ x);
                } else {
                    row.push(w[i][j]);
                }
                j += 1;
            }
            v.push(row);
            i += 1;
        }
        let ghost vv = v@;
        self.prm2pr_batch(ret, &v);
        proof {
            assert forall|j: int| 0 <= j < ret@.len() implies #[trigger] ret@[j] == compose(
                Seq::new(
                    NUM_BITS as nat,
                    |i: int| sender_values(self.spec_delta_bool(), column(w@, j), flat_column(received@, size as int, j))[i],
                ),
                self.spec_powers(),
                min_len(NUM_BITS as nat, self.spec_powers().len()),
            ) by {
                let a = column(vv, j);
                let b = Seq::new(
                    NUM_BITS as nat,
                    |i: int| sender_values(self.spec_delta_bool(), column(w@, j), flat_column(received@, size as int, j))[i],
                );
                assert(a =~= b);
            }
        }
    }

    /// The receiver's corrections for a batch (row by row, `size` per bit) and its shares:
    /// column `j` of its first streams composed with the powers of `X`.
    pub fn extend_receiver_batch(
        &self,
        ret: &mut [u128],
        w0: &Vec<Vec<u128>>,
        w1: &Vec<Vec<u128>>,
        u: &[u128],
        size: usize,
    ) -> (tau: Vec<u128>)
        requires
            w0@.len() == NUM_BITS,
            w1@.len() >= NUM_BITS,
            forall|i: int| 0 <= i < NUM_BITS ==> #[trigger] w0@[i]@.len() >= size,
            forall|i: int| 0 <= i < NUM_BITS ==> #[trigger] w1@[i]@.len() >= size,
            u@.len() >= size,
            NUM_BITS * size <= usize::MAX,
            old(ret)@.len() <= size,
        ensures
            tau@.len() == NUM_BITS * size,
            forall|i: int, j: int|
                0 <= i < NUM_BITS && 0 <= j < size ==> #[trigger] tau@[i * size + j] == w0@[i]@[j] ^ (w1@[i]@[j]
                    ^ u@[j]),
            final(ret)@.len() == old(ret)@.len(),
            forall|j: int|
                0 <= j < old(ret)@.len() ==> #[trigger] final(ret)@[j] == compose(
                    column(w0@, j),
                    self.spec_powers(),
                    min_len(NUM_BITS as nat, self.spec_powers().len()),
                ),
    {
        let mut tau: Vec<u128> = Vec::new();
        let mut i: usize = 0;
        while i < NUM_BITS
            invariant
                w0@.len() == NUM_BITS,
                w1@.len() >= NUM_BITS,
                forall|t: int| 0 <= t < NUM_BITS ==> #[trigger] w0@[t]@.len() >= size,
                forall|t: int| 0 <= t < NUM_BITS ==> #[trigger] w1@[t]@.len() >= size,
                u@.len() >= size,
                NUM_BITS * size <= usize::MAX,
                i <= NUM_BITS,
                tau@.len() == i * size,
                forall|t: int, j: int|
                    0 <= t < i && 0 <= j < size ==> #[trigger] tau@[t * size + j] == w0@[t]@[j] ^ (w1@[t]@[j]
                        ^ u@[j]),
            decreases NUM_BITS - i,
        {
            let mut j: usize = 0;
            while j < size
                invariant
                    i < NUM_BITS,
                    w0@.len() == NUM_BITS,
                    w1@.len() >= NUM_BITS,
                    NUM_BITS * size <= usize::MAX,
                    w0@[i as int]@.len() >= size,
                    w1@[i as int]@.len() >= size,
                    u@.len() >= size,
                    j <= size,
                    tau@.len() == i * size + j,
                    forall|t: int, k: int|
                        0 <= t < i && 0 <= k < size ==> #[trigger] tau@[t * size + k] == w0@[t]@[k] ^ (
                        w1@[t]@[k] ^ u@[k]),
                    forall|k: int| 0 <= k < j ==> #[trigger] tau@[i * size + k] == w0@[i as int]@[k] ^ (
                    w1@[i as int]@[k] ^ u@[k]),
                decreases size - j,
            {
                let w1v = w1[i][j] ^ u[j];
                let ghost before = tau@;
                tau.push(w0[i][j] ^ w1v);
                proof {
                    assert forall|t: int, k: int|
                        0 <= t < i && 0 <= k < size implies #[trigger] tau@[t * size + k] == w0@[t]@[k] ^ (
                        w1@[t]@[k] ^ u@[k]) by {
                        assert(t * size + k < i * size) by (nonlinear_arith)
                            requires
                                t < i,
                                k < size,
                        ;
                        assert(before[t * size + k] == tau@[t * size + k]);
                    }
                }
                j += 1;
            }
            proof {
                assert((i + 1) * size == i * size + size) by (nonlinear_arith);
            }
            i += 1;
        }
        self.prm2pr_batch(ret, w0);
        proof {
            assert forall|j: int| 0 <= j < ret@.len() implies #[trigger] ret@[j] == compose(
                column(w0@, j),
                self.spec_powers(),
                min_len(NUM_BITS as nat, self.spec_powers().len()),
            ) by {
                assert(min_len(w0@.len(), self.spec_powers().len()) == min_len(NUM_BITS as nat, self.spec_powers().len()));
            }
        }
        tau
    }
}

/// Column `j` of a flat row-major buffer with rows of `size` entries.
pub open spec fn flat_column(flat: Seq<u128>, size: int, j: int) -> Seq<u128> {
    Seq::new(NUM_BITS as nat, |i: int| flat[i * size + j])
}

/// Whether every `b[i]` equals `a[i] * delta ^ c[i]` for `i < sz`.
pub open spec fn triples_hold(a: Seq<u128>, b: Seq<u128>, c: Seq<u128>, delta: u128, sz: int) -> bool {
    forall|i: int| 0 <= i < sz ==> #[trigger] b[i] == gf_mul(a[i], delta) ^ c[i]
}

/// Checks the correlation `b[i] == a[i] * delta ^ c[i]` on the first `sz` entries.
pub fn check_triple(a: &[u128], b: &[u128], c: &[u128], delta: u128, sz: usize) -> (ok: bool)
    requires
        sz <= a@.len(),
        sz <= b@.len(),
        sz <= c@.len(),
    ensures
        ok == triples_hold(a@, b@, c@, delta, sz as int),
{
    let mut i: usize = 0;
    while i < sz
        invariant
            sz <= a@.len(),
            sz <= b@.len(),
            sz <= c@.len(),
            i <= sz,
            forall|k: int| 0 <= k < i ==> #[trigger] b@[k] == gf_mul(a@[k], delta) ^ c@[k],
        decreases sz - i,
    {
        if b[i] != gf128mul(a[i], delta) ^ c[i] {
            return false;
        }
        i += 1;
    }
    true
}

/// The bits of `delta`, as the sender keeps them.
pub open spec fn delta_bits_of(delta: u128) -> Seq<bool> {
    Seq::new(NUM_BITS as nat, |i: int| delta_bit(delta, i))
}

/// The sender's streams: for each bit `i` of `delta`, the receiver's stream it selects.
pub open spec fn chosen_streams(delta: u128, w0: Seq<u128>, w1: Seq<u128>) -> Seq<u128> {
    Seq::new(NUM_BITS as nat, |i: int| if delta_bit(delta, i) { w1[i] } else { w0[i] })
}

/// `XOR_{i < k, bit i of delta set} p[i]`.
pub open spec fn selected_sum(delta: u128, p: Seq<u128>, k: int) -> u128
    decreases k,
{
    if k <= 0 {
        0
    } else if delta_bit(delta, k - 1) {
        selected_sum(delta, p, k - 1) ^ p[k - 1]
    } else {
        selected_sum(delta, p, k - 1)
    }
}

/// Composing a sum is summing the compositions.
proof fn lemma_compose_xor(a: Seq<u128>, b: Seq<u128>, c: Seq<u128>, p: Seq<u128>, k: int)
    requires
        forall|i: int| 0 <= i < k ==> #[trigger] c[i] == a[i] ^ b[i],
    ensures
        compose(c, p, k) == compose(a, p, k) ^ compose(b, p, k),
    decreases k,
{
    if k > 0 {
        lemma_compose_xor(a, b, c, p, k - 1);
        lemma_gf_mul_distributes(p[k - 1], a[k - 1], b[k - 1]);
        lemma_xor4(compose(a, p, k - 1), compose(b, p, k - 1), gf_mul(a[k - 1], p[k - 1]), gf_mul(b[k - 1], p[k - 1]));
    } else {
        lemma_xor_facts(0u128, 0u128, 0u128);
    }
}

/// Composing `u` at the set bits of `delta` multiplies `u` by the selected powers.
proof fn lemma_compose_selected(delta: u128, u: u128, e: Seq<u128>, p: Seq<u128>, k: int)
    requires
        forall|i: int| 0 <= i < k ==> #[trigger] e[i] == if delta_bit(delta, i) { u } else { 0u128 },
    ensures
        compose(e, p, k) == gf_mul(u, selected_sum(delta, p, k)),
    decreases k,
{
    lemma_gf_mul_zero(u);
    if k > 0 {
        lemma_compose_selected(delta, u, e, p, k - 1);
        let s = selected_sum(delta, p, k - 1);
        if delta_bit(delta, k - 1) {
            lemma_gf_mul_distributes(u, s, p[k - 1]);
        } else {
            lemma_gf_mul_zero(p[k - 1]);
            lemma_xor_facts(gf_mul(u, s), 0u128, 0u128);
        }
    }
}

/// Multiplying by `X` is one step of `xtime`.
proof fn lemma_gf_mul_by_x(x: u128)
    ensures
        gf_mul(x, 2) == xtime(x),
{
    assert(forall|j: u128| j < 128 ==> ((((2u128 >> j) & 1u128) == 1u128) == (j == 1))) by (bit_vector);
    lemma_mul_two_upto(x, 128);
}

proof fn lemma_mul_two_upto(x: u128, k: nat)
    requires
        k <= 128,
        forall|j: u128| j < 128 ==> ((((2u128 >> j) & 1u128) == 1u128) == (j == 1)),
    ensures
        gf_mul_upto(x, 2, k) == if k >= 2 { xtime(x) } else { 0u128 },
    decreases k,
{
    if k > 0 {
        lemma_mul_two_upto(x, (k - 1) as nat);
        assert(bit(2, (k - 1) as nat) == (k - 1 == 1)) by {
            assert(((((2u128 >> ((k - 1) as u128)) & 1u128) == 1u128) == ((k - 1) as u128 == 1)));
        }
        if k == 2 {
            lemma_xor_facts(0u128, xtime(x), 0u128);
            lemma_xor_facts(xtime(x), 0u128, 0u128);
            assert(xtime_pow(x, 1) == xtime(xtime_pow(x, 0)));
        }
    }
}

/// Below the top bit, `X^i` is the single bit `i`.
proof fn lemma_field_pow_bit(i: nat)
    requires
        i < 128,
    ensures
        field_pow(i) == 1u128 << (i as u128),
    decreases i,
{
    if i == 0 {
        lemma_shift_zero();
    } else {
        lemma_field_pow_bit((i - 1) as nat);
        let j = (i - 1) as u128;
        lemma_gf_mul_by_x(1u128 << j);
        assert(xtime(1u128 << j) == 1u128 << (j + 1) as u128) by (bit_vector)
            requires
                j < 127,
        ;
    }
}

proof fn lemma_shift_zero()
    ensures
        1u128 << 0u128 == 1u128,
{
    lemma_selected_bits(0u128, Seq::new(128, |i: int| 1u128 << (i as u128)), 0);
}

/// The selected single bits of `delta` add up to its low bits; all of them, to `delta`.
proof fn lemma_selected_bits(delta: u128, p: Seq<u128>, k: nat)
    requires
        k <= 128,
        forall|i: int| 0 <= i < 128 ==> #[trigger] p[i] == 1u128 << (i as u128),
    ensures
        selected_sum(delta, p, k as int) == if k < 128 { delta & (((1u128 << (k as u128)) - 1) as u128) } else { delta },
        1u128 << 0u128 == 1u128,
    decreases k,
{
    if k == 0 {
        assert(delta & (((1u128 << 0u128) - 1) as u128) == 0 && 1u128 << 0u128 == 1u128) by (bit_vector);
    } else {
        lemma_selected_bits(delta, p, (k - 1) as nat);
        let j = (k - 1) as u128;
        lemma_xor_facts(delta & (((1u128 << j) - 1) as u128), 0u128, 0u128);
        assert({
            let lo = delta & (((1u128 << j) - 1) as u128);
            let nxt = if (delta >> j) & 1u128 == 1u128 { lo ^ (1u128 << j) } else { lo };
            &&& j + 1 < 128 ==> nxt == delta & (((1u128 << (j + 1) as u128) - 1) as u128)
            &&& j + 1 == 128 ==> nxt == delta
        }) by (bit_vector)
            requires
                j < 128,
        ;
    }
}

/// COPE is correct: when the sender's streams are those its bits of `delta` select and it
/// corrects them with the receiver's corrections for `u`, its share equals the receiver's
/// share plus `u * delta`.
pub proof fn lemma_cope_correct(delta: u128, w0: Seq<u128>, w1: Seq<u128>, u: u128, powers: Seq<u128>)
    requires
        w0.len() == NUM_BITS,
        w1.len() >= NUM_BITS,
        powers.len() == NUM_BITS,
        forall|i: int| 0 <= i < NUM_BITS ==> #[trigger] powers[i] == field_pow(i as nat),
    ensures
        compose(
            sender_values(delta_bits_of(delta), chosen_streams(delta, w0, w1), corrections(w0, w1, u)),
            powers,
            NUM_BITS as int,
        ) == compose(w0, powers, NUM_BITS as int) ^ gf_mul(u, delta),
{
    let sv = sender_values(delta_bits_of(delta), chosen_streams(delta, w0, w1), corrections(w0, w1, u));
    let e = Seq::new(NUM_BITS as nat, |i: int| if delta_bit(delta, i) { u } else { 0u128 });
    assert forall|i: int| 0 <= i < NUM_BITS implies #[trigger] sv[i] == w0[i] ^ e[i] by {
        if delta_bit(delta, i) {
            lemma_xor_facts(w1[i], w0[i], u);
            lemma_xor_facts(w1[i], w0[i] ^ u, 0u128);
            lemma_xor_facts(w0[i], w1[i], u);
            lemma_xor_facts(w1[i], w1[i], w0[i] ^ u);
            lemma_xor_facts(0u128, w0[i] ^ u, 0u128);
            lemma_xor_facts(w0[i] ^ u, 0u128, 0u128);
            assert(w1[i] ^ (w0[i] ^ (w1[i] ^ u)) == w0[i] ^ u);
        } else {
            lemma_xor_facts(w0[i], 0u128, 0u128);
        }
    }
    lemma_compose_xor(w0, e, sv, powers, NUM_BITS as int);
    lemma_compose_selected(delta, u, e, powers, NUM_BITS as int);
    assert forall|i: int| 0 <= i < 128 implies #[trigger] powers[i] == 1u128 << (i as u128) by {
        lemma_field_pow_bit(i as nat);
    }
    lemma_selected_bits(delta, powers, 128);
}


/// COPE is correct column by column in a batch: when the sender's streams are the
/// receiver's streams its bits of `delta` select and its corrections are the receiver's
/// `tau`, the sender's value for column `j` is the receiver's plus `u[j] * delta`.
pub proof fn lemma_cope_batch_correct(
    delta: u128,
    w0: Seq<Vec<u128>>,
    w1: Seq<Vec<u128>>,
    w: Seq<Vec<u128>>,
    tau: Seq<u128>,
    u: Seq<u128>,
    size: int,
    j: int,
    powers: Seq<u128>,
)
    requires
        w0.len() == NUM_BITS,
        w1.len() >= NUM_BITS,
        w.len() >= NUM_BITS,
        0 <= j < size,
        powers.len() == NUM_BITS,
        forall|i: int| 0 <= i < NUM_BITS ==> #[trigger] powers[i] == field_pow(i as nat),
        forall|i: int|
            0 <= i < NUM_BITS ==> #[trigger] w[i]@[j] == if delta_bit(delta, i) {
                w1[i]@[j]
            } else {
                w0[i]@[j]
            },
        forall|i: int| 0 <= i < NUM_BITS ==> #[trigger] tau[i * size + j] == w0[i]@[j] ^ (w1[i]@[j] ^ u[j]),
    ensures
        compose(
            Seq::new(
                NUM_BITS as nat,
                |i: int| sender_values(delta_bits_of(delta), column(w, j), flat_column(tau, size, j))[i],
            ),
            powers,
            NUM_BITS as int,
        ) == compose(column(w0, j), powers, NUM_BITS as int) ^ gf_mul(u[j], delta),
{
    let c0 = column(w0, j);
    let c1 = column(w1, j);
    lemma_cope_correct(delta, c0, c1, u[j], powers);
    let lhs = Seq::new(
        NUM_BITS as nat,
        |i: int| sender_values(delta_bits_of(delta), column(w, j), flat_column(tau, size, j))[i],
    );
    let rhs = sender_values(delta_bits_of(delta), chosen_streams(delta, c0, c1), corrections(c0, c1, u[j]));
    assert forall|i: int| 0 <= i < NUM_BITS implies #[trigger] lhs[i] == rhs[i] by {
        assert(column(w, j)[i] == w[i]@[j]);
        assert(flat_column(tau, size, j)[i] == tau[i * size + j]);
    }
    assert(lhs =~= rhs);
}

/// The two sides of COPE agree through their step functions: when the sender was
/// initialized with `delta`, both sides hold the powers of `X`, and the sender's streams
/// `w` are the receiver's streams that its bits of `delta` select, the share that
/// `extend_sender` computes from the corrections that `extend_receiver` sends for `u` is
/// the receiver's share from `extend_receiver` plus `u * delta`.
pub proof fn lemma_cope_extend_agrees(
    sender: CopeF2k,
    receiver: CopeF2k,
    delta: u128,
    w0: Seq<u128>,
    w1: Seq<u128>,
    w: Seq<u128>,
    u: u128,
)
    requires
        sender.initialized(),
        receiver.initialized(),
        forall|i: int| 0 <= i < NUM_BITS ==> #[trigger] sender.spec_delta_bool()[i] == delta_bit(delta, i),
        w0.len() == NUM_BITS,
        w1.len() >= NUM_BITS,
        w.len() >= NUM_BITS,
        forall|i: int| 0 <= i < NUM_BITS ==> #[trigger] w[i] == if delta_bit(delta, i) { w1[i] } else { w0[i] },
    ensures
        compose(
            sender_values(sender.spec_delta_bool(), w, corrections(w0, w1, u)),
            sender.spec_powers(),
            min_len(NUM_BITS as nat, sender.spec_powers().len()),
        ) == compose(w0, receiver.spec_powers(), min_len(NUM_BITS as nat, receiver.spec_powers().len()))
            ^ gf_mul(u, delta),
{
    let powers = sender.spec_powers();
    assert(receiver.spec_powers() =~= powers);
    assert(sender_values(sender.spec_delta_bool(), w, corrections(w0, w1, u)) =~= sender_values(
        delta_bits_of(delta),
        chosen_streams(delta, w0, w1),
        corrections(w0, w1, u),
    ));
    lemma_cope_correct(delta, w0, w1, u, powers);
}

/// The batch step functions agree column by column: with the sender initialized with
/// `delta`, both sides holding the powers of `X`, the sender's streams `w` the receiver's
/// streams its bits of `delta` select, and `tau` the corrections that
/// `extend_receiver_batch` sends for `u`, the sender's share for column `j` from
/// `extend_sender_batch` is the receiver's share for column `j` plus `u[j] * delta`.
pub proof fn lemma_cope_batch_extend_agrees(
    sender: CopeF2k,
    receiver: CopeF2k,
    delta: u128,
    w0: Seq<Vec<u128>>,
    w1: Seq<Vec<u128>>,
    w: Seq<Vec<u128>>,
    tau: Seq<u128>,
    u: Seq<u128>,
    size: int,
    j: int,
)
    requires
        sender.initialized(),
        receiver.initialized(),
        forall|i: int| 0 <= i < NUM_BITS ==> #[trigger] sender.spec_delta_bool()[i] == delta_bit(delta, i),
        w0.len() == NUM_BITS,
        w1.len() >= NUM_BITS,
        w.len() >= NUM_BITS,
        0 <= j < size,
        forall|i: int|
            0 <= i < NUM_BITS ==> #[trigger] w[i]@[j] == if delta_bit(delta, i) {
                w1[i]@[j]
            } else {
                w0[i]@[j]
            },
        forall|i: int| 0 <= i < NUM_BITS ==> #[trigger] tau[i * size + j] == w0[i]@[j] ^ (w1[i]@[j] ^ u[j]),
    ensures
        compose(
            Seq::new(
                NUM_BITS as nat,
                |i: int| sender_values(sender.spec_delta_bool(), column(w, j), flat_column(tau, size, j))[i],
            ),
            sender.spec_powers(),
            min_len(NUM_BITS as nat, sender.spec_powers().len()),
        ) == compose(column(w0, j), receiver.spec_powers(), min_len(NUM_BITS as nat, receiver.spec_powers().len()))
            ^ gf_mul(u[j], delta),
{
    let powers = sender.spec_powers();
    assert(receiver.spec_powers() =~= powers);
    let lhs = Seq::new(
        NUM_BITS as nat,
        |i: int| sender_values(sender.spec_delta_bool(), column(w, j), flat_column(tau, size, j))[i],
    );
    let rhs = Seq::new(
        NUM_BITS as nat,
        |i: int| sender_values(delta_bits_of(delta), column(w, j), flat_column(tau, size, j))[i],
    );
    assert(lhs =~= rhs);
    lemma_cope_batch_correct(delta, w0, w1, w, tau, u, size, j, powers);
}

} // verus!
