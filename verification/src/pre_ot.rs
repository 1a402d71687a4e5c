//! Oblivious transfer of long messages from precomputed random OTs.
//!
//! Correlated OTs are first turned into random keys (`send_pre` / `recv_pre` produce the
//! inputs of the correlation-robust hash; `store_hashed` keeps its outputs).  The sender
//! holds two keys `k0 = pre_data[i]`, `k1 = pre_data[i + n]` per OT, the receiver holds
//! `pre_data[i] = k_c` for its random bit `c = bits[i]`.  To transfer `m0` / `m1` for a
//! choice `b`, the receiver announces `d = b ^ c`; the sender pads `m0` and `m1` with the
//! keys swapped when `d` is set; the receiver unpads the message of its choice with `k_c`.
use crate::bytes::{le_to_u128, u128_from_le, xor_bytes};
use vstd::prelude::*;

verus! {

pub struct OTPre<const NUM_LIMBS: usize> {
    pre_data: Vec<[u128; NUM_LIMBS]>,
    bits: Vec<bool>,
    n: usize,
    count: usize,
    length: usize,
    delta: Option<[u8; 16]>,
}

/// Limb-wise XOR of two messages.
pub open spec fn xor_msg(a: Seq<u128>, b: Seq<u128>) -> Seq<u128> {
    Seq::new(a.len(), |i: int| a[i] ^ b[i])
}

/// The 16-byte block `[j, 0, ..., 0]` that separates the hash inputs of limb `j`.
pub open spec fn limb_tag(j: int) -> Seq<u8> {
    Seq::new(16, |i: int| if i == 0 { j as u8 } else { 0u8 })
}

/// XOR of two 16-byte blocks.
pub fn xor_block(a: &[u8; 16], b: &[u8; 16]) -> (r: [u8; 16])
    ensures
        r@ == xor_bytes(a@, b@),
{
    let mut r = *a;
    crate::bytes::xor_block(&mut r, b);
    r
}

/// Limb-wise XOR of two messages.
pub fn xor_message<const NUM_LIMBS: usize>(a: &[u128; NUM_LIMBS], b: &[u128; NUM_LIMBS]) -> (r: [u128; NUM_LIMBS])
    ensures
        r@ == xor_msg(a@, b@),
{
    let mut res = [0u128; NUM_LIMBS];
    let mut i: usize = 0;
    while i < NUM_LIMBS
        invariant
            i <= NUM_LIMBS,
            res@.len() == NUM_LIMBS,
            a@.len() == NUM_LIMBS,
            b@.len() == NUM_LIMBS,
            forall|k: int| 0 <= k < i ==> #[trigger] res@[k] == a@[k] ^ b@[k],
        decreases NUM_LIMBS - i,
    {
        res[i] = a[i] ^ b[i];
        i += 1;
    }
    assert(res@ =~= xor_msg(a@, b@));
    res
}

/// The pad the sender sends for `m0` when the receiver announced `d`.
pub open spec fn pad0(m0: Seq<u128>, k0: Seq<u128>, k1: Seq<u128>, d: bool) -> Seq<u128> {
    xor_msg(m0, if d { k1 } else { k0 })
}

/// The pad the sender sends for `m1` when the receiver announced `d`.
pub open spec fn pad1(m1: Seq<u128>, k0: Seq<u128>, k1: Seq<u128>, d: bool) -> Seq<u128> {
    xor_msg(m1, if d { k0 } else { k1 })
}

impl<const NUM_LIMBS: usize> OTPre<NUM_LIMBS> {
    /// Number of OTs (`length * times`).
    pub closed spec fn spec_n(&self) -> nat {
        self.n as nat
    }

    /// Number of OTs whose choice bits have been exchanged.
    pub closed spec fn spec_count(&self) -> nat {
        self.count as nat
    }

    /// Number of OTs per batch.
    pub closed spec fn spec_length(&self) -> nat {
        self.length as nat
    }

    /// The random keys: `0..2n` for the sender, `0..n` for the receiver.
    pub closed spec fn keys(&self) -> Seq<Seq<u128>> {
        self.pre_data@.map_values(|k: [u128; NUM_LIMBS]| k@)
    }

    /// The bits: the receiver's random (then announced) bits, or the announced bits on the sender.
    pub closed spec fn spec_bits(&self) -> Seq<bool> {
        self.bits@
    }

    /// The correlation offset, once the sender has set it.
    pub closed spec fn spec_delta(&self) -> Option<Seq<u8>> {
        match self.delta {
            Some(d) => Some(d@),
            None => None,
        }
    }

    /// Shapes of the buffers.
    pub closed spec fn wf(&self) -> bool {
        &&& self.pre_data@.len() == 2 * self.n
        &&& 2 * self.n <= usize::MAX
        &&& self.bits@.len() == self.n
        &&& self.count <= self.n
    }

    /// Every key has `NUM_LIMBS` limbs, and there are two per OT.
    pub proof fn lemma_keys_shape(&self)
        requires
            self.wf(),
        ensures
            self.keys().len() == 2 * self.spec_n(),
            forall|t: int| 0 <= t < self.keys().len() ==> (#[trigger] self.keys()[t]).len() == NUM_LIMBS,
    {
    }

    /// Prepares `length * times` OTs.
    pub fn new(length: usize, times: usize) -> (r: Self)
        requires
            2 * length * times <= usize::MAX,
        ensures
            r.wf(),
            r.spec_n() == length * times,
            r.spec_length() == length,
            r.spec_count() == 0,
            r.spec_delta() is None,
            forall|i: int| 0 <= i < 2 * length * times ==> #[trigger] r.keys()[i] == Seq::new(
                NUM_LIMBS as nat,
                |j: int| 0u128,
            ),
            forall|i: int| 0 <= i < length * times ==> !#[trigger] r.spec_bits()[i],
    {
        proof {
            vstd::arithmetic::mul::lemma_mul_is_associative(2, length as int, times as int);
            vstd::arithmetic::mul::lemma_mul_inequality(length as int * times as int, 2 * (length as int * times as int), 1);
        }
        let n = length * times;
        let zero = [0u128; NUM_LIMBS];
        let mut pre_data: Vec<[u128; NUM_LIMBS]> = Vec::new();
        let mut i: usize = 0;
        while i < 2 * n
            invariant
                i <= 2 * n,
                2 * n <= usize::MAX,
                zero@ == Seq::new(NUM_LIMBS as nat, |j: int| 0u128),
                pre_data@.len() == i,
                forall|k: int| 0 <= k < i ==> #[trigger] pre_data@[k] == zero,
            decreases 2 * n - i,
        {
            pre_data.push(zero);
            i += 1;
        }
        let mut bits: Vec<bool> = Vec::new();
        let mut i: usize = 0;
        while i < n
            invariant
                i <= n,
                bits@.len() == i,
                forall|k: int| 0 <= k < i ==> !#[trigger] bits@[k],
            decreases n - i,
        {
            bits.push(false);
            i += 1;
        }
        let r = Self { pre_data, bits, n, count: 0, length, delta: None };
        assert forall|i: int| 0 <= i < 2 * length * times implies #[trigger] r.keys()[i] == Seq::new(
            NUM_LIMBS as nat,
            |j: int| 0u128,
        ) by {
            assert(r.pre_data@[i] == zero);
        }
        r
    }

    /// Sender: records `delta` and returns, for each limb `j`, the hash inputs
    /// `k_i ^ [j, 0, ..]` for the `2n` keys `k_i = data[i]` and `k_{n+i} = data[i] ^ delta`.
    pub fn send_pre(&mut self, data: &[[u8; 16]], delta: [u8; 16]) -> (r: Vec<Vec<[u8; 16]>>)
        requires
            old(self).wf(),
            data@.len() == old(self).spec_n(),
            NUM_LIMBS <= 256,
        ensures
            final(self).wf(),
            final(self).spec_n() == old(self).spec_n(),
            final(self).spec_count() == old(self).spec_count(),
            final(self).spec_length() == old(self).spec_length(),
            final(self).keys() == old(self).keys(),
            final(self).spec_bits() == old(self).spec_bits(),
            final(self).spec_delta() == Some(delta@),
            r@.len() == NUM_LIMBS,
            forall|j: int| 0 <= j < NUM_LIMBS ==> #[trigger] r@[j]@.len() == 2 * old(self).spec_n(),
            forall|j: int, i: int|
                0 <= j < NUM_LIMBS && 0 <= i < old(self).spec_n() ==> #[trigger] r@[j]@[i]@
                    == xor_bytes(data@[i]@, limb_tag(j)),
            forall|j: int, i: int|
                0 <= j < NUM_LIMBS && 0 <= i < old(self).spec_n() ==> #[trigger] r@[j]@[old(self).spec_n() + i]@
                    == xor_bytes(xor_bytes(data@[i]@, delta@), limb_tag(j)),
    {
        self.delta = Some(delta);
        let n = self.n;
        let mut pre_hash_data: Vec<[u8; 16]> = Vec::new();
        let mut i: usize = 0;
        while i < n
            invariant
                i <= n,
                data@.len() == n,
                pre_hash_data@.len() == i,
                forall|k: int| 0 <= k < i ==> #[trigger] pre_hash_data@[k] == data@[k],
            decreases n - i,
        {
            pre_hash_data.push(data[i]);
            i += 1;
        }
        let mut i: usize = 0;
        while i < n
            invariant
                i <= n,
                data@.len() == n,
                pre_hash_data@.len() == n + i,
                forall|k: int| 0 <= k < n ==> #[trigger] pre_hash_data@[k] == data@[k],
                forall|k: int| 0 <= k < i ==> #[trigger] pre_hash_data@[n + k]@ == xor_bytes(data@[k]@, delta@),
            decreases n - i,
        {
            pre_hash_data.push(xor_block(&data[i], &delta));
            i += 1;
        }
        tagged_hash_inputs::<NUM_LIMBS>(&pre_hash_data)
    }

    /// Receiver: records its random bits (`bits`, or the lowest bit of each block when
    /// none are given) and returns, for each limb `j`, the hash inputs `data[i] ^ [j, 0, ..]`.
    pub fn recv_pre(&mut self, data: &[[u8; 16]], bits: Option<&[bool]>) -> (r: Vec<Vec<[u8; 16]>>)
        requires
            old(self).wf(),
            data@.len() == old(self).spec_n(),
            NUM_LIMBS <= 256,
            bits matches Some(b) ==> b@.len() == old(self).spec_n(),
        ensures
            final(self).wf(),
            final(self).spec_n() == old(self).spec_n(),
            final(self).spec_count() == old(self).spec_count(),
            final(self).spec_length() == old(self).spec_length(),
            final(self).keys() == old(self).keys(),
            final(self).spec_delta() == old(self).spec_delta(),
            forall|i: int|
                0 <= i < old(self).spec_n() ==> #[trigger] final(self).spec_bits()[i] == match bits {
                    Some(b) => b@[i],
                    None => data@[i]@[0] & 1u8 != 0u8,
                },
            r@.len() == NUM_LIMBS,
            forall|j: int| 0 <= j < NUM_LIMBS ==> #[trigger] r@[j]@.len() == old(self).spec_n(),
            forall|j: int, i: int|
                0 <= j < NUM_LIMBS && 0 <= i < old(self).spec_n() ==> #[trigger] r@[j]@[i]@
                    == xor_bytes(data@[i]@, limb_tag(j)),
    {
        let n = self.n;
        let mut i: usize = 0;
        while i < n
            invariant
                i <= n,
                n == self.n,
                self.wf(),
                self.n == old(self).n,
                self.count == old(self).count,
                self.length == old(self).length,
                self.pre_data == old(self).pre_data,
                self.delta == old(self).delta,
                data@.len() == n,
                bits matches Some(b) ==> b@.len() == n,
                forall|k: int| 0 <= k < i ==> #[trigger] self.bits@[k] == match bits {
                    Some(b) => b@[k],
                    None => data@[k]@[0] & 1u8 != 0u8,
                },
            decreases n - i,
        {
            let v = match bits {
                Some(b) => b[i],
                None => data[i][0] & 1u8 != 0u8,
            };
            self.bits.set(i, v);
            i += 1;
        }
        let mut pre_hash_data: Vec<[u8; 16]> = Vec::new();
        let mut i: usize = 0;
        while i < n
            invariant
                i <= n,
                data@.len() == n,
                pre_hash_data@.len() == i,
                forall|k: int| 0 <= k < i ==> #[trigger] pre_hash_data@[k] == data@[k],
            decreases n - i,
        {
            pre_hash_data.push(data[i]);
            i += 1;
        }
        tagged_hash_inputs::<NUM_LIMBS>(&pre_hash_data)
    }

    /// Keeps the hashed keys: key `i` gets, as limb `j`, the little-endian value of `hashed[j][i]`.
    pub fn store_hashed(&mut self, hashed: &Vec<Vec<[u8; 16]>>, count: usize)
        requires
            old(self).wf(),
            count <= 2 * old(self).spec_n(),
            hashed@.len() == NUM_LIMBS,
            forall|j: int| 0 <= j < NUM_LIMBS ==> #[trigger] hashed@[j]@.len() >= count,
        ensures
            final(self).wf(),
            final(self).spec_n() == old(self).spec_n(),
            final(self).spec_count() == old(self).spec_count(),
            final(self).spec_length() == old(self).spec_length(),
            final(self).spec_bits() == old(self).spec_bits(),
            final(self).spec_delta() == old(self).spec_delta(),
            forall|i: int, j: int|
                0 <= i < count && 0 <= j < NUM_LIMBS ==> #[trigger] final(self).keys()[i][j]
                    == le_to_u128(hashed@[j]@[i]@),
            forall|i: int|
                count <= i < 2 * old(self).spec_n() ==> #[trigger] final(self).keys()[i] == old(self).keys()[i],
    {
        let mut i: usize = 0;
        while i < count
            invariant
                i <= count,
                count <= 2 * self.n,
                self.wf(),
                self.n == old(self).n,
                self.count == old(self).count,
                self.length == old(self).length,
                self.bits == old(self).bits,
                self.delta == old(self).delta,
                hashed@.len() == NUM_LIMBS,
                forall|j: int| 0 <= j < NUM_LIMBS ==> #[trigger] hashed@[j]@.len() >= count,
                forall|k: int, j: int|
                    0 <= k < i && 0 <= j < NUM_LIMBS ==> #[trigger] self.pre_data@[k]@[j]
                        == le_to_u128(hashed@[j]@[k]@),
                forall|k: int| i <= k < 2 * self.n ==> #[trigger] self.pre_data@[k] == old(self).pre_data@[k],
            decreases count - i,
        {
            let mut key = self.pre_data[i];
            let mut j: usize = 0;
            while j < NUM_LIMBS
                invariant
                    j <= NUM_LIMBS,
                    i < count,
                    key@.len() == NUM_LIMBS,
                    hashed@.len() == NUM_LIMBS,
                    forall|j2: int| 0 <= j2 < NUM_LIMBS ==> #[trigger] hashed@[j2]@.len() >= count,
                    forall|j2: int| 0 <= j2 < j ==> #[trigger] key@[j2] == le_to_u128(hashed@[j2]@[i as int]@),
                decreases NUM_LIMBS - j,
            {
                key[j] = u128_from_le(&hashed[j][i]);
                j += 1;
            }
            self.pre_data.set(i, key);
            i += 1;
        }
        proof {
            assert forall|k: int, j: int|
                0 <= k < count && 0 <= j < NUM_LIMBS implies #[trigger] self.keys()[k][j]
                    == le_to_u128(hashed@[j]@[k]@) by {
                assert(self.keys()[k] == self.pre_data@[k]@);
            }
            assert forall|k: int| count <= k < 2 * self.n implies #[trigger] self.keys()[k] == old(self).keys()[k] by {
                assert(self.pre_data@[k] == old(self).pre_data@[k]);
            }
        }
    }

    /// Sender: takes the next batch of announced bits.
    pub fn choices_sender(&mut self, received_bits: &[bool])
        requires
            old(self).wf(),
            old(self).spec_count() + received_bits@.len() <= old(self).spec_n(),
            old(self).spec_count() + old(self).spec_length() <= old(self).spec_n(),
        ensures
            final(self).wf(),
            final(self).spec_n() == old(self).spec_n(),
            final(self).spec_length() == old(self).spec_length(),
            final(self).keys() == old(self).keys(),
            final(self).spec_delta() == old(self).spec_delta(),
            final(self).spec_count() == old(self).spec_count() + old(self).spec_length(),
            final(self).spec_bits() == old(self).spec_bits().take(old(self).spec_count() as int)
                + received_bits@ + old(self).spec_bits().skip(
                (old(self).spec_count() + received_bits@.len()) as int,
            ),
    {
        let c = self.count;
        let mut i: usize = 0;
        while i < received_bits.len()
            invariant
                i <= received_bits@.len(),
                c == self.count,
                c + received_bits@.len() <= self.n,
                self.wf(),
                self.n == old(self).n,
                self.count == old(self).count,
                self.length == old(self).length,
                self.pre_data == old(self).pre_data,
                self.delta == old(self).delta,
                forall|k: int| 0 <= k < c ==> #[trigger] self.bits@[k] == old(self).bits@[k],
                forall|k: int| 0 <= k < i ==> #[trigger] self.bits@[c + k] == received_bits@[k],
                forall|k: int| c + i <= k < self.n ==> #[trigger] self.bits@[k] == old(self).bits@[k],
            decreases received_bits@.len() - i,
        {
            self.bits.set(c + i, received_bits[i]);
            i += 1;
        }
        self.count = c + self.length;
        let ghost want = old(self).spec_bits().take(c as int) + received_bits@ + old(self).spec_bits().skip(
            (c + received_bits@.len()) as int,
        );
        assert forall|k: int| 0 <= k < self.n implies self.bits@[k] == want[k] by {
            if c <= k < c + received_bits@.len() {
                assert(self.bits@[c + (k - c)] == received_bits@[k - c]);
            }
        }
        assert(self.bits@ =~= want);
    }

    /// Receiver: turns the next `length` choices into the bits to announce
    /// (`choice ^ random bit`), which it also keeps.
    pub fn choices_recver(&mut self, choices: &[bool]) -> (r: Vec<bool>)
        requires
            old(self).wf(),
            choices@.len() >= old(self).spec_length(),
            old(self).spec_count() + old(self).spec_length() <= old(self).spec_n(),
        ensures
            final(self).wf(),
            final(self).spec_n() == old(self).spec_n(),
            final(self).spec_length() == old(self).spec_length(),
            final(self).keys() == old(self).keys(),
            final(self).spec_delta() == old(self).spec_delta(),
            final(self).spec_count() == old(self).spec_count() + old(self).spec_length(),
            r@.len() == old(self).spec_length(),
            forall|i: int|
                0 <= i < old(self).spec_length() ==> #[trigger] r@[i] == (choices@[i]
                    != old(self).spec_bits()[old(self).spec_count() + i]),
            final(self).spec_bits() == old(self).spec_bits().take(old(self).spec_count() as int) + r@
                + old(self).spec_bits().skip((old(self).spec_count() + old(self).spec_length()) as int),
    {
        let c = self.count;
        let len = self.length;
        let mut adjusted: Vec<bool> = Vec::new();
        let mut i: usize = 0;
        while i < len
            invariant
                i <= len,
                len == self.length,
                c == self.count,
                c + len <= self.n,
                choices@.len() >= len,
                self.wf(),
                self.n == old(self).n,
                self.count == old(self).count,
                self.length == old(self).length,
                self.pre_data == old(self).pre_data,
                self.delta == old(self).delta,
                adjusted@.len() == i,
                forall|k: int| 0 <= k < i ==> #[trigger] adjusted@[k] == (choices@[k] != old(self).bits@[c + k]),
                forall|k: int| 0 <= k < c ==> #[trigger] self.bits@[k] == old(self).bits@[k],
                forall|k: int| 0 <= k < i ==> #[trigger] self.bits@[c + k] == adjusted@[k],
                forall|k: int| c + i <= k < self.n ==> #[trigger] self.bits@[k] == old(self).bits@[k],
            decreases len - i,
        {
            let a = choices[i] ^ self.bits[c + i];
            adjusted.push(a);
            self.bits.set(c + i, a);
            i += 1;
        }
        self.count = c + len;
        let ghost want = old(self).spec_bits().take(c as int) + adjusted@ + old(self).spec_bits().skip(
            (c + len) as int,
        );
        assert forall|k: int| 0 <= k < self.n implies self.bits@[k] == want[k] by {
            if c <= k < c + len {
                assert(self.bits@[c + (k - c)] == adjusted@[k - c]);
            }
        }
        assert(self.bits@ =~= want);
        adjusted
    }

    /// Sender: the `2 * length` pads of batch `s`: pad `2i` hides `m0[i]` and pad `2i + 1`
    /// hides `m1[i]`, under the two keys of OT `s * length + i`, swapped when its announced
    /// bit is set.
    pub fn send(
        &self,
        m0: &[[u128; NUM_LIMBS]],
        m1: &[[u128; NUM_LIMBS]],
        length: usize,
        s: usize,
    ) -> (r: Vec<[u128; NUM_LIMBS]>)
        requires
            self.wf(),
            s * length + length <= self.spec_n(),
            m0@.len() >= length,
            m1.len() >= length,
        ensures
            r@.len() == 2 * length,
            forall|i: int|
                0 <= i < length ==> #[trigger] r@[2 * i]@ == pad0(
                    m0@[i]@,
                    self.keys()[s * length + i],
                    self.keys()[s * length + i + self.spec_n()],
                    self.spec_bits()[s * length + i],
                ),
            forall|i: int|
                0 <= i < length ==> #[trigger] r@[2 * i + 1]@ == pad1(
                    m1@[i]@,
                    self.keys()[s * length + i],
                    self.keys()[s * length + i + self.spec_n()],
                    self.spec_bits()[s * length + i],
                ),
    {
        let k = s * length;
        let mut pad: Vec<[u128; NUM_LIMBS]> = Vec::new();
        let mut i: usize = 0;
        while i < length
            invariant
                i <= length,
                k == s * length,
                k + length <= self.n,
                self.wf(),
                m0@.len() >= length,
                m1.len() >= length,
                pad@.len() == 2 * i,
                forall|j: int|
                    0 <= j < i ==> #[trigger] pad@[2 * j]@ == pad0(
                        m0@[j]@,
                        self.keys()[k + j],
                        self.keys()[k + j + self.n],
                        self.bits@[k + j],
                    ),
                forall|j: int|
                    0 <= j < i ==> #[trigger] pad@[2 * j + 1]@ == pad1(
                        m1@[j]@,
                        self.keys()[k + j],
                        self.keys()[k + j + self.n],
                        self.bits@[k + j],
                    ),
            decreases length - i,
        {
            let idx = k + i;
            let ghost before = pad@;
            if !self.bits[idx] {
                pad.push(xor_message::<NUM_LIMBS>(&m0[i], &self.pre_data[idx]));
                pad.push(xor_message::<NUM_LIMBS>(&m1[i], &self.pre_data[idx + self.n]));
            } else {
                pad.push(xor_message::<NUM_LIMBS>(&m0[i], &self.pre_data[idx + self.n]));
                pad.push(xor_message::<NUM_LIMBS>(&m1[i], &self.pre_data[idx]));
            }
            proof {
                assert forall|j: int| 0 <= j < i + 1 implies #[trigger] pad@[2 * j]@ == pad0(
                    m0@[j]@,
                    self.keys()[k + j],
                    self.keys()[k + j + self.n],
                    self.bits@[k + j],
                ) && pad@[2 * j + 1]@ == pad1(
                    m1@[j]@,
                    self.keys()[k + j],
                    self.keys()[k + j + self.n],
                    self.bits@[k + j],
                ) by {
                    if j < i {
                        assert(pad@[2 * j] == before[2 * j]);
                        assert(pad@[2 * j + 1] == before[2 * j + 1]);
                    }
                }
            }
            i += 1;
        }
        pad
    }

    /// Receiver: unpads the messages of batch `s`: `data[i]` becomes the key of OT
    /// `s * length + i` XOR pad `2i + b[i]`.
    pub fn recv(
        &self,
        data: &mut [[u128; NUM_LIMBS]],
        pad: &Vec<[u128; NUM_LIMBS]>,
        b: &[bool],
        length: usize,
        s: usize,
    )
        requires
            self.wf(),
            s * length + length <= self.spec_n(),
            pad@.len() >= 2 * length,
            b@.len() >= length,
            old(data)@.len() >= length,
        ensures
            final(data)@.len() == old(data)@.len(),
            forall|i: int|
                0 <= i < length ==> #[trigger] final(data)@[i]@ == xor_msg(
                    self.keys()[s * length + i],
                    pad@[2 * i + if b@[i] { 1int } else { 0int }]@,
                ),
            forall|i: int| length <= i < old(data)@.len() ==> #[trigger] final(data)@[i] == old(data)@[i],
    {
        let k = s * length;
        let plen = pad.len();
        let mut i: usize = 0;
        while i < length
            invariant
                i <= length,
                k == s * length,
                k + length <= self.n,
                self.wf(),
                plen == pad@.len(),
                pad@.len() >= 2 * length,
                b@.len() >= length,
                data@.len() == old(data)@.len(),
                old(data)@.len() >= length,
                forall|j: int|
                    0 <= j < i ==> #[trigger] data@[j]@ == xor_msg(
                        self.keys()[k + j],
                        pad@[2 * j + if b@[j] { 1int } else { 0int }]@,
                    ),
                forall|j: int| i <= j < old(data)@.len() ==> #[trigger] data@[j] == old(data)@[j],
            decreases length - i,
        {
            let idx: usize = if b[i] { 1 } else { 0 };
            data[i] = xor_message::<NUM_LIMBS>(&self.pre_data[k + i], &pad[2 * i + idx]);
            i += 1;
        }
    }

    /// Restarts the count of exchanged choice bits.
    pub fn reset(&mut self)
        requires
            old(self).wf(),
        ensures
            final(self).wf(),
            final(self).spec_count() == 0,
            final(self).spec_n() == old(self).spec_n(),
            final(self).spec_length() == old(self).spec_length(),
            final(self).keys() == old(self).keys(),
            final(self).spec_bits() == old(self).spec_bits(),
            final(self).spec_delta() == old(self).spec_delta(),
    {
        self.count = 0;
    }
}

/// For each limb `j < NUM_LIMBS`: every block of `blocks` XOR `[j, 0, ..., 0]`.
fn tagged_hash_inputs<const NUM_LIMBS: usize>(blocks: &Vec<[u8; 16]>) -> (r: Vec<Vec<[u8; 16]>>)
    requires
        NUM_LIMBS <= 256,
    ensures
        r@.len() == NUM_LIMBS,
        forall|j: int| 0 <= j < NUM_LIMBS ==> #[trigger] r@[j]@.len() == blocks@.len(),
        forall|j: int, i: int|
            0 <= j < NUM_LIMBS && 0 <= i < blocks@.len() ==> #[trigger] r@[j]@[i]@ == xor_bytes(
                blocks@[i]@,
                limb_tag(j),
            ),
{
    let mut r: Vec<Vec<[u8; 16]>> = Vec::new();
    let mut j: usize = 0;
    while j < NUM_LIMBS
        invariant
            j <= NUM_LIMBS,
            NUM_LIMBS <= 256,
            r@.len() == j,
            forall|j2: int| 0 <= j2 < j ==> #[trigger] r@[j2]@.len() == blocks@.len(),
            forall|j2: int, i: int|
                0 <= j2 < j && 0 <= i < blocks@.len() ==> #[trigger] r@[j2]@[i]@ == xor_bytes(
                    blocks@[i]@,
                    limb_tag(j2),
                ),
        decreases NUM_LIMBS - j,
    {
        let tag = [j as u8, 0u8, 0u8, 0u8, 0u8, 0u8, 0u8, 0u8, 0u8, 0u8, 0u8, 0u8, 0u8, 0u8, 0u8, 0u8];
        assert(tag@ =~= limb_tag(j as int));
        let mut row: Vec<[u8; 16]> = Vec::new();
        let mut i: usize = 0;
        while i < blocks.len()
            invariant
                i <= blocks@.len(),
                tag@ == limb_tag(j as int),
                row@.len() == i,
                forall|k: int| 0 <= k < i ==> #[trigger] row@[k]@ == xor_bytes(blocks@[k]@, limb_tag(j as int)),
            decreases blocks@.len() - i,
        {
            row.push(xor_block(&blocks[i], &tag));
            i += 1;
        }
        r.push(row);
        j += 1;
    }
    r
}

/// One-out-of-two transfer: when the receiver's key is the sender's key selected by its
/// random bit `c`, and it announced `d = choice ^ c`, unpadding the pad of its choice gives
/// the message of its choice.
pub proof fn lemma_ot_transfer(
    m0: Seq<u128>,
    m1: Seq<u128>,
    k0: Seq<u128>,
    k1: Seq<u128>,
    c: bool,
    choice: bool,
)
    requires
        m0.len() == m1.len(),
        k0.len() == m0.len(),
        k1.len() == m0.len(),
    ensures
        ({
            let d = choice != c;
            let kr = if c { k1 } else { k0 };
            xor_msg(kr, if choice { pad1(m1, k0, k1, d) } else { pad0(m0, k0, k1, d) })
        }) == if choice { m1 } else { m0 },
{
    let d = choice != c;
    let kr = if c { k1 } else { k0 };
    let m = if choice { m1 } else { m0 };
    let k = if (choice && !d) || (!choice && d) { k1 } else { k0 };
    assert(k == kr);
    let res = xor_msg(kr, if choice { pad1(m1, k0, k1, d) } else { pad0(m0, k0, k1, d) });
    assert forall|i: int| 0 <= i < m.len() implies res[i] == m[i] by {
        let a = kr[i];
        let b = m[i];
        assert(a ^ (b ^ a) == b) by (bit_vector);
    }
    assert(res =~= m);
}

/// `send` and `recv` transfer the chosen messages of a batch: when, for each OT `t` of
/// batch `s`, the receiver's key is the sender's key that the receiver's random bit `c[i]`
/// selects and the sender holds the announced bit `b[i] ^ c[i]`, then unpadding (as `recv`
/// does) the pads that `send` produced gives `m1[i]` where `b[i]` is set and `m0[i]`
/// elsewhere.
pub proof fn lemma_send_recv_transfer<const NUM_LIMBS: usize>(
    sender: OTPre<NUM_LIMBS>,
    receiver: OTPre<NUM_LIMBS>,
    m0: Seq<[u128; NUM_LIMBS]>,
    m1: Seq<[u128; NUM_LIMBS]>,
    pad: Seq<[u128; NUM_LIMBS]>,
    b: Seq<bool>,
    c: Seq<bool>,
    length: int,
    s: int,
)
    requires
        sender.wf(),
        receiver.wf(),
        0 <= s,
        0 <= length,
        s * length + length <= sender.spec_n(),
        s * length + length <= receiver.spec_n(),
        m0.len() >= length,
        m1.len() >= length,
        b.len() >= length,
        c.len() >= length,
        pad.len() >= 2 * length,
        forall|i: int|
            0 <= i < length ==> #[trigger] receiver.keys()[s * length + i] == if c[i] {
                sender.keys()[s * length + i + sender.spec_n()]
            } else {
                sender.keys()[s * length + i]
            },
        forall|i: int| 0 <= i < length ==> #[trigger] sender.spec_bits()[s * length + i] == (b[i] != c[i]),
        forall|i: int|
            0 <= i < length ==> #[trigger] pad[2 * i]@ == pad0(
                m0[i]@,
                sender.keys()[s * length + i],
                sender.keys()[s * length + i + sender.spec_n()],
                sender.spec_bits()[s * length + i],
            ),
        forall|i: int|
            0 <= i < length ==> #[trigger] pad[2 * i + 1]@ == pad1(
                m1[i]@,
                sender.keys()[s * length + i],
                sender.keys()[s * length + i + sender.spec_n()],
                sender.spec_bits()[s * length + i],
            ),
    ensures
        forall|i: int|
            #![trigger b[i]]
            0 <= i < length ==> xor_msg(
                receiver.keys()[s * length + i],
                pad[2 * i + if b[i] { 1int } else { 0int }]@,
            ) == if b[i] { m1[i]@ } else { m0[i]@ },
{
    assert forall|i: int| #![trigger b[i]] 0 <= i < length implies xor_msg(
        receiver.keys()[s * length + i],
        pad[2 * i + if b[i] { 1int } else { 0int }]@,
    ) == if b[i] { m1[i]@ } else { m0[i]@ } by {
        let t = s * length + i;
        let k0 = sender.keys()[t];
        let k1 = sender.keys()[t + sender.spec_n()];
        assert(0 <= t < sender.spec_n());
        assert(k0 == sender.pre_data@[t]@);
        assert(k1 == sender.pre_data@[t + sender.n]@);
        lemma_ot_transfer(m0[i]@, m1[i]@, k0, k1, c[i], b[i]);
    }
}

} // verus!
