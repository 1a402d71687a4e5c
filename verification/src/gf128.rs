//! Arithmetic in GF(2^128) = GF(2)[X] / (X^128 + X^7 + X^2 + X + 1).
//!
//! An element is a `u128` whose bit `i` is the coefficient of `X^i`.
//! Addition is XOR; multiplication is defined through the linear map
//! "multiply by X" (`xtime`), so that `x * y = XOR_{i : bit i of y} x * X^i`.
use vstd::prelude::*;

verus! {

/// The low part of the reduction polynomial: X^7 + X^2 + X + 1.
pub const POLY: u128 = 0x87u128;

/// Multiplication by `X`, reduced modulo the field polynomial.
pub open spec fn xtime(a: u128) -> u128 {
    if a & (1u128 << 127u128) != 0 {
        (a << 1u128) ^ POLY
    } else {
        a << 1u128
    }
}

/// `a * X^i`.
pub open spec fn xtime_pow(a: u128, i: nat) -> u128
    decreases i,
{
    if i == 0 {
        a
    } else {
        xtime(xtime_pow(a, (i - 1) as nat))
    }
}

/// The coefficient of `X^i` in `y`.
pub open spec fn bit(y: u128, i: nat) -> bool {
    (y >> (i as u128)) & 1u128 == 1u128
}

/// `x * (y mod X^k)`: the sum of `x * X^i` over the set bits `i < k` of `y`.
pub open spec fn gf_mul_upto(x: u128, y: u128, k: nat) -> u128
    decreases k,
{
    if k == 0 {
        0u128
    } else {
        let r = gf_mul_upto(x, y, (k - 1) as nat);
        if bit(y, (k - 1) as nat) {
            r ^ xtime_pow(x, (k - 1) as nat)
        } else {
            r
        }
    }
}

/// The product `x * y` in GF(2^128).
pub open spec fn gf_mul(x: u128, y: u128) -> u128 {
    gf_mul_upto(x, y, 128)
}

/// `s^(i+1)` computed as `((s * s) * s) ...`: the `i`-th universal-hash coefficient for seed `s`.
pub open spec fn hash_coeff(seed: u128, i: nat) -> u128
    decreases i,
{
    if i == 0 {
        seed
    } else {
        gf_mul(hash_coeff(seed, (i - 1) as nat), seed)
    }
}

/// Multiplying by `X` (the element 2) shifts left by one bit and, when the top bit falls
/// out, adds the reduction `X^7 + X^2 + X + 1` (0x87). Together with distributivity this
/// fixes the product of any two elements.
pub proof fn lemma_gf_mul_by_x(a: u128)
    ensures
        gf_mul(a, 2u128) == if a >> 127u128 == 1u128 {
            (a << 1u128) ^ 0x87u128
        } else {
            a << 1u128
        },
{
    assert(1u128 << 1u128 == 2u128 && xtime(a) == if a >> 127u128 == 1u128 {
        (a << 1u128) ^ 0x87u128
    } else {
        a << 1u128
    }) by (bit_vector);
    lemma_xtime_pow_one(1);
    lemma_gf_mul_xtime_pow_left(1u128, a, 1);
    lemma_gf_mul_one_left(a);
    lemma_gf_mul_commutes(a, 2u128);
    assert(xtime_pow(a, 0) == a);
    assert(xtime_pow(a, 1) == xtime(a));
    assert(xtime_pow(1u128, 1) == 2u128);
    assert(gf_mul(2u128, a) == xtime(a));
}

/// The coefficients are the successive powers of the seed: the first is the seed, each next
/// one is the one before times the seed, and coefficient `i + j + 1` is coefficient `i`
/// times coefficient `j` (`seed^(i+1) * seed^(j+1) = seed^(i+j+2)`).
pub proof fn lemma_hash_coeff_powers(seed: u128)
    ensures
        hash_coeff(seed, 0) == seed,
        forall|i: nat| #[trigger] hash_coeff(seed, i + 1) == gf_mul(hash_coeff(seed, i), seed),
        forall|i: nat, j: nat| #[trigger] hash_coeff(seed, i + j + 1) == gf_mul(hash_coeff(seed, i), hash_coeff(seed, j)),
{
    assert forall|i: nat, j: nat| #[trigger] hash_coeff(seed, i + j + 1) == gf_mul(hash_coeff(seed, i), hash_coeff(seed, j)) by {
        lemma_hash_coeff_add(seed, i, j);
    }
}

proof fn lemma_hash_coeff_add(seed: u128, i: nat, j: nat)
    ensures
        hash_coeff(seed, i + j + 1) == gf_mul(hash_coeff(seed, i), hash_coeff(seed, j)),
    decreases j,
{
    if j == 0 {
        assert(hash_coeff(seed, i + 1) == gf_mul(hash_coeff(seed, i), seed));
    } else {
        let j1 = (j - 1) as nat;
        lemma_hash_coeff_add(seed, i, j1);
        assert(hash_coeff(seed, i + j + 1) == gf_mul(hash_coeff(seed, i + j1 + 1), seed));
        assert(hash_coeff(seed, j) == gf_mul(hash_coeff(seed, j1), seed));
        lemma_gf_mul_associates(hash_coeff(seed, i), hash_coeff(seed, j1), seed);
    }
}

/// `XOR_{i < k} a[i] * b[i]`.
pub open spec fn inner_product_upto(a: Seq<u128>, b: Seq<u128>, k: nat) -> u128
    decreases k,
{
    if k == 0 {
        0u128
    } else {
        inner_product_upto(a, b, (k - 1) as nat) ^ gf_mul(a[k - 1], b[k - 1])
    }
}

/// The inner product over the common prefix of `a` and `b`.
pub open spec fn inner_product(a: Seq<u128>, b: Seq<u128>) -> u128 {
    inner_product_upto(a, b, if a.len() <= b.len() { a.len() } else { b.len() })
}

/// The inner product adds up the products of paired entries: it is zero on empty vectors,
/// appending one pair adds that pair's product, and entries past the shorter vector are
/// ignored.
pub proof fn lemma_inner_product_sums_pairs(a: Seq<u128>, b: Seq<u128>, x: u128, y: u128)
    ensures
        inner_product(Seq::<u128>::empty(), b) == 0u128,
        a.len() == b.len() ==> inner_product(a.push(x), b.push(y)) == inner_product(a, b) ^ gf_mul(x, y),
        a.len() <= b.len() ==> inner_product(a, b) == inner_product(a, b.take(a.len() as int)),
        b.len() <= a.len() ==> inner_product(a, b) == inner_product(a.take(b.len() as int), b),
{
    if a.len() == b.len() {
        lemma_inner_upto_agree(a.push(x), b.push(y), a, b, a.len());
    }
    if a.len() <= b.len() {
        lemma_inner_upto_agree(a, b, a, b.take(a.len() as int), a.len());
    }
    if b.len() <= a.len() {
        lemma_inner_upto_agree(a, b, a.take(b.len() as int), b, b.len());
    }
}

/// Two pairs of vectors that agree below `k` have the same inner product below `k`.
proof fn lemma_inner_upto_agree(a1: Seq<u128>, b1: Seq<u128>, a2: Seq<u128>, b2: Seq<u128>, k: nat)
    requires
        forall|i: int| 0 <= i < k ==> a1[i] == a2[i] && b1[i] == b2[i],
    ensures
        inner_product_upto(a1, b1, k) == inner_product_upto(a2, b2, k),
    decreases k,
{
    if k > 0 {
        lemma_inner_upto_agree(a1, b1, a2, b2, (k - 1) as nat);
    }
}

proof fn lemma_test_bit(y: u128, b: u128)
    requires
        b < 128,
    ensures
        (y & (1u128 << b) != 0) == ((y >> b) & 1u128 == 1u128),
{
    assert((y & (1u128 << b) != 0) == ((y >> b) & 1u128 == 1u128)) by (bit_vector)
        requires
            b < 128,
    ;
}

/// Multiplication in GF(2^128) by shift-and-add.
pub fn gf128mul(x: u128, y: u128) -> (r: u128)
    ensures
        r == gf_mul(x, y),
{
    let mut x_shifted = x;
    let mut res: u128 = 0;
    let mut bit: u32 = 0;
    while bit < 128
        invariant
            bit <= 128,
            x_shifted == xtime_pow(x, bit as nat),
            res == gf_mul_upto(x, y, bit as nat),
        decreases 128 - bit,
    {
        proof {
            lemma_test_bit(y, bit as u128);
        }
        if y & (1u128 << bit) != 0 {
            res ^= x_shifted;
        }
        if x_shifted & (1u128 << 127u32) != 0 {
            x_shifted = (x_shifted << 1u32) ^ POLY;
        } else {
            x_shifted = x_shifted << 1u32;
        }
        bit += 1;
    }
    res
}


/// Fills `coeff[0..sz]` with the universal-hash coefficients `seed, seed^2, ..., seed^sz`.
pub fn uni_hash_coeff_gen_f2k(coeff: &mut [u128], seed: u128, sz: usize)
    requires
        sz <= old(coeff)@.len(),
    ensures
        final(coeff)@.len() == old(coeff)@.len(),
        forall|i: int| 0 <= i < sz ==> #[trigger] final(coeff)@[i] == hash_coeff(seed, i as nat),
        forall|i: int| sz <= i < old(coeff)@.len() ==> #[trigger] final(coeff)@[i] == old(coeff)@[i],
        sz > 0 ==> final(coeff)@[0] == seed,
        forall|i: int| 1 <= i < sz ==> #[trigger] final(coeff)@[i] == gf_mul(final(coeff)@[i - 1], seed),
{
    proof {
        lemma_hash_coeff_powers(seed);
    }
    if sz == 0 {
        return;
    }
    coeff[0] = seed;
    let mut i: usize = 1;
    while i < sz
        invariant
            1 <= i <= sz,
            sz <= coeff@.len(),
            coeff@.len() == old(coeff)@.len(),
            forall|j: int| 0 <= j < i ==> #[trigger] coeff@[j] == hash_coeff(seed, j as nat),
            forall|j: int| sz <= j < old(coeff)@.len() ==> #[trigger] coeff@[j] == old(coeff)@[j],
        decreases sz - i,
    {
        let prev = coeff[i - 1];
        coeff[i] = gf128mul(prev, seed);
        i += 1;
    }
}

/// `XOR_i vec1[i] * vec2[i]` over the common prefix of the two vectors.
pub fn vector_inner_product_f2k(vec1: &[u128], vec2: &[u128]) -> (r: u128)
    ensures
        r == inner_product(vec1@, vec2@),
{
    let n = if vec1.len() <= vec2.len() { vec1.len() } else { vec2.len() };
    let mut acc: u128 = 0;
    let mut i: usize = 0;
    while i < n
        invariant
            i <= n,
            n <= vec1@.len(),
            n <= vec2@.len(),
            n == (if vec1@.len() <= vec2@.len() { vec1@.len() } else { vec2@.len() }),
            acc == inner_product_upto(vec1@, vec2@, i as nat),
        decreases n - i,
    {
        acc = acc ^ gf128mul(vec1[i], vec2[i]);
        i += 1;
    }
    acc
}


// ---------------------------------------------------------------------------
// Bit-level facts used by the algebraic laws below.
// ---------------------------------------------------------------------------

/// XOR is associative, commutative, has `0` as identity and is its own inverse.
pub broadcast proof fn lemma_xor_facts(a: u128, b: u128, c: u128)
    ensures
        #[trigger] ((a ^ b) ^ c) == a ^ (b ^ c),
        a ^ b == b ^ a,
        a ^ 0u128 == a,
        a ^ a == 0u128,
{
    assert((a ^ b) ^ c == a ^ (b ^ c) && a ^ b == b ^ a && a ^ 0u128 == a && a ^ a == 0u128) by (bit_vector);
}

pub(crate) proof fn lemma_xor4(a: u128, b: u128, c: u128, d: u128)
    ensures
        (a ^ b) ^ (c ^ d) == (a ^ c) ^ (b ^ d),
{
    assert((a ^ b) ^ (c ^ d) == (a ^ c) ^ (b ^ d)) by (bit_vector);
}

pub(crate) proof fn lemma_xor3_cases(a: u128, b: u128, t: u128)
    ensures
        (a ^ b) ^ t == (a ^ t) ^ b,
        (a ^ b) ^ t == a ^ (b ^ t),
        a ^ b == (a ^ t) ^ (b ^ t),
        0u128 ^ 0u128 == 0u128,
{
    assert((a ^ b) ^ t == (a ^ t) ^ b && (a ^ b) ^ t == a ^ (b ^ t) && a ^ b == (a ^ t) ^ (b ^ t) && 0u128
        ^ 0u128 == 0u128) by (bit_vector);
}

proof fn lemma_xtime_linear(a: u128, b: u128)
    ensures
        xtime(a ^ b) == xtime(a) ^ xtime(b),
        xtime(0u128) == 0u128,
{
    assert((if (a ^ b) & (1u128 << 127u128) != 0 { ((a ^ b) << 1u128) ^ 0x87u128 } else { (a
        ^ b) << 1u128 }) == (if a & (1u128 << 127u128) != 0 { (a << 1u128) ^ 0x87u128 } else { a
        << 1u128 }) ^ (if b & (1u128 << 127u128) != 0 { (b << 1u128) ^ 0x87u128 } else { b
        << 1u128 })) by (bit_vector);
    assert((if 0u128 & (1u128 << 127u128) != 0 { (0u128 << 1u128) ^ 0x87u128 } else { 0u128
        << 1u128 }) == 0u128) by (bit_vector);
}

proof fn lemma_xtime_pow_linear(a: u128, b: u128, i: nat)
    ensures
        xtime_pow(a ^ b, i) == xtime_pow(a, i) ^ xtime_pow(b, i),
        xtime_pow(0u128, i) == 0u128,
    decreases i,
{
    if i > 0 {
        lemma_xtime_pow_linear(a, b, (i - 1) as nat);
        lemma_xtime_linear(xtime_pow(a, (i - 1) as nat), xtime_pow(b, (i - 1) as nat));
        lemma_xtime_linear(0u128, 0u128);
    }
}

proof fn lemma_bit_xor(a: u128, b: u128, i: nat)
    requires
        i < 128,
    ensures
        bit(a ^ b, i) == (bit(a, i) != bit(b, i)),
{
    let s = i as u128;
    assert((((a ^ b) >> s) & 1u128 == 1u128) == (((a >> s) & 1u128 == 1u128) != ((b >> s)
        & 1u128 == 1u128))) by (bit_vector);
}

proof fn lemma_bit_zero(i: nat)
    requires
        i < 128,
    ensures
        !bit(0u128, i),
{
    let s = i as u128;
    assert(((0u128 >> s) & 1u128 == 1u128) == false) by (bit_vector);
}

// ---------------------------------------------------------------------------
// Laws of the field multiplication.
// ---------------------------------------------------------------------------

proof fn lemma_mul_upto_zero_right(x: u128, k: nat)
    requires
        k <= 128,
    ensures
        gf_mul_upto(x, 0u128, k) == 0u128,
    decreases k,
{
    if k > 0 {
        lemma_mul_upto_zero_right(x, (k - 1) as nat);
        lemma_bit_zero((k - 1) as nat);
    }
}

proof fn lemma_mul_upto_zero_left(y: u128, k: nat)
    ensures
        gf_mul_upto(0u128, y, k) == 0u128,
    decreases k,
{
    if k > 0 {
        lemma_mul_upto_zero_left(y, (k - 1) as nat);
        lemma_xtime_pow_linear(0u128, 0u128, (k - 1) as nat);
        lemma_xor_facts(0u128, 0u128, 0u128);
    }
}

/// Zero annihilates: `x * 0 == 0 == 0 * x`.
pub proof fn lemma_gf_mul_zero(x: u128)
    ensures
        gf_mul(x, 0u128) == 0u128,
        gf_mul(0u128, x) == 0u128,
{
    lemma_mul_upto_zero_right(x, 128);
    lemma_mul_upto_zero_left(x, 128);
}

proof fn lemma_mul_upto_distrib_left(a: u128, b: u128, y: u128, k: nat)
    ensures
        gf_mul_upto(a ^ b, y, k) == gf_mul_upto(a, y, k) ^ gf_mul_upto(b, y, k),
    decreases k,
{
    if k > 0 {
        let k1 = (k - 1) as nat;
        lemma_mul_upto_distrib_left(a, b, y, k1);
        lemma_xtime_pow_linear(a, b, k1);
        lemma_xor4(gf_mul_upto(a, y, k1), gf_mul_upto(b, y, k1), xtime_pow(a, k1), xtime_pow(b, k1));
    } else {
        lemma_xor3_cases(0u128, 0u128, 0u128);
    }
}

proof fn lemma_mul_upto_distrib_right(x: u128, a: u128, b: u128, k: nat)
    requires
        k <= 128,
    ensures
        gf_mul_upto(x, a ^ b, k) == gf_mul_upto(x, a, k) ^ gf_mul_upto(x, b, k),
    decreases k,
{
    if k > 0 {
        let k1 = (k - 1) as nat;
        lemma_mul_upto_distrib_right(x, a, b, k1);
        lemma_bit_xor(a, b, k1);
        let ra = gf_mul_upto(x, a, k1);
        let rb = gf_mul_upto(x, b, k1);
        let t = xtime_pow(x, k1);
        lemma_xor3_cases(ra, rb, t);
    } else {
        lemma_xor3_cases(0u128, 0u128, 0u128);
    }
}

/// Multiplication distributes over addition (XOR) on both sides.
pub proof fn lemma_gf_mul_distributes(x: u128, a: u128, b: u128)
    ensures
        gf_mul(x, a ^ b) == gf_mul(x, a) ^ gf_mul(x, b),
        gf_mul(a ^ b, x) == gf_mul(a, x) ^ gf_mul(b, x),
{
    lemma_mul_upto_distrib_right(x, a, b, 128);
    lemma_mul_upto_distrib_left(a, b, x, 128);
}


/// `y` with its bits from `k` up cleared.
pub open spec fn low_bits(y: u128, k: nat) -> u128 {
    y & !(u128::MAX << (k as u128))
}

proof fn lemma_unit_bits(y: u128, k: u128)
    requires
        k < 128,
    ensures
        k < 127 ==> xtime(1u128 << k) == 1u128 << ((k + 1) as u128),
        (y & !(u128::MAX << k)) ^ (if (y >> k) & 1u128 == 1u128 { 1u128 << k } else { 0u128 }) == y & !(
        u128::MAX << ((k + 1) as u128)),
        y & !(u128::MAX << 0u128) == 0u128,
        y & !(u128::MAX << 128u128) == y,
        1u128 << 0u128 == 1u128,
{
    assert((k < 127 ==> xtime(1u128 << k) == 1u128 << ((k + 1) as u128)) && (y & !(u128::MAX << k)) ^ (if (y
        >> k) & 1u128 == 1u128 { 1u128 << k } else { 0u128 }) == y & !(u128::MAX << ((k + 1) as u128)) && y
        & !(u128::MAX << 0u128) == 0u128 && y & !(u128::MAX << 128u128) == y && 1u128 << 0u128 == 1u128)
        by (bit_vector)
        requires
            k < 128,
    ;
}

/// `X^k` is the `k`-th unit.
proof fn lemma_xtime_pow_one(k: nat)
    requires
        k < 128,
    ensures
        xtime_pow(1u128, k) == 1u128 << (k as u128),
    decreases k,
{
    lemma_unit_bits(0u128, 0u128);
    if k > 0 {
        lemma_xtime_pow_one((k - 1) as nat);
        lemma_unit_bits(0u128, (k - 1) as u128);
    }
}

/// Multiplying the unit by `y mod X^k` gives the low `k` bits of `y`.
proof fn lemma_mul_upto_one(y: u128, k: nat)
    requires
        k <= 128,
    ensures
        gf_mul_upto(1u128, y, k) == low_bits(y, k),
    decreases k,
{
    if k == 0 {
        lemma_unit_bits(y, 0u128);
    } else {
        let k1 = (k - 1) as nat;
        lemma_mul_upto_one(y, k1);
        lemma_xtime_pow_one(k1);
        lemma_unit_bits(y, k1 as u128);
        lemma_xor_facts(low_bits(y, k1), 0u128, 0u128);
    }
}

/// The unit is the identity: `1 * y == y`.
proof fn lemma_gf_mul_one_left(y: u128)
    ensures
        gf_mul(1u128, y) == y,
        gf_mul_upto(1u128, y, 128) == y,
{
    lemma_mul_upto_one(y, 128);
    lemma_unit_bits(y, 0u128);
}

proof fn lemma_xtime_pow_shift(a: u128, i: nat)
    ensures
        xtime_pow(xtime(a), i) == xtime(xtime_pow(a, i)),
    decreases i,
{
    if i > 0 {
        lemma_xtime_pow_shift(a, (i - 1) as nat);
    }
}

/// Multiplying the left factor by `X` multiplies the product by `X`.
proof fn lemma_mul_upto_xtime_left(x: u128, y: u128, k: nat)
    ensures
        gf_mul_upto(xtime(x), y, k) == xtime(gf_mul_upto(x, y, k)),
    decreases k,
{
    lemma_xtime_linear(0u128, 0u128);
    if k > 0 {
        let k1 = (k - 1) as nat;
        lemma_mul_upto_xtime_left(x, y, k1);
        lemma_xtime_pow_shift(x, k1);
        lemma_xtime_linear(gf_mul_upto(x, y, k1), xtime_pow(x, k1));
    }
}

/// `(a * X^i) * y == (a * y) * X^i`.
proof fn lemma_gf_mul_xtime_pow_left(a: u128, y: u128, i: nat)
    ensures
        gf_mul(xtime_pow(a, i), y) == xtime_pow(gf_mul(a, y), i),
    decreases i,
{
    if i > 0 {
        lemma_gf_mul_xtime_pow_left(a, y, (i - 1) as nat);
        lemma_mul_upto_xtime_left(xtime_pow(a, (i - 1) as nat), y, 128);
    }
}

proof fn lemma_mul_upto_swap(x: u128, y: u128, k: nat)
    requires
        k <= 128,
    ensures
        gf_mul(gf_mul_upto(1u128, x, k), y) == gf_mul_upto(y, x, k),
    decreases k,
{
    if k == 0 {
        lemma_gf_mul_zero(y);
    } else {
        let k1 = (k - 1) as nat;
        lemma_mul_upto_swap(x, y, k1);
        let p = gf_mul_upto(1u128, x, k1);
        let t = xtime_pow(1u128, k1);
        lemma_gf_mul_distributes(y, p, t);
        lemma_gf_mul_xtime_pow_left(1u128, y, k1);
        lemma_gf_mul_one_left(y);
    }
}

/// Multiplication commutes: `x * y == y * x`.
pub proof fn lemma_gf_mul_commutes(x: u128, y: u128)
    ensures
        gf_mul(x, y) == gf_mul(y, x),
{
    lemma_gf_mul_one_left(x);
    lemma_mul_upto_swap(x, y, 128);
}

/// The unit is the identity on both sides: `1 * y == y == y * 1`.
pub proof fn lemma_gf_mul_one(y: u128)
    ensures
        gf_mul(1u128, y) == y,
        gf_mul(y, 1u128) == y,
{
    lemma_gf_mul_one_left(y);
    lemma_gf_mul_commutes(y, 1u128);
}

proof fn lemma_mul_upto_assoc(x: u128, y: u128, z: u128, k: nat)
    requires
        k <= 128,
    ensures
        gf_mul(x, gf_mul_upto(y, z, k)) == gf_mul_upto(gf_mul(x, y), z, k),
    decreases k,
{
    if k == 0 {
        lemma_gf_mul_zero(x);
    } else {
        let k1 = (k - 1) as nat;
        lemma_mul_upto_assoc(x, y, z, k1);
        let p = gf_mul_upto(y, z, k1);
        let t = xtime_pow(y, k1);
        lemma_gf_mul_distributes(x, p, t);
        lemma_gf_mul_commutes(x, t);
        lemma_gf_mul_xtime_pow_left(y, x, k1);
        lemma_gf_mul_commutes(y, x);
    }
}

/// Multiplication is associative: `x * (y * z) == (x * y) * z`.
pub proof fn lemma_gf_mul_associates(x: u128, y: u128, z: u128)
    ensures
        gf_mul(x, gf_mul(y, z)) == gf_mul(gf_mul(x, y), z),
{
    lemma_mul_upto_assoc(x, y, z, 128);
}


/// Over the first `k` entries: changing one entry of a vector by `d` changes its inner
/// product with `chi` by `chi[alpha] * d`.
proof fn lemma_inner_point_change_upto(chi: Seq<u128>, s: Seq<u128>, r: Seq<u128>, alpha: int, d: u128, k: nat)
    requires
        k <= chi.len(),
        s.len() == chi.len(),
        r.len() == chi.len(),
        0 <= alpha < chi.len(),
        forall|x: int| 0 <= x < chi.len() ==> #[trigger] (r[x] ^ s[x]) == if x == alpha { d } else { 0u128 },
    ensures
        inner_product_upto(chi, r, k) == inner_product_upto(chi, s, k) ^ (if alpha < k {
            gf_mul(chi[alpha], d)
        } else {
            0u128
        }),
    decreases k,
{
    if k == 0 {
        lemma_xor_facts(0u128, 0u128, 0u128);
    } else {
        let k1 = (k - 1) as nat;
        lemma_inner_point_change_upto(chi, s, r, alpha, d, k1);
        let e = if k1 == alpha { d } else { 0u128 };
        assert(r[k1 as int] ^ s[k1 as int] == e);
        lemma_xor_facts(r[k1 as int], s[k1 as int], s[k1 as int]);
        lemma_xor_facts(s[k1 as int], r[k1 as int], s[k1 as int]);
        lemma_xor_facts(e, s[k1 as int], 0u128);
        assert(r[k1 as int] == s[k1 as int] ^ e);
        lemma_gf_mul_distributes(chi[k1 as int], s[k1 as int], e);
        lemma_gf_mul_zero(chi[k1 as int]);
        let ps = inner_product_upto(chi, s, k1);
        let before = if alpha < k1 { gf_mul(chi[alpha], d) } else { 0u128 };
        let gs = gf_mul(chi[k1 as int], s[k1 as int]);
        let ge = gf_mul(chi[k1 as int], e);
        assert(inner_product_upto(chi, r, k) == (ps ^ before) ^ (gs ^ ge));
        lemma_xor4(ps, before, gs, ge);
        if k1 == alpha {
            assert(before == 0u128);
            lemma_xor_facts(ge, 0u128, 0u128);
            lemma_xor_facts(0u128, ge, 0u128);
        } else {
            assert(ge == 0u128);
            lemma_xor_facts(before, 0u128, 0u128);
        }
    }
}

/// Changing one entry of a vector by `d` changes its inner product with `chi` by
/// `chi[alpha] * d`.
pub proof fn lemma_inner_point_change(chi: Seq<u128>, s: Seq<u128>, r: Seq<u128>, alpha: int, d: u128)
    requires
        s.len() == chi.len(),
        r.len() == chi.len(),
        0 <= alpha < chi.len(),
        forall|x: int| 0 <= x < chi.len() ==> #[trigger] (r[x] ^ s[x]) == if x == alpha { d } else { 0u128 },
    ensures
        inner_product(chi, r) == inner_product(chi, s) ^ gf_mul(chi[alpha], d),
{
    lemma_inner_point_change_upto(chi, s, r, alpha, d, chi.len());
}

} // verus!
