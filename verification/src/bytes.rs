//! Little-endian conversions between 16-byte blocks and `u128`, and bytewise XOR of blocks.
use vstd::prelude::*;

verus! {

/// The value of a 16-byte little-endian block.
pub open spec fn le_to_u128(b: Seq<u8>) -> u128 {
    (b[0] as u128) | ((b[1] as u128) << 8u128) | ((b[2] as u128) << 16u128) | ((b[3] as u128)
        << 24u128) | ((b[4] as u128) << 32u128) | ((b[5] as u128) << 40u128) | ((b[6] as u128)
        << 48u128) | ((b[7] as u128) << 56u128) | ((b[8] as u128) << 64u128) | ((b[9] as u128)
        << 72u128) | ((b[10] as u128) << 80u128) | ((b[11] as u128) << 88u128) | ((b[12] as u128)
        << 96u128) | ((b[13] as u128) << 104u128) | ((b[14] as u128) << 112u128) | ((
    b[15] as u128) << 120u128)
}

/// Byte `j` (least significant first) of `x`.
pub open spec fn le_byte(x: u128, j: int) -> u8 {
    ((x >> ((8 * j) as u128)) & 0xffu128) as u8
}

/// The 16-byte little-endian encoding of `x`.
pub open spec fn u128_to_le(x: u128) -> Seq<u8> {
    Seq::new(16, |j: int| le_byte(x, j))
}

/// The 8-byte little-endian encoding of `x`.
pub open spec fn u64_to_le(x: u64) -> Seq<u8> {
    Seq::new(8, |j: int| ((x >> ((8 * j) as u64)) & 0xffu64) as u8)
}

/// Bytewise XOR of two blocks.
pub open spec fn xor_bytes(a: Seq<u8>, b: Seq<u8>) -> Seq<u8> {
    Seq::new(a.len(), |j: int| a[j] ^ b[j])
}

/// `u128::from_le_bytes`.
pub fn u128_from_le(b: &[u8; 16]) -> (r: u128)
    ensures
        r == le_to_u128(b@),
{
    (b[0] as u128) | ((b[1] as u128) << 8u32) | ((b[2] as u128) << 16u32) | ((b[3] as u128)
        << 24u32) | ((b[4] as u128) << 32u32) | ((b[5] as u128) << 40u32) | ((b[6] as u128)
        << 48u32) | ((b[7] as u128) << 56u32) | ((b[8] as u128) << 64u32) | ((b[9] as u128)
        << 72u32) | ((b[10] as u128) << 80u32) | ((b[11] as u128) << 88u32) | ((b[12] as u128)
        << 96u32) | ((b[13] as u128) << 104u32) | ((b[14] as u128) << 112u32) | ((b[15] as u128)
        << 120u32)
}

/// `u128::from_le_bytes` on the 16 bytes of `b` that start at `start`.
pub fn u128_from_le_at(b: &[u8], start: usize) -> (r: u128)
    requires
        start + 16 <= b@.len(),
    ensures
        r == le_to_u128(b@.subrange(start as int, start + 16)),
{
    let ghost s = b@.subrange(start as int, start + 16);
    assert(forall|j: int| 0 <= j < 16 ==> s[j] == b@[start + j]);
    (b[start] as u128) | ((b[start + 1] as u128) << 8u32) | ((b[start + 2] as u128) << 16u32) | ((
    b[start + 3] as u128) << 24u32) | ((b[start + 4] as u128) << 32u32) | ((b[start + 5] as u128)
        << 40u32) | ((b[start + 6] as u128) << 48u32) | ((b[start + 7] as u128) << 56u32) | ((
    b[start + 8] as u128) << 64u32) | ((b[start + 9] as u128) << 72u32) | ((b[start + 10] as u128)
        << 80u32) | ((b[start + 11] as u128) << 88u32) | ((b[start + 12] as u128) << 96u32) | ((
    b[start + 13] as u128) << 104u32) | ((b[start + 14] as u128) << 112u32) | ((
    b[start + 15] as u128) << 120u32)
}

/// `u128::to_le_bytes`.
pub fn u128_to_le_bytes(x: u128) -> (r: [u8; 16])
    ensures
        r@ == u128_to_le(x),
{
    let r = [
        (x & 0xff) as u8,
        ((x >> 8u32) & 0xff) as u8,
        ((x >> 16u32) & 0xff) as u8,
        ((x >> 24u32) & 0xff) as u8,
        ((x >> 32u32) & 0xff) as u8,
        ((x >> 40u32) & 0xff) as u8,
        ((x >> 48u32) & 0xff) as u8,
        ((x >> 56u32) & 0xff) as u8,
        ((x >> 64u32) & 0xff) as u8,
        ((x >> 72u32) & 0xff) as u8,
        ((x >> 80u32) & 0xff) as u8,
        ((x >> 88u32) & 0xff) as u8,
        ((x >> 96u32) & 0xff) as u8,
        ((x >> 104u32) & 0xff) as u8,
        ((x >> 112u32) & 0xff) as u8,
        ((x >> 120u32) & 0xff) as u8,
    ];
    proof {
        assert(x >> 0u128 == x) by (bit_vector);
        assert(r@ =~= u128_to_le(x));
    }
    r
}

/// `u64::to_le_bytes`.
pub fn u64_to_le_bytes(x: u64) -> (r: [u8; 8])
    ensures
        r@ == u64_to_le(x),
{
    let r = [
        (x & 0xff) as u8,
        ((x >> 8u32) & 0xff) as u8,
        ((x >> 16u32) & 0xff) as u8,
        ((x >> 24u32) & 0xff) as u8,
        ((x >> 32u32) & 0xff) as u8,
        ((x >> 40u32) & 0xff) as u8,
        ((x >> 48u32) & 0xff) as u8,
        ((x >> 56u32) & 0xff) as u8,
    ];
    proof {
        assert(x >> 0u64 == x) by (bit_vector);
        assert(r@ =~= u64_to_le(x));
    }
    r
}

/// Decoding an encoding gives the value back.
pub proof fn lemma_le_roundtrip_value(x: u128)
    ensures
        le_to_u128(u128_to_le(x)) == x,
{
    let b = u128_to_le(x);
    assert(x == (((x >> 0u128) & 0xffu128) as u8 as u128) | (((((x >> 8u128) & 0xffu128) as u8)
        as u128) << 8u128) | (((((x >> 16u128) & 0xffu128) as u8) as u128) << 16u128) | (((((x
        >> 24u128) & 0xffu128) as u8) as u128) << 24u128) | (((((x >> 32u128) & 0xffu128) as u8)
        as u128) << 32u128) | (((((x >> 40u128) & 0xffu128) as u8) as u128) << 40u128) | (((((x
        >> 48u128) & 0xffu128) as u8) as u128) << 48u128) | (((((x >> 56u128) & 0xffu128) as u8)
        as u128) << 56u128) | (((((x >> 64u128) & 0xffu128) as u8) as u128) << 64u128) | (((((x
        >> 72u128) & 0xffu128) as u8) as u128) << 72u128) | (((((x >> 80u128) & 0xffu128) as u8)
        as u128) << 80u128) | (((((x >> 88u128) & 0xffu128) as u8) as u128) << 88u128) | (((((x
        >> 96u128) & 0xffu128) as u8) as u128) << 96u128) | (((((x >> 104u128) & 0xffu128) as u8)
        as u128) << 104u128) | (((((x >> 112u128) & 0xffu128) as u8) as u128) << 112u128) | (((((x
        >> 120u128) & 0xffu128) as u8) as u128) << 120u128)) by (bit_vector);
    assert(b[0] == le_byte(x, 0));
    assert(8 * 0int == 0int);
}

/// Encoding a decoded block gives the block back.
pub proof fn lemma_le_roundtrip_bytes(b: Seq<u8>)
    requires
        b.len() == 16,
    ensures
        u128_to_le(le_to_u128(b)) == b,
{
    let x = le_to_u128(b);
    let (b0, b1, b2, b3, b4, b5, b6, b7) = (b[0], b[1], b[2], b[3], b[4], b[5], b[6], b[7]);
    let (b8, b9, b10, b11, b12, b13, b14, b15) = (
        b[8],
        b[9],
        b[10],
        b[11],
        b[12],
        b[13],
        b[14],
        b[15],
    );
    assert({
        let x = (b0 as u128) | ((b1 as u128) << 8u128) | ((b2 as u128) << 16u128) | ((b3 as u128)
            << 24u128) | ((b4 as u128) << 32u128) | ((b5 as u128) << 40u128) | ((b6 as u128)
            << 48u128) | ((b7 as u128) << 56u128) | ((b8 as u128) << 64u128) | ((b9 as u128)
            << 72u128) | ((b10 as u128) << 80u128) | ((b11 as u128) << 88u128) | ((b12 as u128)
            << 96u128) | ((b13 as u128) << 104u128) | ((b14 as u128) << 112u128) | ((b15 as u128)
            << 120u128);
        &&& ((x >> 0u128) & 0xffu128) as u8 == b0
        &&& ((x >> 8u128) & 0xffu128) as u8 == b1
        &&& ((x >> 16u128) & 0xffu128) as u8 == b2
        &&& ((x >> 24u128) & 0xffu128) as u8 == b3
        &&& ((x >> 32u128) & 0xffu128) as u8 == b4
        &&& ((x >> 40u128) & 0xffu128) as u8 == b5
        &&& ((x >> 48u128) & 0xffu128) as u8 == b6
        &&& ((x >> 56u128) & 0xffu128) as u8 == b7
        &&& ((x >> 64u128) & 0xffu128) as u8 == b8
        &&& ((x >> 72u128) & 0xffu128) as u8 == b9
        &&& ((x >> 80u128) & 0xffu128) as u8 == b10
        &&& ((x >> 88u128) & 0xffu128) as u8 == b11
        &&& ((x >> 96u128) & 0xffu128) as u8 == b12
        &&& ((x >> 104u128) & 0xffu128) as u8 == b13
        &&& ((x >> 112u128) & 0xffu128) as u8 == b14
        &&& ((x >> 120u128) & 0xffu128) as u8 == b15
    }) by (bit_vector);
    assert(u128_to_le(x) =~= b);
}

/// Encoding turns XOR of values into bytewise XOR.
pub proof fn lemma_le_xor(x: u128, y: u128)
    ensures
        u128_to_le(x ^ y) == xor_bytes(u128_to_le(x), u128_to_le(y)),
{
    assert forall|j: int| 0 <= j < 16 implies le_byte(x ^ y, j) == le_byte(x, j) ^ le_byte(
        y,
        j,
    ) by {
        let s = (8 * j) as u128;
        assert((((x ^ y) >> s) & 0xffu128) as u8 == (((x >> s) & 0xffu128) as u8) ^ (((y >> s)
            & 0xffu128) as u8)) by (bit_vector);
    }
    assert(u128_to_le(x ^ y) =~= xor_bytes(u128_to_le(x), u128_to_le(y)));
}


/// The 48 bytes `le(a) ++ le(b) ++ le(c)`.
pub fn concat_le3(a: u128, b: u128, c: u128) -> (r: [u8; 48])
    ensures
        r@ == u128_to_le(a) + u128_to_le(b) + u128_to_le(c),
{
    let ab = u128_to_le_bytes(a);
    let bb = u128_to_le_bytes(b);
    let cb = u128_to_le_bytes(c);
    let mut r = [0u8; 48];
    let mut j: usize = 0;
    while j < 16
        invariant
            j <= 16,
            ab@ == u128_to_le(a),
            bb@ == u128_to_le(b),
            cb@ == u128_to_le(c),
            forall|k: int| 0 <= k < j ==> #[trigger] r@[k] == ab@[k],
            forall|k: int| 0 <= k < j ==> #[trigger] r@[16 + k] == bb@[k],
            forall|k: int| 0 <= k < j ==> #[trigger] r@[32 + k] == cb@[k],
        decreases 16 - j,
    {
        r[j] = ab[j];
        r[16 + j] = bb[j];
        r[32 + j] = cb[j];
        j += 1;
    }
    assert(r@ =~= u128_to_le(a) + u128_to_le(b) + u128_to_le(c)) by {
        assert forall|k: int| 0 <= k < 48 implies r@[k] == (u128_to_le(a) + u128_to_le(b)
            + u128_to_le(c))[k] by {
            if k >= 32 {
                assert(r@[32 + (k - 32)] == cb@[k - 32]);
            } else if k >= 16 {
                assert(r@[16 + (k - 16)] == bb@[k - 16]);
            }
        }
    }
    r
}

/// Bytewise XOR of `b` into `a`.
pub fn xor_block(a: &mut [u8; 16], b: &[u8; 16])
    ensures
        final(a)@ == xor_bytes(old(a)@, b@),
{
    let mut j: usize = 0;
    while j < 16
        invariant
            j <= 16,
            forall|k: int| 0 <= k < j ==> #[trigger] a@[k] == old(a)@[k] ^ b@[k],
            forall|k: int| j <= k < 16 ==> #[trigger] a@[k] == old(a)@[k],
        decreases 16 - j,
    {
        let v = a[j] ^ b[j];
        a[j] = v;
        j += 1;
    }
    assert(a@ =~= xor_bytes(old(a)@, b@));
}

} // verus!
