//! The byte layouts of the channel's messages: bit vectors (an 8-byte little-endian count,
//! then the bits packed eight to a byte, least significant first), runs of fixed-size byte
//! blocks, and runs of blocks of little-endian `u128` limbs.
use vstd::prelude::*;
use vstd::arithmetic::div_mod::lemma_fundamental_div_mod_converse;
use crate::bytes::{le_to_u128, u128_from_le_at, u128_to_le, u128_to_le_bytes, u64_to_le, u64_to_le_bytes};

verus! {

/// Byte `b` of a packed bit vector, built from its first `j` bits.
pub open spec fn pack_upto(bits: Seq<bool>, b: int, j: int) -> u8
    decreases j,
{
    if j <= 0 {
        0u8
    } else if 8 * b + j - 1 < bits.len() && bits[8 * b + j - 1] {
        pack_upto(bits, b, j - 1) | (1u8 << ((j - 1) as u8))
    } else {
        pack_upto(bits, b, j - 1)
    }
}

/// Whether bit `j` of `x` is set.
pub open spec fn bit_at(x: u8, j: int) -> bool {
    x & (1u8 << (j as u8)) != 0
}

/// The encoding of a bit vector.
pub open spec fn encoded_bits(bits: Seq<bool>) -> Seq<u8> {
    u64_to_le(bits.len() as u64) + Seq::new(((bits.len() + 7) / 8) as nat, |b: int| pack_upto(bits, b, 8))
}

/// The value of an 8-byte little-endian count.
pub open spec fn le_to_u64(b: Seq<u8>) -> u64 {
    (b[0] as u64) | ((b[1] as u64) << 8u64) | ((b[2] as u64) << 16u64) | ((b[3] as u64) << 24u64) | ((
    b[4] as u64) << 32u64) | ((b[5] as u64) << 40u64) | ((b[6] as u64) << 48u64) | ((b[7] as u64)
        << 56u64)
}

/// The bits a buffer decodes to: as many as its count says, or as its bytes hold.
pub open spec fn decoded_bits(buf: Seq<u8>) -> Seq<bool> {
    let count = le_to_u64(buf.subrange(0, 8)) as int;
    let held = 8 * (buf.len() - 8);
    Seq::new((if count <= held { count } else { held }) as nat, |i: int| bit_at(buf[8 + i / 8], i % 8))
}

proof fn lemma_or_bit(x: u8, k: u8, j: u8)
    requires
        k < 8,
        j < 8,
    ensures
        ((x | (1u8 << k)) & (1u8 << j) != 0) == ((x & (1u8 << j) != 0) || j == k),
{
    assert(((x | (1u8 << k)) & (1u8 << j) != 0) == ((x & (1u8 << j) != 0) || j == k)) by (bit_vector)
        requires
            k < 8,
            j < 8,
    ;
}

/// Bit `j` of a packed byte is bit `8b + j` of the vector.
proof fn lemma_pack_bits(bits: Seq<bool>, b: int, m: int, j: int)
    requires
        0 <= b,
        0 <= m <= 8,
        0 <= j < 8,
    ensures
        bit_at(pack_upto(bits, b, m), j) == (j < m && 8 * b + j < bits.len() && bits[8 * b + j]),
    decreases m,
{
    if m == 0 {
        assert(0u8 & (1u8 << (j as u8)) == 0) by (bit_vector);
    } else {
        lemma_pack_bits(bits, b, m - 1, j);
        if 8 * b + m - 1 < bits.len() && bits[8 * b + m - 1] {
            lemma_or_bit(pack_upto(bits, b, m - 1), (m - 1) as u8, j as u8);
        }
    }
}

/// The count survives the 8-byte encoding.
proof fn lemma_u64_roundtrip(x: u64)
    ensures
        le_to_u64(u64_to_le(x)) == x,
{
    let b = u64_to_le(x);
    assert(x == (((x >> 0u64) & 0xffu64) as u8 as u64) | ((((x >> 8u64) & 0xffu64) as u8 as u64)
        << 8u64) | ((((x >> 16u64) & 0xffu64) as u8 as u64) << 16u64) | ((((x >> 24u64) & 0xffu64)
        as u8 as u64) << 24u64) | ((((x >> 32u64) & 0xffu64) as u8 as u64) << 32u64) | ((((x
        >> 40u64) & 0xffu64) as u8 as u64) << 40u64) | ((((x >> 48u64) & 0xffu64) as u8 as u64)
        << 48u64) | ((((x >> 56u64) & 0xffu64) as u8 as u64) << 56u64)) by (bit_vector);
    assert(8 * 0int == 0int);
}

/// A bit vector decodes from its encoding.
pub proof fn lemma_bits_roundtrip(bits: Seq<bool>)
    requires
        bits.len() <= u64::MAX,
    ensures
        decoded_bits(encoded_bits(bits)) == bits,
{
    let e = encoded_bits(bits);
    let n = bits.len() as int;
    lemma_u64_roundtrip(n as u64);
    assert(e.subrange(0, 8) =~= u64_to_le(n as u64));
    let d = decoded_bits(e);
    assert(d.len() == n);
    assert forall|i: int| 0 <= i < n implies #[trigger] d[i] == bits[i] by {
        let b = i / 8;
        let j = i % 8;
        assert(e[8 + b] == pack_upto(bits, b, 8));
        lemma_pack_bits(bits, b, 8, j);
    }
    assert(d =~= bits);
}

/// The encoding of a bit vector: its count, then its bits packed eight to a byte.
pub fn encode_bits(bits: &[bool]) -> (buf: Vec<u8>)
    requires
        bits@.len() <= u64::MAX,
    ensures
        buf@ == encoded_bits(bits@),
{
    let n = bits.len();
    let mut buf: Vec<u8> = Vec::new();
    let header = u64_to_le_bytes(n as u64);
    let mut k: usize = 0;
    while k < 8
        invariant
            k <= 8,
            header@ == u64_to_le(n as u64),
            buf@ == header@.subrange(0, k as int),
        decreases 8 - k,
    {
        buf.push(header[k]);
        k += 1;
    }
    let mut current_byte: u8 = 0;
    let mut i: usize = 0;
    while i < n
        invariant
            n == bits@.len(),
            n <= u64::MAX,
            i <= n,
            buf@.subrange(0, 8) == u64_to_le(n as u64),
            i < n ==> buf@.len() == 8 + i / 8,
            i < n ==> current_byte == pack_upto(bits@, (i / 8) as int, (i % 8) as int),
            i == n ==> buf@.len() == 8 + (n + 7) / 8,
            i == n && n % 8 != 0 ==> buf@[8 + n / 8] == pack_upto(bits@, (n / 8) as int, (n % 8) as int),
            forall|b: int| 0 <= b < i / 8 ==> #[trigger] buf@[8 + b] == pack_upto(bits@, b, 8),
            n == 0 ==> buf@.len() == 8,
        decreases n - i,
    {
        let ghost b = (i / 8) as int;
        let ghost j = (i % 8) as int;
        if bits[i] {
            current_byte = current_byte | (1u8 << ((i % 8) as u8));
        }
        proof {
            assert(8 * b + (j + 1) - 1 == i);
            assert(current_byte == pack_upto(bits@, b, j + 1));
        }
        if i % 8 == 7 || i == n - 1 {
            let ghost before = buf@;
            buf.push(current_byte);
            current_byte = 0;
            proof {
                assert forall|c: int| 0 <= c < 8 implies buf@.subrange(0, 8)[c] == before.subrange(0, 8)[c] by {}
                assert(buf@.subrange(0, 8) =~= before.subrange(0, 8));
                assert(forall|c: int| 0 <= c < b ==> #[trigger] buf@[8 + c] == before[8 + c]);
            }
        }
        proof {
            let i1 = i + 1;
            if j == 7 {
                assert(i1 / 8 == b + 1 && i1 % 8 == 0);
            } else {
                assert(i1 / 8 == b && i1 % 8 == j + 1);
            }
            if i1 == n && j != 7 {
                assert((n + 7) / 8 == b + 1);
            }
            if i1 == n && j == 7 {
                assert((n + 7) / 8 == b + 1);
            }
        }
        i += 1;
    }
    proof {
        assert forall|b: int| 0 <= b < (n + 7) / 8 implies #[trigger] buf@[8 + b] == pack_upto(bits@, b, 8) by {
            if n % 8 != 0 && b == n / 8 {
                lemma_pack_tail(bits@, b, (n % 8) as int, 8);
            }
        }
        assert(buf@ =~= encoded_bits(bits@)) by {
            assert forall|k: int| 0 <= k < 8 implies buf@[k] == encoded_bits(bits@)[k] by {
                assert(buf@.subrange(0, 8)[k] == buf@[k]);
            }
            assert forall|k: int| 8 <= k < buf@.len() implies buf@[k] == encoded_bits(bits@)[k] by {
                assert(buf@[8 + (k - 8)] == pack_upto(bits@, k - 8, 8));
            }
        }
    }
    buf
}

/// Past the end of the vector a packed byte gets no more bits.
proof fn lemma_pack_tail(bits: Seq<bool>, b: int, from: int, m: int)
    requires
        0 <= from <= m,
        8 * b + from >= bits.len(),
    ensures
        pack_upto(bits, b, m) == pack_upto(bits, b, from),
    decreases m - from,
{
    if m > from {
        lemma_pack_tail(bits, b, from, m - 1);
    }
}

/// The count of an encoded bit vector.
fn u64_from_le_at0(b: &[u8]) -> (r: u64)
    requires
        b@.len() >= 8,
    ensures
        r == le_to_u64(b@.subrange(0, 8)),
{
    let ghost s = b@.subrange(0, 8);
    assert(forall|j: int| 0 <= j < 8 ==> s[j] == b@[j]);
    (b[0] as u64) | ((b[1] as u64) << 8u32) | ((b[2] as u64) << 16u32) | ((b[3] as u64) << 24u32) | ((
    b[4] as u64) << 32u32) | ((b[5] as u64) << 40u32) | ((b[6] as u64) << 48u32) | ((b[7] as u64)
        << 56u32)
}

/// The bits of an encoded bit vector: as many as its count says, as far as its bytes go.
pub fn decode_bits(buf: &[u8]) -> (bits: Vec<bool>)
    requires
        buf@.len() >= 8,
        buf@.len() <= usize::MAX / 8,
    ensures
        bits@ == decoded_bits(buf@),
{
    let num_bits = u64_from_le_at0(buf);
    let held = buf.len() - 8;
    let mut bits: Vec<bool> = Vec::new();
    let mut i: usize = 0;
    while i < held
        invariant
            buf@.len() >= 8,
            buf@.len() <= usize::MAX / 8,
            held == buf@.len() - 8,
            num_bits == le_to_u64(buf@.subrange(0, 8)),
            i <= held,
            bits@.len() == (if num_bits as int <= 8 * i { num_bits as int } else { 8 * i }),
            forall|k: int| 0 <= k < bits@.len() ==> #[trigger] bits@[k] == bit_at(buf@[8 + k / 8], k % 8),
        decreases held - i,
    {
        let byte = buf[8 + i];
        let mut j: usize = 0;
        while j < 8 && ((i * 8 + j) as u64) < num_bits
            invariant
                buf@.len() <= usize::MAX / 8,
                i < held,
                held == buf@.len() - 8,
                byte == buf@[8 + i],
                j <= 8,
                bits@.len() == (if num_bits as int <= 8 * i + j { num_bits as int } else { 8 * i + j }),
                forall|k: int| 0 <= k < bits@.len() ==> #[trigger] bits@[k] == bit_at(buf@[8 + k / 8], k % 8),
            decreases 8 - j,
        {
            proof {
                let k = 8 * i + j;
                assert(k / 8 == i && k % 8 == j);
            }
            bits.push((byte & (1u8 << (j as u8))) != 0);
            j += 1;
        }
        i += 1;
    }
    proof {
        assert(bits@ =~= decoded_bits(buf@));
    }
    bits
}

/// The bytes of a run of blocks, one after another.
pub open spec fn flat_blocks<const N: usize>(data: Seq<[u8; N]>) -> Seq<u8> {
    Seq::new((data.len() * N) as nat, |k: int| data[k / (N as int)]@[k % (N as int)])
}

/// The whole blocks of `N` bytes a buffer holds.
pub open spec fn unflat_blocks<const N: usize>(buf: Seq<u8>) -> Seq<Seq<u8>> {
    Seq::new(buf.len() / (N as nat), |i: int| buf.subrange(i * N, i * N + N))
}

/// The blocks, one after another.
pub fn encode_blocks<const N: usize>(data: &[[u8; N]]) -> (buf: Vec<u8>)
    requires
        data@.len() * N <= usize::MAX,
    ensures
        buf@ == flat_blocks(data@),
{
    let mut buf: Vec<u8> = Vec::new();
    let mut i: usize = 0;
    while i < data.len()
        invariant
            i <= data@.len(),
            data@.len() * N <= usize::MAX,
            buf@.len() == i * N,
            forall|k: int| 0 <= k < i * N ==> #[trigger] buf@[k] == data@[k / (N as int)]@[k % (N as int)],
        decreases data@.len() - i,
    {
        let block = data[i];
        let mut j: usize = 0;
        while j < N
            invariant
                i < data@.len(),
                block == data@[i as int],
                j <= N,
                buf@.len() == i * N + j,
                forall|k: int| 0 <= k < i * N + j ==> #[trigger] buf@[k] == data@[k / (N as int)]@[k % (N as int)],
            decreases N - j,
        {
            proof {
                lemma_fundamental_div_mod_converse((i * N + j) as int, N as int, i as int, j as int);
            }
            buf.push(block[j]);
            j += 1;
        }
        proof {
            assert((i + 1) * N == i * N + N) by (nonlinear_arith);
        }
        i += 1;
    }
    assert(buf@ =~= flat_blocks(data@));
    buf
}

/// A run of blocks decodes from its bytes.
pub proof fn lemma_blocks_roundtrip<const N: usize>(data: Seq<[u8; N]>)
    requires
        N > 0,
    ensures
        unflat_blocks::<N>(flat_blocks(data)) == data.map_values(|b: [u8; N]| b@),
{
    let f = flat_blocks(data);
    let n = data.len();
    vstd::arithmetic::div_mod::lemma_div_multiples_vanish(n as int, N as int);
    assert((n * N) as int == (N as int) * (n as int)) by (nonlinear_arith);
    let u = unflat_blocks::<N>(f);
    assert(u.len() == n);
    assert forall|i: int| 0 <= i < n implies #[trigger] u[i] == data[i]@ by {
        assert(i * N + N <= n * N) by (nonlinear_arith)
            requires
                0 <= i < n,
        ;
        assert(u[i] == f.subrange(i * N, i * N + N));
        assert forall|t: int| 0 <= t < N implies #[trigger] u[i][t] == data[i]@[t] by {
            lemma_fundamental_div_mod_converse(i * N + t, N as int, i, t);
            assert(f.subrange(i * N, i * N + N)[t] == f[i * N + t]);
            assert(f[i * N + t] == data[(i * N + t) / (N as int)]@[(i * N + t) % (N as int)]);
        }
        assert(u[i] =~= data[i]@);
    }
    assert(u =~= data.map_values(|b: [u8; N]| b@));
}

/// The whole blocks of `N` bytes in a buffer.
pub fn decode_blocks<const N: usize>(buf: &[u8]) -> (data: Vec<[u8; N]>)
    requires
        N > 0,
    ensures
        data@.map_values(|b: [u8; N]| b@) == unflat_blocks::<N>(buf@),
{
    let num_blocks = buf.len() / N;
    let bl = buf.len();
    let mut data: Vec<[u8; N]> = Vec::new();
    let mut i: usize = 0;
    while i < num_blocks
        invariant
            N > 0,
            bl == buf@.len(),
            num_blocks == buf@.len() / (N as nat),
            i <= num_blocks,
            data@.len() == i,
            forall|a: int| 0 <= a < i ==> #[trigger] data@[a]@ == buf@.subrange(a * N, a * N + N),
        decreases num_blocks - i,
    {
        proof {
            assert(i * N + N <= buf@.len()) by (nonlinear_arith)
                requires
                    i < num_blocks,
                    num_blocks == buf@.len() / (N as nat),
                    N > 0,
            {
                vstd::arithmetic::div_mod::lemma_fundamental_div_mod(buf@.len() as int, N as int);
            }
        }
        let mut block = [0u8; N];
        let mut j: usize = 0;
        while j < N
            invariant
                bl == buf@.len(),
                i * N + N <= buf@.len(),
                j <= N,
                forall|t: int| 0 <= t < j ==> #[trigger] block@[t] == buf@[i * N + t],
            decreases N - j,
        {
            block[j] = buf[i * N + j];
            j += 1;
        }
        assert(block@ =~= buf@.subrange(i * N, i * N + N));
        data.push(block);
        i += 1;
    }
    assert(data@.map_values(|b: [u8; N]| b@) =~= unflat_blocks::<N>(buf@));
    data
}


/// The 16 bytes of limb `j` of block `i` in a run of blocks of `N` limbs.
pub open spec fn limb_bytes<const N: usize>(buf: Seq<u8>, i: int, j: int) -> Seq<u8> {
    buf.subrange((i * N + j) * 16, (i * N + j) * 16 + 16)
}

/// Byte `t` of limb `j` of block `i` in a run of blocks of `N` limbs.
pub open spec fn limb_byte<const N: usize>(buf: Seq<u8>, i: int, j: int, t: int) -> u8 {
    buf[(i * N + j) * 16 + t]
}

/// The blocks of `N` little-endian limbs that a buffer holds whole.
pub open spec fn unflat_limbs<const N: usize>(buf: Seq<u8>) -> Seq<Seq<u128>> {
    Seq::new(
        buf.len() / (16 * N) as nat,
        |i: int| Seq::new(N as nat, |j: int| le_to_u128(limb_bytes::<N>(buf, i, j))),
    )
}

/// Where limb `j` of block `i` starts, for `i` in a run of `n` blocks.
proof fn lemma_limb_offset<const N: usize>(n: int, i: int, j: int)
    requires
        0 <= i < n,
        0 <= j < N,
    ensures
        0 <= i * N + j,
        i * N + j + 1 <= n * N,
        (i * N + j) * 16 + 16 <= n * N * 16,
{
    assert(i * N + j + 1 <= n * N) by (nonlinear_arith)
        requires
            0 <= i < n,
            0 <= j < N,
    ;
    assert(0 <= i * N + j) by (nonlinear_arith)
        requires
            0 <= i,
            0 <= j,
    ;
    assert((i * N + j) * 16 + 16 <= n * N * 16) by (nonlinear_arith)
        requires
            i * N + j + 1 <= n * N,
    ;
}

/// Every limb of every block, little-endian, one block after another.
pub fn encode_limbs<const N: usize>(data: &[[u128; N]]) -> (buf: Vec<u8>)
    requires
        data@.len() * N * 16 <= usize::MAX,
    ensures
        buf@.len() == data@.len() * N * 16,
        forall|i: int, j: int|
            0 <= i < data@.len() && 0 <= j < N ==> #[trigger] limb_bytes::<N>(buf@, i, j) == u128_to_le(
                data@[i][j],
            ),
{
    let mut buf: Vec<u8> = Vec::new();
    let n = data.len();
    let mut i: usize = 0;
    while i < n
        invariant
            n == data@.len(),
            n * N * 16 <= usize::MAX,
            i <= n,
            buf@.len() == i * N * 16,
            forall|i2: int, j2: int, t: int|
                0 <= i2 < i && 0 <= j2 < N && 0 <= t < 16 ==> #[trigger] limb_byte::<N>(buf@, i2, j2, t)
                    == u128_to_le(data@[i2][j2])[t],
        decreases n - i,
    {
        let block = data[i];
        let mut j: usize = 0;
        while j < N
            invariant
                n == data@.len(),
                n * N * 16 <= usize::MAX,
                i < n,
                block == data@[i as int],
                j <= N,
                buf@.len() == (i * N + j) * 16,
                forall|i2: int, j2: int, t: int|
                    0 <= i2 < i && 0 <= j2 < N && 0 <= t < 16 ==> #[trigger] limb_byte::<N>(buf@, i2, j2, t)
                        == u128_to_le(data@[i2][j2])[t],
                forall|j2: int, t: int|
                    0 <= j2 < j && 0 <= t < 16 ==> #[trigger] limb_byte::<N>(buf@, i as int, j2, t)
                        == u128_to_le(data@[i as int][j2])[t],
            decreases N - j,
        {
            proof {
                lemma_limb_offset::<N>(n as int, i as int, j as int);
            }
            let bytes = u128_to_le_bytes(block[j]);
            let ghost before = buf@;
            let mut t: usize = 0;
            while t < 16
                invariant
                    buf@.len() == (i * N + j) * 16 + t,
                    (i * N + j) * 16 + 16 <= usize::MAX,
                    t <= 16,
                    buf@.subrange(0, (i * N + j) * 16) == before.subrange(0, (i * N + j) * 16),
                    before.len() == (i * N + j) * 16,
                    forall|t2: int| 0 <= t2 < t ==> #[trigger] buf@[(i * N + j) * 16 + t2] == bytes@[t2],
                decreases 16 - t,
            {
                buf.push(bytes[t]);
                assert(buf@.subrange(0, (i * N + j) * 16) =~= before.subrange(0, (i * N + j) * 16));
                t += 1;
            }
            assert forall|i2: int, j2: int, t2: int|
                0 <= i2 < i && 0 <= j2 < N && 0 <= t2 < 16 implies #[trigger] limb_byte::<N>(buf@, i2, j2, t2)
                    == u128_to_le(data@[i2][j2])[t2] by {
                lemma_limb_offset::<N>(i as int, i2, j2);
                assert(i2 * N + j2 + 1 <= i * N + j) by (nonlinear_arith)
                    requires
                        i2 * N + j2 + 1 <= i * N,
                        0 <= j,
                ;
                assert(buf@[(i2 * N + j2) * 16 + t2] == before[(i2 * N + j2) * 16 + t2]) by {
                    assert(buf@.subrange(0, (i * N + j) * 16)[(i2 * N + j2) * 16 + t2] == before.subrange(
                        0,
                        (i * N + j) * 16,
                    )[(i2 * N + j2) * 16 + t2]);
                }
                assert(limb_byte::<N>(before, i2, j2, t2) == u128_to_le(data@[i2][j2])[t2]);
            }
            assert forall|j2: int, t2: int|
                0 <= j2 < j + 1 && 0 <= t2 < 16 implies #[trigger] limb_byte::<N>(buf@, i as int, j2, t2)
                    == u128_to_le(data@[i as int][j2])[t2] by {
                if j2 < j {
                    assert(buf@[(i * N + j2) * 16 + t2] == before[(i * N + j2) * 16 + t2]) by {
                        assert(buf@.subrange(0, (i * N + j) * 16)[(i * N + j2) * 16 + t2] == before.subrange(
                            0,
                            (i * N + j) * 16,
                        )[(i * N + j2) * 16 + t2]);
                    }
                    assert(limb_byte::<N>(before, i as int, j2, t2) == u128_to_le(data@[i as int][j2])[t2]);
                } else {
                    assert(buf@[(i * N + j) * 16 + t2] == bytes@[t2]);
                }
            }
            j += 1;
        }
        proof {
            assert((i * N + N) * 16 == (i + 1) * N * 16) by (nonlinear_arith);
        }
        i += 1;
    }
    proof {
        assert forall|i: int, j: int| 0 <= i < data@.len() && 0 <= j < N implies #[trigger] limb_bytes::<N>(
            buf@,
            i,
            j,
        ) == u128_to_le(data@[i][j]) by {
            lemma_limb_offset::<N>(n as int, i, j);
            assert forall|t: int| 0 <= t < 16 implies #[trigger] limb_bytes::<N>(buf@, i, j)[t] == u128_to_le(
                data@[i][j],
            )[t] by {
                assert(limb_byte::<N>(buf@, i, j, t) == u128_to_le(data@[i][j])[t]);
            }
            assert(limb_bytes::<N>(buf@, i, j) =~= u128_to_le(data@[i][j]));
        }
    }
    buf
}

/// The blocks of `N` little-endian limbs that a buffer holds whole; trailing bytes are
/// ignored.
pub fn decode_limbs<const N: usize>(buf: &[u8]) -> (data: Vec<[u128; N]>)
    requires
        N > 0,
        16 * N <= usize::MAX,
    ensures
        data@.map_values(|b: [u128; N]| b@) == unflat_limbs::<N>(buf@),
{
    let width = 16 * N;
    let num_blocks = buf.len() / width;
    let bl = buf.len();
    let mut data: Vec<[u128; N]> = Vec::new();
    let mut i: usize = 0;
    while i < num_blocks
        invariant
            N > 0,
            width == 16 * N,
            bl == buf@.len(),
            num_blocks == buf@.len() / (16 * N) as nat,
            i <= num_blocks,
            data@.len() == i,
            forall|a: int| 0 <= a < i ==> #[trigger] data@[a]@ == unflat_limbs::<N>(buf@)[a],
        decreases num_blocks - i,
    {
        proof {
            assert((i + 1) * (16 * N) <= buf@.len()) by (nonlinear_arith)
                requires
                    i < num_blocks,
                    num_blocks == buf@.len() / (16 * N) as nat,
                    N > 0,
            {
                vstd::arithmetic::div_mod::lemma_fundamental_div_mod(buf@.len() as int, (16 * N) as int);
            }
        }
        let mut block = [0u128; N];
        let mut j: usize = 0;
        while j < N
            invariant
                N > 0,
                bl == buf@.len(),
                (i + 1) * (16 * N) <= buf@.len(),
                j <= N,
                forall|t: int| 0 <= t < j ==> #[trigger] block@[t] == le_to_u128(limb_bytes::<N>(buf@, i as int, t)),
            decreases N - j,
        {
            proof {
                assert((i * N + j) * 16 + 16 <= (i + 1) * (16 * N)) by (nonlinear_arith)
                    requires
                        j < N,
                ;
            }
            block[j] = u128_from_le_at(buf, (i * N + j) * 16);
            j += 1;
        }
        assert(block@ =~= unflat_limbs::<N>(buf@)[i as int]);
        data.push(block);
        i += 1;
    }
    assert(data@.map_values(|b: [u128; N]| b@) =~= unflat_limbs::<N>(buf@));
    data
}

/// A run of blocks of limbs decodes from its bytes.
pub proof fn lemma_limbs_roundtrip<const N: usize>(data: Seq<[u128; N]>, buf: Seq<u8>)
    requires
        N > 0,
        buf.len() == data.len() * N * 16,
        forall|i: int, j: int|
            0 <= i < data.len() && 0 <= j < N ==> #[trigger] limb_bytes::<N>(buf, i, j) == u128_to_le(data[i][j]),
    ensures
        unflat_limbs::<N>(buf) == data.map_values(|b: [u128; N]| b@),
{
    let n = data.len() as int;
    assert(buf.len() == (16 * N) * n) by (nonlinear_arith)
        requires
            buf.len() == n * N * 16,
    ;
    vstd::arithmetic::div_mod::lemma_div_multiples_vanish(n, (16 * N) as int);
    let u = unflat_limbs::<N>(buf);
    assert(u.len() == n);
    assert forall|i: int| 0 <= i < n implies #[trigger] u[i] == data[i]@ by {
        assert forall|j: int| 0 <= j < N implies #[trigger] u[i][j] == data[i]@[j] by {
            crate::bytes::lemma_le_roundtrip_value(data[i][j]);
        }
        assert(u[i] =~= data[i]@);
    }
    assert(u =~= data.map_values(|b: [u128; N]| b@));
}

} // verus!
