use aes::cipher::generic_array::GenericArray;
use aes::cipher::{BlockEncrypt, KeyInit};
use aes::Aes128;
use sa_psi::bytes::{u128_from_le, u128_to_le_bytes, xor_block};
use sa_psi::gf128::{gf128mul, uni_hash_coeff_gen_f2k, vector_inner_product_f2k};
use sa_psi::hashing::hash_to_seed;
use sa_psi::two_key_prp::expand;
use sa_psi::wire::{decode_blocks, decode_bits, decode_limbs, encode_bits, encode_blocks, encode_limbs};

#[test]
fn gf128mul_identity_and_zero() {
    let x: u128 = 0x0123_4567_89ab_cdef_fedc_ba98_7654_3210;
    assert_eq!(gf128mul(x, 1), x);
    assert_eq!(gf128mul(1, x), x);
    assert_eq!(gf128mul(x, 0), 0);
    assert_eq!(gf128mul(0, x), 0);
}

#[test]
fn gf128mul_small_values() {
    assert_eq!(gf128mul(2, 2), 4);
    assert_eq!(gf128mul(3, 3), 5);
    // X^127 * X = X^128 = X^7 + X^2 + X + 1.
    assert_eq!(gf128mul(1u128 << 127, 2), 0x87);
}

#[test]
fn gf128mul_distributes_over_xor() {
    let x: u128 = 0xdead_beef_0000_1111_2222_3333_4444_5555;
    let a: u128 = 0x1357_9bdf_0246_8ace_1111_2222_3333_4444;
    let b: u128 = 0xffff_0000_ffff_0000_1234_5678_9abc_def0;
    assert_eq!(gf128mul(x, a ^ b), gf128mul(x, a) ^ gf128mul(x, b));
    assert_eq!(gf128mul(a ^ b, x), gf128mul(a, x) ^ gf128mul(b, x));
}

#[test]
fn uni_hash_coefficients_are_powers() {
    let seed: u128 = 0x9;
    let mut coeff = vec![7u128; 5];
    uni_hash_coeff_gen_f2k(&mut coeff, seed, 3);
    assert_eq!(coeff[0], seed);
    assert_eq!(coeff[1], gf128mul(seed, seed));
    assert_eq!(coeff[2], gf128mul(gf128mul(seed, seed), seed));
    assert_eq!(coeff[3], 7);
    assert_eq!(coeff[4], 7);
}

#[test]
fn inner_product_over_common_prefix() {
    let a = [1u128, 2, 3];
    let b = [5u128, 6];
    assert_eq!(vector_inner_product_f2k(&a, &b), gf128mul(1, 5) ^ gf128mul(2, 6));
}

#[test]
fn le_bytes_roundtrip_and_xor() {
    let x: u128 = 0x0102_0304_0506_0708_090a_0b0c_0d0e_0f10;
    let bytes = u128_to_le_bytes(x);
    assert_eq!(bytes, x.to_le_bytes());
    assert_eq!(u128_from_le(&bytes), x);
    let mut a = [0xffu8; 16];
    xor_block(&mut a, &bytes);
    for j in 0..16 {
        assert_eq!(a[j], 0xff ^ bytes[j]);
    }
}

#[test]
fn hash_to_seed_is_the_digest_prefix() {
    let v: u128 = 42;
    let digest = blake3::hash(&v.to_le_bytes());
    let mut first = [0u8; 16];
    first.copy_from_slice(&digest.as_bytes()[0..16]);
    assert_eq!(hash_to_seed(v), u128::from_le_bytes(first));
    assert_ne!(hash_to_seed(v), v);
}

#[test]
fn expand_is_davies_meyer_aes() {
    let parents = [0u128, 1, 0xabcdef];
    let left = expand(false, &parents);
    let right = expand(true, &parents);
    let k0 = Aes128::new(&GenericArray::from([0u8; 16]));
    let k1 = Aes128::new(&GenericArray::from([1u8; 16]));
    for (i, p) in parents.iter().enumerate() {
        let mut b0 = GenericArray::from(p.to_le_bytes());
        k0.encrypt_block(&mut b0);
        let mut b1 = GenericArray::from(p.to_le_bytes());
        k1.encrypt_block(&mut b1);
        let e0 = u128::from_le_bytes(b0.into());
        let e1 = u128::from_le_bytes(b1.into());
        assert_eq!(left[i], e0 ^ p);
        assert_eq!(right[i], e1 ^ p);
        assert_ne!(left[i], *p);
    }
}

#[test]
fn bits_encoding_layout() {
    let buf = encode_bits(&[true, false, true]);
    assert_eq!(buf, vec![3, 0, 0, 0, 0, 0, 0, 0, 0b101]);
    let buf = encode_bits(&[true; 9]);
    assert_eq!(buf, vec![9, 0, 0, 0, 0, 0, 0, 0, 0xff, 0x01]);
    let buf = encode_bits(&[]);
    assert_eq!(buf, vec![0u8; 8]);
}

#[test]
fn bits_roundtrip() {
    let bits: Vec<bool> = (0..37).map(|i| (i * 7) % 3 == 0).collect();
    let buf = encode_bits(&bits);
    assert_eq!(decode_bits(&buf), bits);
}

#[test]
fn bits_decode_stops_at_the_bytes_held() {
    // The count says 20 bits, but only one byte follows.
    let buf = vec![20, 0, 0, 0, 0, 0, 0, 0, 0b0000_0011];
    let bits = decode_bits(&buf);
    assert_eq!(bits, vec![true, true, false, false, false, false, false, false]);
}

#[test]
fn blocks_roundtrip() {
    let data = vec![[1u8; 16], [2u8; 16], [3u8; 16]];
    let buf = encode_blocks::<16>(&data);
    assert_eq!(buf.len(), 48);
    assert_eq!(buf[16], 2);
    assert_eq!(decode_blocks::<16>(&buf), data);
    // A trailing partial block is dropped.
    let mut longer = buf.clone();
    longer.push(9);
    assert_eq!(decode_blocks::<16>(&longer), data);
}

#[test]
fn limb_blocks_are_little_endian_and_round_trip() {
    let data: Vec<[u128; 2]> = vec![[1, 0x0102_0304_0506_0708_090a_0b0c_0d0e_0f10], [u128::MAX, 0]];
    let buf = encode_limbs(&data);
    assert_eq!(buf.len(), 64);
    assert_eq!(&buf[0..16], &1u128.to_le_bytes());
    assert_eq!(buf[16], 0x10);
    assert_eq!(buf[31], 0x01);
    assert_eq!(decode_limbs::<2>(&buf), data);
    let mut longer = buf.clone();
    longer.extend_from_slice(&[9u8; 31]);
    assert_eq!(decode_limbs::<2>(&longer), data);
    assert!(decode_limbs::<1>(&[0u8; 15]).is_empty());
}

#[test]
fn gf128mul_commutes_and_associates() {
    let xs = [0u128, 1, 2, 0x87, u128::MAX, 0x8000_0000_0000_0000_0000_0000_0000_0000, 0x0123_4567_89ab_cdef_fedc_ba98_7654_3210];
    for &x in &xs {
        for &y in &xs {
            assert_eq!(gf128mul(x, y), gf128mul(y, x));
            for &z in &xs {
                assert_eq!(gf128mul(x, gf128mul(y, z)), gf128mul(gf128mul(x, y), z));
            }
        }
    }
    // X^127 * X = X^128 = X^7 + X^2 + X + 1.
    assert_eq!(gf128mul(1u128 << 127, 2), 0x87);
}
