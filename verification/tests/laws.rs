use sa_psi::gf128::gf128mul;
use sa_psi::lpn_f2k::LpnF2k;
use sa_psi::okvs_f2k::RbOkvsF2k;
use sa_psi::okvs_utils::xor;
use sa_psi::psi::get_origin;
use sa_psi::psi_receiver::SAPSIReceiver;
use sa_psi::psi_sender::{path_hashes, SAPSISender};

fn bit(v: &[u8; 32], k: usize) -> bool {
    (v[k / 8] >> (k % 8)) & 1 == 1
}

#[test]
fn okvs_decoding_is_linear_in_the_encoding() {
    let okvs = RbOkvsF2k::new(40, &[5u8; 16], &[6u8; 16]);
    let e1: Vec<u128> = (0..okvs.columns as u128).map(|i| i.wrapping_mul(0x1234_5678_9abc_def1) ^ 77).collect();
    let e2: Vec<u128> = (0..okvs.columns as u128).map(|i| (i * 3 + 1) << 70).collect();
    let e3: Vec<u128> = e1.iter().zip(e2.iter()).map(|(a, b)| a ^ b).collect();
    let keys: Vec<u128> = (0..25u128).map(|k| k * 1_000_003 + 11).collect();
    let d1 = okvs.decode(&e1, &keys);
    let d2 = okvs.decode(&e2, &keys);
    let d3 = okvs.decode(&e3, &keys);
    for i in 0..keys.len() {
        assert_eq!(d3[i], d1[i] ^ d2[i]);
    }
    assert_eq!(okvs.decode(&vec![0u128; okvs.columns], &keys), vec![0u128; keys.len()]);
}

#[test]
fn lpn_encoding_is_linear_in_the_short_vector() {
    let (k, n) = (12usize, 6usize);
    let mut lpn = LpnF2k::new(k, n, &[8u8; 16], &[9u8; 16]);
    let kk1: Vec<u128> = (0..k as u128).map(|i| i * 0x1_0001 + 3).collect();
    let kk2: Vec<u128> = (0..k as u128).map(|i| gf128mul(i + 5, 0xdead_beef)).collect();
    let kk3: Vec<u128> = kk1.iter().zip(kk2.iter()).map(|(a, b)| a ^ b).collect();
    let b: Vec<u128> = (0..n as u128).map(|i| i << 100 | 9).collect();
    let (mut f1, mut f3, mut z2) = (b.clone(), b.clone(), vec![0u128; n]);
    lpn.compute_big_k(&mut f1, &kk1);
    lpn.compute_big_k(&mut f3, &kk3);
    lpn.compute_big_k(&mut z2, &kk2);
    for i in 0..n {
        assert_eq!(f3[i], f1[i] ^ z2[i]);
    }
    let mut unchanged = b.clone();
    lpn.compute_big_k(&mut unchanged, &vec![0u128; k]);
    assert_eq!(unchanged, b);
}

#[test]
fn band_xor_at_start_columns() {
    let mut a = [0u8; 32];
    let mut b = [0u8; 32];
    for i in 0..32 {
        a[i] = (i as u8).wrapping_mul(37) ^ 0x5a;
        b[i] = (i as u8).wrapping_mul(91) ^ 0xc3;
    }
    let same = xor(a, b, 7, 7);
    for i in 0..32 {
        assert_eq!(same[i], a[i] ^ b[i]);
    }
    for d in [1usize, 8, 13, 200, 255, 256, 300] {
        let r = xor(a, b, 10, 10 + d);
        for k in 0..256 {
            let want = k >= d && (bit(&b, k) != bit(&a, k - d));
            assert_eq!(bit(&r, k), want, "d = {}, k = {}", d, k);
        }
    }
    // A shift by one byte moves `a` up by a byte and clears the low byte.
    let r = xor(a, [0u8; 32], 0, 8);
    assert_eq!(r[0], 0);
    assert_eq!(&r[1..], &a[..31]);
}

#[test]
fn cell_origins_are_aligned_and_idempotent() {
    for p in [[0u128, 31], [32, 33], [1000, 1023], [u128::MAX, 12345]] {
        let o = get_origin(&p);
        for i in 0..2 {
            assert_eq!(o[i] % 32, 0);
            assert!(o[i] <= p[i] && p[i] - o[i] < 32);
        }
        assert_eq!(get_origin(&o), o);
    }
    assert_eq!(get_origin(&[1000, 1023]), [992, 992]);
}

#[test]
fn receiver_path_digests_meet_the_sender_search() {
    let table: Vec<Vec<[u8; 16]>> = (0..8u8)
        .map(|d| (0..2047u32).map(|n| {
            let mut b = [0u8; 16];
            b[0] = d ^ 0x80;
            b[2..6].copy_from_slice(&n.to_le_bytes());
            b
        }).collect())
        .collect();
    let v: [u128; 8] = [12, 900, 511, 64, 1, 1022, 333, 700];
    let receiver = SAPSIReceiver::new(1, 1);
    let hashes = receiver.path_point_hashes(2, &table, &v, 8);
    assert_eq!(hashes, path_hashes(&table, 2, &v, 8));
    let mut sender = SAPSISender::new(1, 1);
    let prefix: [u128; 8] = [v[0] >> 2, v[1] >> 2, v[2] >> 2, v[3] >> 2, v[4] >> 2, v[5] >> 2, v[6] >> 2, v[7] >> 2];
    sender.int_search(&table, 2, &prefix, &[8; 8], &hashes, 8);
    assert_eq!(sender.intersection(), vec![v]);
}

#[test]
fn search_results_extend_the_start_node() {
    let table: Vec<Vec<[u8; 16]>> = (0..8u8).map(|d| vec![[d; 16]; 2047]).collect();
    let points: [[u128; 8]; 2] = [[5, 6, 7, 8, 9, 10, 11, 12], [4, 6, 7, 8, 9, 10, 11, 13]];
    let mut hashes = Vec::new();
    for p in points.iter() {
        hashes.extend(path_hashes(&table, 0, p, 9));
    }
    let start: [u128; 8] = [2, 3, 3, 4, 4, 5, 5, 6];
    let mut sender = SAPSISender::new(2, 1);
    sender.int_search(&table, 0, &start, &[9; 8], &hashes, 9);
    let found = sender.intersection();
    assert_eq!(found.len(), 2);
    for f in found.iter() {
        for i in 0..8 {
            assert_eq!(f[i] >> 1, start[i]);
        }
        assert!(points.contains(f));
    }
}

#[test]
fn lpn_step_keeps_the_vole_correlation() {
    let (k, n) = (10usize, 7usize);
    let seed = [11u8; 16];
    let seed_field = [12u8; 16];
    let mut lpn_s = LpnF2k::new(k, n, &seed, &seed_field);
    let mut lpn_r = LpnF2k::new(k, n, &seed, &seed_field);
    let d: u128 = 0x0123_4567_89ab_cdef_fedc_ba98_7654_3210;
    let kks: Vec<u128> = (0..k as u128).map(|i| i.wrapping_mul(0x9e37_79b9) ^ 5).collect();
    let kkm: Vec<u128> = (0..k as u128).map(|i| (i + 1) << 90).collect();
    let kkr: Vec<u128> = (0..k).map(|j| kks[j] ^ gf128mul(d, kkm[j])).collect();
    let ks0: Vec<u128> = (0..n as u128).map(|i| i * 77 + 1).collect();
    let mr0: Vec<u128> = (0..n as u128).map(|i| i << 3 | 1).collect();
    let kr0: Vec<u128> = (0..n).map(|j| ks0[j] ^ gf128mul(d, mr0[j])).collect();
    let mut ks = ks0.clone();
    lpn_s.compute_send(&mut ks, &kks);
    let (mut kr, mut mr) = (kr0.clone(), mr0.clone());
    lpn_r.compute_recv(&mut kr, &mut mr, &kkr, &kkm);
    for i in 0..n {
        assert_eq!(kr[i], ks[i] ^ gf128mul(d, mr[i]));
    }
}

#[test]
fn lpn_matrix_without_rows_needs_no_columns() {
    let mut lpn = LpnF2k::new(0, 0, &[1u8; 16], &[2u8; 16]);
    let mut empty: Vec<u128> = Vec::new();
    lpn.compute_big_k(&mut empty, &[]);
    assert!(empty.is_empty());
}
