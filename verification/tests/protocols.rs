use aes::cipher::generic_array::GenericArray;
use aes::cipher::{BlockEncrypt, KeyInit};
use aes::Aes128;
use sa_psi::base_svole_f2k::BaseSvoleF2k;
use sa_psi::cope_f2k::CopeF2k;
use sa_psi::gf128::{gf128mul, uni_hash_coeff_gen_f2k, vector_inner_product_f2k};
use sa_psi::hashing::hash_to_seed;
use sa_psi::idcf_receiver::IDCFReceiver;
use sa_psi::idcf_sender::IDCFSender;
use sa_psi::lpn_f2k::LpnF2k;
use sa_psi::mpfss_reg_f2k::MpfssRegF2k;
use sa_psi::pre_ot::OTPre;
use sa_psi::spfss_receiver_f2k::SpfssRecverF2k;
use sa_psi::spfss_sender_f2k::SpfssSenderF2k;

fn block(seed: u64, i: u64) -> [u8; 16] {
    let v = (seed as u128).wrapping_mul(0x9e37_79b9_7f4a_7c15_f39c_c060_5ced_c835) ^ ((i as u128) << 17) ^ (i as u128);
    v.to_le_bytes()
}

fn xor16(a: &[u8; 16], b: &[u8; 16]) -> [u8; 16] {
    let mut r = [0u8; 16];
    for i in 0..16 {
        r[i] = a[i] ^ b[i];
    }
    r
}

/// A sender and a receiver of `length * times` correlated transfers, with the identity as
/// the hash of the keys; the receiver's random bits are `c`.
fn ot_pair<const L: usize>(length: usize, times: usize, c: &[bool]) -> (OTPre<L>, OTPre<L>) {
    let n = length * times;
    let data: Vec<[u8; 16]> = (0..n as u64).map(|i| block(7, i)).collect();
    let delta = block(99, 1);
    let recv_data: Vec<[u8; 16]> =
        (0..n).map(|i| if c[i] { xor16(&data[i], &delta) } else { data[i] }).collect();
    let mut s = OTPre::<L>::new(length, times);
    let inputs = s.send_pre(&data, delta);
    s.store_hashed(&inputs, 2 * n);
    let mut r = OTPre::<L>::new(length, times);
    let inputs_r = r.recv_pre(&recv_data, Some(c));
    r.store_hashed(&inputs_r, n);
    (s, r)
}

#[test]
fn ot_transfers_the_chosen_message() {
    let c = [true, false, false, true];
    let choices = [false, false, true, true];
    let (mut s, mut r) = ot_pair::<2>(4, 1, &c);
    let announced = r.choices_recver(&choices);
    assert_eq!(announced, vec![true, false, true, false]);
    s.choices_sender(&announced);
    let m0: Vec<[u128; 2]> = (0..4u128).map(|i| [i, 100 + i]).collect();
    let m1: Vec<[u128; 2]> = (0..4u128).map(|i| [1000 + i, 2000 + i]).collect();
    let pad = s.send(&m0, &m1, 4, 0);
    assert_eq!(pad.len(), 8);
    let mut out = vec![[0u128; 2]; 4];
    r.recv(&mut out, &pad, &choices, 4, 0);
    for i in 0..4 {
        assert_eq!(out[i], if choices[i] { m1[i] } else { m0[i] });
    }
}

#[test]
fn ot_receiver_bits_default_to_low_bits() {
    let mut r = OTPre::<1>::new(2, 1);
    let data = [[3u8; 16], [4u8; 16]];
    let inputs = r.recv_pre(&data, None);
    assert_eq!(inputs.len(), 1);
    assert_eq!(inputs[0], vec![[3u8; 16], [4u8; 16]]);
    let announced = r.choices_recver(&[false, false]);
    assert_eq!(announced, vec![true, false]);
    r.reset();
}

#[test]
fn ot_hash_inputs_carry_the_limb_tag() {
    let mut s = OTPre::<3>::new(1, 1);
    let inputs = s.send_pre(&[[0u8; 16]], [0xffu8; 16]);
    assert_eq!(inputs.len(), 3);
    for j in 0..3 {
        let mut tag = [0u8; 16];
        tag[0] = j as u8;
        assert_eq!(inputs[j][0], tag);
        let mut tagged_delta = [0xffu8; 16];
        tagged_delta[0] ^= j as u8;
        assert_eq!(inputs[j][1], tagged_delta);
    }
}

#[test]
fn idcf_shares_compare_with_the_input() {
    let depth = 3usize;
    let alpha: u128 = 5;
    let key = block(1, 2);
    let beta = block(3, 4);
    let mut sender = IDCFSender::new(depth, 1);
    let size = (1usize << (depth + 1)) - 1;
    let mut s_share = vec![[0u8; 16]; size];
    sender.compute(&mut s_share, key, beta, 0);
    let (ot0, ot1) = sender.ot_messages();

    let mut receiver = IDCFReceiver::new(depth, 1);
    receiver.set_alpha(alpha.to_le_bytes(), 0);
    let choices = receiver.ot_choices();
    assert_eq!(choices.len(), depth + 1);
    assert_eq!(&choices[1..], &[true, false, true]);
    let chosen: Vec<[u128; 3]> = (0..choices.len()).map(|k| if choices[k] { ot1[k] } else { ot0[k] }).collect();
    receiver.store_ot_messages(&chosen);
    let mut r_share = vec![[0u8; 16]; size];
    receiver.compute(&mut r_share, 0);

    for h in 1..=depth {
        let prefix = (alpha >> (depth - h)) as usize;
        for x in 0..(1usize << h) {
            let idx = (1usize << h) - 1 + x;
            let diff = xor16(&r_share[idx], &s_share[idx]);
            if x >= prefix {
                assert_eq!(diff, beta, "level {} node {}", h, x);
            } else {
                assert_eq!(diff, [0u8; 16], "level {} node {}", h, x);
            }
        }
    }
    assert!(receiver.consistency_check(&r_share, &s_share, &beta.to_vec(), 0));
    let mut forged = s_share.clone();
    forged[3][0] ^= 1;
    assert!(!receiver.consistency_check(&r_share, &forged, &beta.to_vec(), 0));
}

#[test]
fn spfss_shares_differ_only_at_the_punctured_leaf() {
    let depth = 3usize;
    let (mut ot_s, mut ot_r) = ot_pair::<1>(depth - 1, 1, &[true, false]);
    let b = [false, false];
    let announced = ot_r.choices_recver(&b);
    ot_s.choices_sender(&announced);

    let secret: u128 = 0x1111_2222_3333_4444;
    let gamma: u128 = 0x5555;
    let delta2: u128 = 0x7777_0000_1234;
    let mut sender = SpfssSenderF2k::with_seed(depth, 0xdead_beef);
    let leaves = 1usize << (depth - 1);
    let mut s_tree = vec![0u128; leaves];
    sender.compute(&mut s_tree, secret, gamma);
    let (pads, sum) = sender.send(&ot_s, 0);
    assert_eq!(pads.len(), 2 * (depth - 1));

    let mut receiver = SpfssRecverF2k::new(depth);
    let alpha = receiver.get_index();
    assert_eq!(alpha, leaves - 1);
    receiver.recv(&ot_r, &pads, sum, 0);
    let mut r_tree = vec![0u128; leaves];
    receiver.compute(&mut r_tree, delta2);
    for i in 0..leaves {
        let expected = if i == alpha { delta2 ^ gamma } else { 0 };
        assert_eq!(r_tree[i] ^ s_tree[i], expected);
    }
}

#[test]
fn spfss_check_values_agree_off_the_puncture() {
    let depth = 2usize;
    let mut sender = SpfssSenderF2k::with_seed(depth, 42);
    let mut tree = vec![0u128; 2];
    sender.compute(&mut tree, 9, 0);
    let mut v = 0u128;
    sender.consistency_check_msg_gen(&mut v, 5);
    let mut coeffs = vec![0u128; 2];
    uni_hash_coeff_gen_f2k(&mut coeffs, hash_to_seed(5), 2);
    assert_eq!(v, vector_inner_product_f2k(&coeffs, &tree));
}

fn chosen(delta: u128, w0: &[u128], w1: &[u128]) -> Vec<u128> {
    (0..128).map(|i| if (delta >> i) & 1 == 1 { w1[i] } else { w0[i] }).collect()
}

#[test]
fn cope_shares_differ_by_input_times_delta() {
    let delta: u128 = 0x8000_0000_0000_0001_0000_0000_0000_00f3;
    let mut s = CopeF2k::new(0);
    let bits = s.initialize_sender(delta);
    for i in 0..128 {
        assert_eq!(bits[i], (delta >> i) & 1 == 1);
    }
    let mut r = CopeF2k::new(1);
    r.initialize_receiver();
    let w0: Vec<u128> = (0..128u128).map(|i| i.wrapping_mul(0x1234_5678_9abc_def1) ^ 0x55).collect();
    let w1: Vec<u128> = (0..128u128).map(|i| (i + 7).wrapping_mul(0x0fed_cba9_8765_4321) ^ 0xaa).collect();
    let u: u128 = 0x0123_4567_89ab_cdef_0011_2233_4455_6677;
    let (tau, r_share) = r.extend_receiver(&w0, &w1, u);
    let s_share = s.extend_sender(&chosen(delta, &w0, &w1), &tau);
    assert_eq!(s_share, r_share ^ gf128mul(u, delta));
}

#[test]
fn cope_compose_uses_powers_of_x() {
    let mut c = CopeF2k::new(1);
    c.initialize_receiver();
    assert_eq!(c.prm2pr(&[1, 1]), 1 ^ 2);
    assert_eq!(c.prm2pr(&[0, 0, 5]), 20);
}

#[test]
fn base_svole_check_accepts_correlated_shares() {
    let delta: u128 = 0xfeed_face_cafe_beef_0000_1111_2222_3333;
    let sender = BaseSvoleF2k::new_sender(delta);
    let receiver = BaseSvoleF2k::new_receiver();
    let x: Vec<u128> = (1..=6u128).map(|i| i * 0x1001).collect();
    let rs: Vec<u128> = (1..=6u128).map(|i| i.wrapping_mul(0xabcdef) ^ 0x77).collect();
    let ss: Vec<u128> = (0..6).map(|i| rs[i] ^ gf128mul(x[i], delta)).collect();
    let (a, c) = (0x99u128, 0x4242u128);
    let b = c ^ gf128mul(a, delta);
    let chi: Vec<u128> = (0..6u128).map(|i| 3 * i + 1).collect();
    let (xz0, xz1) = receiver.receiver_check(&rs, &x, c, a, &chi);
    assert!(sender.sender_check(&ss, b, &chi, xz0, xz1));
    assert!(!sender.sender_check(&ss, b, &chi, xz0 ^ 1, xz1));
}

fn aes(key: &[u8; 16], v: u128) -> u128 {
    let cipher = Aes128::new(&GenericArray::from(*key));
    let mut b = GenericArray::from(v.to_le_bytes());
    cipher.encrypt_block(&mut b);
    u128::from_le_bytes(b.into())
}

#[test]
fn lpn_rows_follow_the_aes_matrix() {
    let (k, n) = (16usize, 5usize);
    let seed = [3u8; 16];
    let seed_field = [4u8; 16];
    let mut lpn = LpnF2k::new(k, n, &seed, &seed_field);
    let kk: Vec<u128> = (0..k as u128).map(|i| i * 0x1_0000_0001 + 5).collect();
    let start: Vec<u128> = (0..n as u128).map(|i| i ^ 0xff).collect();
    let mut big_k = start.clone();
    lpn.compute_big_k(&mut big_k, &kk);
    for i in 0..n {
        let mut acc = start[i];
        for m in 0..10u128 {
            let blk = (i as u128) | (m << 64);
            let col = ((aes(&seed, blk) >> 64) as usize) % k;
            acc ^= gf128mul(aes(&seed_field, blk), kk[col]);
        }
        assert_eq!(big_k[i], acc);
    }
    let mut k2 = start.clone();
    let mut m2 = vec![0u128; n];
    lpn.compute_recv(&mut k2, &mut m2, &kk, &kk);
    assert_eq!(k2, big_k);
}

#[test]
fn mpfss_set_vec_x_adds_at_punctured_entries() {
    let mpfss = MpfssRegF2k::new(8, 2, 2, 1);
    let mut out = vec![1u128; 8];
    mpfss.set_vec_x(&mut out, &[10, 20]);
    assert_eq!(out, vec![11, 1, 1, 1, 21, 1, 1, 1]);
}

#[test]
fn mpfss_trees_and_batch_check_agree() {
    let delta: u128 = 0x0bad_cafe_1234_5678_9abc_def0_1357_9bdf;
    let (tree_n, log_bin_sz, height) = (2usize, 2usize, 3usize);
    let leave_n = 1usize << log_bin_sz;
    let y_send: Vec<u128> = vec![0x11, 0x2222, 0x3333_3333];
    let z: Vec<u128> = vec![5, 0x77, 0x9999];
    let y_recv: Vec<u128> = (0..3).map(|i| y_send[i] ^ gf128mul(delta, z[i])).collect();

    let mut mp_s = MpfssRegF2k::new(tree_n * leave_n, tree_n, log_bin_sz, 0);
    mp_s.set_malicious();
    mp_s.sender_init(delta);
    mp_s.sender_begin(&y_send);
    let mut mp_r = MpfssRegF2k::new(tree_n * leave_n, tree_n, log_bin_sz, 1);
    mp_r.set_malicious();
    mp_r.receiver_init();
    mp_r.receiver_begin(&y_recv, &z);

    let (mut ot_s, mut ot_r) = ot_pair::<1>(height - 1, tree_n, &[true, false, false, true]);
    for _ in 0..tree_n {
        let announced = ot_r.choices_recver(&[false, false]);
        ot_s.choices_sender(&announced);
    }
    ot_s.reset();
    ot_r.reset();

    let seeds = [0x1234u128, 0x5678];
    let mut sv_s = vec![0u128; tree_n * leave_n];
    let mut sv_y = vec![0u128; tree_n * leave_n];
    let mut sv_z = vec![0u128; tree_n * leave_n];
    for i in 0..tree_n {
        let mut sender = SpfssSenderF2k::with_seed(height, 1000 + i as u128);
        mp_s.sender_tree(i, &mut sender, &mut sv_s, seeds[i]);
        let (pads, sum) = sender.send(&ot_s, i);
        let mut receiver = SpfssRecverF2k::new(height);
        receiver.recv(&ot_r, &pads, sum, i);
        mp_r.receiver_tree(i, &mut receiver, &mut sv_y, &mut sv_z, seeds[i]);
    }
    for i in 0..tree_n {
        for k in 0..leave_n {
            let j = i * leave_n + k;
            let punctured = k == leave_n - 1;
            assert_eq!(sv_y[j] ^ sv_s[j], if punctured { gf128mul(delta, z[i]) } else { 0 });
            assert_eq!(sv_z[j], if punctured { z[i] } else { 0 });
        }
    }
    let x_star = mp_r.receiver_x_star();
    let h = mp_s.sender_check_hash(x_star);
    assert!(mp_r.receiver_check(&h));
    assert!(!mp_r.receiver_check(&mp_s.sender_check_hash(x_star ^ 1)));
}

#[test]
fn spfss_check_accepts_an_honest_tree() {
    let depth = 3usize;
    let (mut ot_s, mut ot_r) = ot_pair::<1>(depth - 1, 1, &[false, true]);
    let announced = ot_r.choices_recver(&[false, false]);
    ot_s.choices_sender(&announced);
    let delta: u128 = 0x4444_5555_6666_7777;
    let beta: u128 = 0x1234_5678;
    let gamma: u128 = 0x99;
    let y: u128 = 0xabcdef;
    let z = y ^ gf128mul(delta, beta);
    let mut sender = SpfssSenderF2k::with_seed(depth, 77);
    let mut s_tree = vec![0u128; 4];
    sender.compute(&mut s_tree, delta, gamma);
    let (pads, sum) = sender.send(&ot_s, 0);
    let mut receiver = SpfssRecverF2k::new(depth);
    receiver.recv(&ot_r, &pads, sum, 0);
    let mut r_tree = vec![0u128; 4];
    receiver.compute(&mut r_tree, gamma ^ gf128mul(delta, beta));
    let (x_star, w) = receiver.consistency_check(z, beta);
    assert_eq!(sender.consistency_check(y, x_star), w);
    assert_ne!(sender.consistency_check(y ^ 1, x_star), w);
    assert!(receiver.consistency_check_accepts(z, beta, sender.consistency_check(y, x_star)));
    assert!(!receiver.consistency_check_accepts(z, beta, sender.consistency_check(y ^ 1, x_star)));
}

#[test]
fn cope_batch_columns_differ_by_input_times_delta() {
    let delta: u128 = 0x0f0f_0000_1111_2222_3333_4444_5555_6667;
    let size = 3usize;
    let mut s = CopeF2k::new(0);
    s.initialize_sender(delta);
    let mut r = CopeF2k::new(1);
    r.initialize_receiver();
    let w0: Vec<Vec<u128>> = (0..128u128).map(|i| (0..size as u128).map(|j| i * 1000 + j * 7 + 1).collect()).collect();
    let w1: Vec<Vec<u128>> = (0..128u128).map(|i| (0..size as u128).map(|j| (i + 3) * 0x1_0001 ^ (j << 90)).collect()).collect();
    let u: Vec<u128> = vec![0x1234, 0xffff_0000_ffff, u128::MAX];
    let mut r_share = vec![0u128; size];
    let tau = r.extend_receiver_batch(&mut r_share, &w0, &w1, &u, size);
    let w: Vec<Vec<u128>> = (0..128).map(|i| if (delta >> i) & 1 == 1 { w1[i].clone() } else { w0[i].clone() }).collect();
    let mut s_share = vec![0u128; size];
    s.extend_sender_batch(&mut s_share, &w, &tau, size);
    for j in 0..size {
        assert_eq!(s_share[j], r_share[j] ^ gf128mul(u[j], delta));
    }
}

#[test]
fn idcf_table_holds_one_instance_per_bin_and_dimension() {
    let keys: Vec<[u8; 16]> = (0..16u64).map(|i| block(11, i)).collect();
    let betas: Vec<[u8; 16]> = (0..16u64).map(|i| block(12, i)).collect();
    let mut sender = IDCFSender::new(3, 16);
    let table = sender.idcf_table(&keys, &betas, 2);
    assert_eq!(table.len(), 2);
    assert!(table.iter().all(|bin| bin.len() == 8 && bin.iter().all(|s| s.len() == 16)));
    let mut alone = IDCFSender::new(3, 16);
    let mut sharing = vec![[0u8; 16]; 16];
    alone.compute(&mut sharing, keys[11], betas[11], 11);
    assert_eq!(table[1][3], sharing);
}
