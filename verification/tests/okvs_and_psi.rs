use blake2::{Blake2s256, Digest};
use sa_psi::data_generator::{count_nonzero, get_origin as grid_origin, in_range, intersection_sizes, place_ball, point_near};
use sa_psi::okvs_f2k::{OkvsError, RbOkvsF2k};
use sa_psi::okvs_utils::{count_sort, radix_sort};
use sa_psi::params::{check_params, param_checking, LpnParamSet, ParamError};
use sa_psi::psi::{get_origin, SAPSISender as PlaneSender};
use sa_psi::psi_receiver::{get_prefixes, preprocess_point as recentre, SAPSIReceiver};
use sa_psi::psi_sender::{path_hashes, preprocess_point, set_decompose, SAPSISender};

fn keys(n: usize) -> Vec<(u128, u128)> {
    (0..n as u128).map(|i| (i.wrapping_mul(0x9e37_79b9_7f4a_7c15_f39c_c060_5ced_c835) ^ 0x1234, i * 31 + 7)).collect()
}

#[test]
fn okvs_parameters() {
    let okvs = RbOkvsF2k::new(100, &[0u8; 16], &[1u8; 16]);
    assert_eq!(okvs.columns, 250);
    assert!(okvs.is_well_formed());
    let small = RbOkvsF2k::new(10, &[0u8; 16], &[1u8; 16]);
    assert_eq!(small.columns, 25);
    assert!(small.is_well_formed());
    let empty = RbOkvsF2k::new(0, &[0u8; 16], &[1u8; 16]);
    assert_eq!(empty.columns, 0);
    assert!(!empty.is_well_formed());
}

#[test]
fn okvs_decodes_what_it_encodes() {
    let input = keys(300);
    let okvs = RbOkvsF2k::new(input.len(), &[0u8; 16], &[1u8; 16]);
    let encoding = okvs.encode(&input).expect("encoding succeeds");
    assert_eq!(encoding.len(), okvs.columns);
    let ks: Vec<u128> = input.iter().map(|kv| kv.0).collect();
    let values = okvs.decode(&encoding, &ks);
    for (i, kv) in input.iter().enumerate() {
        assert_eq!(values[i], kv.1, "mismatch at {}", i);
    }
}

#[test]
fn okvs_small_store_roundtrip() {
    let input = keys(4);
    let okvs = RbOkvsF2k::new(input.len(), &[3u8; 16], &[4u8; 16]);
    match okvs.encode(&input) {
        Ok(encoding) => {
            let ks: Vec<u128> = input.iter().map(|kv| kv.0).collect();
            let values = okvs.decode(&encoding, &ks);
            for (i, kv) in input.iter().enumerate() {
                assert_eq!(values[i], kv.1);
            }
        }
        Err(OkvsError::ZeroRow(i)) => assert!(i < input.len()),
    }
}

#[test]
fn okvs_conflicting_duplicate_key_is_refused() {
    let mut input = keys(50);
    input.push((input[0].0, input[0].1 ^ 1));
    let okvs = RbOkvsF2k::new(input.len(), &[0u8; 16], &[1u8; 16]);
    match okvs.encode(&input) {
        Err(OkvsError::ZeroRow(i)) => assert!(i < input.len()),
        Ok(_) => panic!("two values for one key cannot both decode"),
    }
}

#[test]
fn okvs_repeated_pair_is_refused_too() {
    let mut input = keys(50);
    input.push(input[7]);
    let okvs = RbOkvsF2k::new(input.len(), &[0u8; 16], &[1u8; 16]);
    assert!(matches!(okvs.encode(&input), Err(OkvsError::ZeroRow(_))));
}

#[test]
fn count_sort_is_one_stable_digit_pass() {
    let arr = vec![(0usize, 23usize), (1, 11), (2, 3), (3, 21)];
    let out = count_sort(&arr, 1);
    assert_eq!(out, vec![(1, 11), (3, 21), (0, 23), (2, 3)]);
}

#[test]
fn radix_sort_sorts_stably() {
    let mut arr = vec![(0usize, 57usize), (1, 3), (2, 57), (3, 120), (4, 0), (5, 3)];
    radix_sort(&mut arr, 120);
    assert_eq!(arr, vec![(4, 0), (1, 3), (5, 3), (0, 57), (2, 57), (3, 120)]);
}

#[test]
fn radix_sort_keeps_sorted_input() {
    let mut arr = vec![(0usize, 1usize), (1, 5), (2, 5), (3, 9)];
    let before = arr.clone();
    radix_sort(&mut arr, 9);
    assert_eq!(arr, before);
}

#[test]
fn grid_origins() {
    assert_eq!(get_origin(&[37, 64]), [32, 64]);
    assert_eq!(grid_origin(&[1023, 1024, 5000, 0]), [0, 1024, 4096, 0]);
}

#[test]
fn sender_recentring() {
    // 600: grid line 512, and 600 + 251 < 1024, so the origin moves one step down to 0.
    // 2000: grid line 1536, and 2000 + 251 >= 2048, so the origin stays at 1536.
    let (origin, compare) = preprocess_point(&[600, 1100, 2000, 1300]);
    assert_eq!(origin, [0, 0, 512, 512, 1536, 1536, 1024, 1024]);
    assert_eq!(compare, [851, 674, 839, 686, 715, 810, 527, 998]);
}

#[test]
fn prefix_decomposition() {
    assert_eq!(set_decompose(5), vec![(4, 10), (0, 8)]);
    assert_eq!(set_decompose(0), vec![]);
    assert_eq!(set_decompose(1), vec![(0, 10)]);
}

#[test]
fn receiver_recentring_has_four_cells() {
    let r = recentre(&[40, 70]);
    assert_eq!(r.len(), 4);
    // mask 0: origins 32 and 64.
    assert_eq!(r[0].0, [32, 32, 64, 64]);
    assert_eq!(r[0].1, [8, 63 - 8, 6, 63 - 6]);
    // mask 3: both origins one cell lower.
    assert_eq!(r[3].0, [0, 0, 32, 32]);
    assert_eq!(r[3].1, [40, 63 - 40, 38, 63 - 38]);
}

#[test]
fn receiver_prefixes() {
    let p = get_prefixes(&[0b101101, 0b000111, 0b111111, 0b100000]);
    assert_eq!(p.len(), 256);
    assert_eq!(p[0], [0b101, 0b111, 0b111, 0]);
    assert_eq!(p[255], [0b101101, 0b000111, 0b111111, 0b100000]);
}

#[test]
fn sender_search_finds_nothing_without_digests() {
    let mut sender = SAPSISender::new(4, 2);
    let table: Vec<Vec<[u8; 16]>> = (0..8).map(|_| vec![[0u8; 16]; 2047]).collect();
    sender.search_bin(&table, 0, &[300, 400, 500, 600, 700, 800, 900, 1000], &Vec::new(), 2);
    assert!(sender.intersection().is_empty());
}

#[test]
fn receiver_path_hashes_are_the_path_node_digests() {
    let receiver = SAPSIReceiver::new(4, 2);
    let table: Vec<Vec<[u8; 16]>> = (0..8u8).map(|d| (0..2047u32).map(|x| {
        let mut b = [d; 16];
        b[8..12].copy_from_slice(&x.to_le_bytes());
        b
    }).collect()).collect();
    let v: [u128; 8] = [9, 10, 11, 12, 1000, 0, 512, 3];
    let hashes = receiver.path_point_hashes(3, &table, &v, 10);
    // Only the full-length node is within [10, 10].
    let node = |p: &[u128; 8]| -> [u8; 32] {
        let mut input = (3u64).to_le_bytes().to_vec();
        for d in 0..8 {
            input.extend_from_slice(&p[d].to_le_bytes());
        }
        for d in 0..8 {
            input.extend_from_slice(&table[d][1023 + p[d] as usize]);
        }
        Blake2s256::digest(&input).into()
    };
    assert_eq!(hashes, vec![node(&v)]);
    assert!(!hashes.contains(&node(&[0; 8])));
    let wider = receiver.path_point_hashes(3, &table, &v, 9);
    assert_eq!(wider.len(), 256);
    for a in 0..wider.len() {
        for b in (a + 1)..wider.len() {
            assert_ne!(wider[a], wider[b]);
        }
    }
    assert!(wider.contains(&node(&v)));
}

#[test]
fn range_test_and_points_near_origin() {
    assert!(in_range([1000, 1000, 1000, 1000], [1250, 750, 1000, 1100]));
    assert!(!in_range([1000, 1000, 1000, 1000], [1251, 1000, 1000, 1000]));
    assert!(!in_range([1000, 1000, 1000, 1000], [1000, 749, 1000, 1000]));
    assert_eq!(point_near(&[1025, 5, 2048, 3000], &[1024, 0, 4096, 0]), [1025, 5, 4096, 3000 % 1024]);
}

#[test]
fn intersections_go_to_nonempty_universes() {
    let sizes = vec![0usize, 2, 0, 1, 3];
    assert_eq!(count_nonzero(&sizes), 3);
    let balls = vec![1usize, 0, 1];
    assert_eq!(intersection_sizes(&sizes, &balls), vec![0, 1, 0, 0, 1]);
    let mut bins = vec![0usize, 5];
    assert!(place_ball(&mut bins, 0, 5));
    assert!(!place_ball(&mut bins, 1, 5));
    assert_eq!(bins, vec![1, 5]);
}

#[test]
fn parameter_checking() {
    assert_eq!(param_checking(1 << 8), LpnParamSet::Lpn12);
    assert_eq!(param_checking(1 << 12), LpnParamSet::Lpn16);
    assert_eq!(param_checking(1 << 16), LpnParamSet::Lpn20);
    assert_eq!(check_params(1000, 250, 10, &[2, 4, 6, 8, 10]), Err(ParamError::InvalidSize));
    assert_eq!(check_params(256, 10, 6, &[2, 4, 6]), Ok(LpnParamSet::Lpn12));
    assert_eq!(check_params(256, 10, 7, &[2, 4, 6]), Err(ParamError::RangeBitsMismatch));
    assert_eq!(check_params(256, 30, 7, &[1, 3, 5]), Err(ParamError::PrefLengthMismatch));
    assert_eq!(check_params(256, 11, 6, &[2, 4, 6]), Err(ParamError::InvalidRadius));
    assert_eq!(check_params(3, 11, 6, &[2, 4, 6]), Err(ParamError::InvalidSize));
}

#[test]
fn plane_sender_places_cell_origins() {
    let sender = PlaneSender::new(3, 5);
    let origins = sender.send(&[[33, 64], [31, 95], [0, 1]]);
    assert_eq!(origins, vec![[32, 64], [0, 64], [0, 0]]);
}

#[test]
fn decomposition_covers_exactly_the_values_below() {
    for &u in &[0u128, 1, 2, 3, 511, 512, 700, 1023] {
        let es = set_decompose(u);
        for y in 0..1024u128 {
            let covered = es.iter().any(|&(p, len)| y >> (10 - len) == p);
            assert_eq!(covered, y < u, "bound {} value {}", u, y);
        }
    }
}

#[test]
fn search_finds_a_point_whose_path_digests_are_published() {
    let table: Vec<Vec<[u8; 16]>> = (0..8u8)
        .map(|d| (0..2047u32).map(|n| {
            let mut b = [0u8; 16];
            b[0] = d;
            b[1..5].copy_from_slice(&n.to_le_bytes());
            b
        }).collect())
        .collect();
    let v: [u128; 8] = [3, 1000, 512, 77, 0, 1023, 640, 255];
    let hashes = path_hashes(&table, 5, &v, 9);
    assert_eq!(hashes.len(), 256);
    let mut sender = SAPSISender::new(1, 1);
    let prefix: [u128; 8] = [v[0] >> 1, v[1] >> 1, v[2] >> 1, v[3] >> 1, v[4] >> 1, v[5] >> 1, v[6] >> 1, v[7] >> 1];
    sender.int_search(&table, 5, &prefix, &[9; 8], &hashes, 9);
    assert_eq!(sender.intersection(), vec![v]);
    // Digests of another bin find nothing.
    let mut other = SAPSISender::new(1, 1);
    other.int_search(&table, 6, &prefix, &[9; 8], &hashes, 9);
    assert!(other.intersection().is_empty());
}
