use nalgebra::DMatrix;
use svd_stego::approx::SvdResult;
use svd_stego::lsb::LSBStego;
use svd_stego::quantize::{entries_to_bytes, flatten_rows};
use svd_stego::reconstruct::sample_of;

fn factors(rows: usize, cols: usize, comps: usize) -> (Vec<Vec<i16>>, Vec<Vec<i16>>) {
    let left = (0..rows)
        .map(|i| (0..comps).map(|t| ((i * 7 + t * 3) % 11) as i16 - 5).collect())
        .collect();
    let right = (0..comps)
        .map(|t| (0..cols).map(|j| ((t * 5 + j) % 13) as i16 - 6).collect())
        .collect();
    (left, right)
}

fn direct(left: &[Vec<i16>], right: &[Vec<i16>], k: usize) -> Vec<Vec<i64>> {
    let cols = if right.is_empty() { 0 } else { right[0].len() };
    left.iter()
        .map(|row| {
            (0..cols)
                .map(|j| (0..k).map(|t| row[t] as i64 * right[t][j] as i64).sum())
                .collect()
        })
        .collect()
}

#[test]
fn new_engine_starts_at_rank_zero() {
    let (l, r) = factors(2, 3, 4);
    let e = SvdResult::new(l, r, 3);
    assert_eq!(e.current_rank(), 0);
    assert_eq!(e.components(), 4);
    assert_eq!(e.approximation(), vec![vec![0i64; 3]; 2]);
    assert_eq!(e.get_lhs(), vec![Vec::<i16>::new(); 2]);
    assert!(e.get_rhs().is_empty());
}

#[test]
fn small_rank_matches_hand_product() {
    let left = vec![vec![2i16, 1], vec![-1, 3]];
    let right = vec![vec![10000i16, 0, 5000], vec![1, 2, 3]];
    let mut e = SvdResult::new(left, right, 3);
    assert_eq!(e.compute_low_rank_approximation(1), vec![vec![20000, 0, 10000], vec![-10000, 0, -5000]]);
    assert_eq!(e.compute_low_rank_approximation(5), vec![vec![20001, 2, 10003], vec![-9997, 6, -4991]]);
    assert_eq!(e.current_rank(), 2);
    assert_eq!(e.get_lhs(), vec![vec![2, 1], vec![-1, 3]]);
    assert_eq!(e.get_rhs(), vec![vec![10000, 0, 5000], vec![1, 2, 3]]);
}

#[test]
fn incremental_requests_match_direct_product() {
    let (l, r) = factors(2, 3, 150);
    let mut e = SvdResult::new(l.clone(), r.clone(), 3);
    for &req in &[10usize, 50, 30, 80, 120, 110, 140, 101, 149, 100, 120] {
        let got = e.compute_low_rank_approximation(req);
        assert_eq!(got, direct(&l, &r, req));
        assert_eq!(e.current_rank(), req);
    }
    let got = e.compute_low_rank_approximation(400);
    assert_eq!(e.current_rank(), 150);
    assert_eq!(got, direct(&l, &r, 150));
    let lhs = e.get_lhs();
    assert_eq!(lhs[1], l[1]);
}

#[test]
fn rank_sequence_final_state_equals_fresh_engine() {
    let (l, r) = factors(3, 2, 130);
    let mut a = SvdResult::new(l.clone(), r.clone(), 2);
    for &req in &[100usize, 125, 105, 129] {
        a.compute_low_rank_approximation(req);
    }
    let mut b = SvdResult::new(l, r, 2);
    assert_eq!(a.approximation(), b.compute_low_rank_approximation(129));
}

#[test]
fn end_to_end_rank_two_payload() {
    let (w, h, rank) = (4usize, 4usize, 2usize);
    let mut engines = Vec::new();
    for c in 0..3 {
        let data: Vec<f32> = (0..h * w).map(|k| ((k * 16 + c * 40 + (k % 3) * 7) % 256) as f32).collect();
        let svd = DMatrix::from_row_slice(h, w, &data).svd(true, true);
        let u = svd.u.unwrap();
        let v_t = svd.v_t.unwrap();
        let sv = svd.singular_values;
        let left: Vec<Vec<i16>> = (0..h)
            .map(|i| (0..sv.len()).map(|t| (u[(i, t)] * sv[t]).round() as i16).collect())
            .collect();
        let right: Vec<Vec<i16>> = (0..sv.len())
            .map(|t| (0..w).map(|j| (v_t[(t, j)] * 10000.0).round() as i16).collect())
            .collect();
        let mut e = SvdResult::new(left, right, w);
        e.compute_low_rank_approximation(rank);
        engines.push(e);
    }

    let mut enc = LSBStego::new(vec![0u8; 64 * 64 * 3], 64, 64);
    assert_eq!(enc.init_encode(w, h, rank, 1), Ok(()));
    for e in &engines {
        let lhs = entries_to_bytes(&flatten_rows(&e.get_lhs()));
        let rhs = entries_to_bytes(&flatten_rows(&e.get_rhs()));
        assert_eq!(enc.encode_channel(&lhs, &rhs), Ok(()));
    }

    let mut dec = LSBStego::new(enc.get_image(), 64, 64);
    let p = dec.decode_properties().unwrap();
    assert_eq!((p.0, p.1, p.2), (4, 4, 2));
    let out = dec.decode_approximation(p.0, p.1, p.2).unwrap();
    assert_eq!(out.len(), w * h * 4);
    for i in 0..h {
        for j in 0..w {
            for (c, e) in engines.iter().enumerate() {
                let expected = sample_of(e.approximation()[i][j]) as i32;
                let got = out[(i * w + j) * 4 + c] as i32;
                assert!((got - expected).abs() <= 1);
            }
            assert_eq!(out[(i * w + j) * 4 + 3], 255);
        }
    }
}

#[test]
fn repeated_request_after_larger_one() {
    let left = vec![vec![3i16, 0], vec![0, 2]];
    let right = vec![vec![10000i16, 0], vec![0, 10000]];
    let mut e = SvdResult::new(left, right, 2);
    assert_eq!(e.compute_low_rank_approximation(5), vec![vec![30000, 0], vec![0, 20000]]);
    assert_eq!(e.compute_low_rank_approximation(1), vec![vec![30000, 0], vec![0, 0]]);
    assert_eq!(e.compute_low_rank_approximation(1), vec![vec![30000, 0], vec![0, 0]]);
    assert_eq!(e.current_rank(), 1);
}
