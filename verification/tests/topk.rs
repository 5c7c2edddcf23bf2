use iqdb_ivf::float_bits::{ieee_less, is_finite_bits, is_nan_bits, negate_bits, total_order_key};
use iqdb_ivf::topk::select_topk_indices;

fn bits(v: &[f32]) -> Vec<u32> {
    v.iter().map(|x| x.to_bits()).collect()
}

fn seqs_in_order(n: usize) -> Vec<u64> {
    (0..n as u64).collect()
}

#[test]
fn select_topk_zero_k_returns_empty() {
    let out = select_topk_indices(&bits(&[1.0, 2.0, 3.0]), &seqs_in_order(3), 0);
    assert!(out.is_empty());
}

#[test]
fn select_topk_empty_distances_returns_empty() {
    let out = select_topk_indices(&[], &[], 5);
    assert!(out.is_empty());
}

#[test]
fn select_topk_k_greater_than_n_returns_all_sorted() {
    let out = select_topk_indices(&bits(&[3.0, 1.0, 2.0]), &seqs_in_order(3), 10);
    assert_eq!(out, vec![1, 2, 0]);
}

#[test]
fn select_topk_returns_best_first() {
    let out = select_topk_indices(&bits(&[5.0, 1.0, 4.0, 2.0, 3.0]), &seqs_in_order(5), 3);
    assert_eq!(out, vec![1, 3, 4]);
}

#[test]
fn select_topk_breaks_ties_by_lower_seq() {
    let out = select_topk_indices(&bits(&[1.0, 1.0, 1.0, 0.5]), &[0, 1, 2, 3], 3);
    assert_eq!(out, vec![3, 0, 1]);
}

#[test]
fn select_topk_tiebreaker_is_seq_not_idx() {
    let out = select_topk_indices(&bits(&[1.0, 1.0, 1.0, 1.0]), &[1, 3, 0, 2], 4);
    assert_eq!(out, vec![2, 0, 3, 1]);
}

#[test]
fn select_topk_handles_nan_via_total_cmp() {
    let out = select_topk_indices(&bits(&[f32::NAN, 1.0, 2.0]), &seqs_in_order(3), 3);
    assert_eq!(out, vec![1, 2, 0]);
}

#[test]
fn select_topk_orders_negative_distances_and_signed_zeros_totally() {
    // total order: -inf < -2 < -0.0 < +0.0 < 1 < +inf < NaN
    let d = [1.0_f32, 0.0, -0.0, -2.0, f32::INFINITY, f32::NEG_INFINITY, f32::NAN];
    let out = select_topk_indices(&bits(&d), &seqs_in_order(d.len()), d.len());
    assert_eq!(out, vec![5, 3, 2, 1, 0, 4, 6]);
}

#[test]
fn select_topk_equal_seqs_keep_every_position_once() {
    let out = select_topk_indices(&bits(&[2.0, 2.0, 2.0]), &[7, 7, 7], 2);
    assert_eq!(out.len(), 2);
    assert_ne!(out[0], out[1]);
}

#[test]
fn total_order_key_matches_total_cmp() {
    let vals = [f32::NEG_INFINITY, -3.5, -1.0, -0.0, 0.0, 1e-30, 1.0, 7.25, f32::INFINITY, f32::NAN];
    for a in vals {
        for b in vals {
            let by_key = total_order_key(a.to_bits()).cmp(&total_order_key(b.to_bits()));
            assert_eq!(by_key, a.total_cmp(&b), "{a} vs {b}");
        }
    }
}

#[test]
fn ieee_less_matches_f32_lt() {
    let vals = [f32::NEG_INFINITY, -3.5, -1.0, -0.0, 0.0, 1e-30, 1.0, 7.25, f32::INFINITY, f32::NAN];
    for a in vals {
        for b in vals {
            assert_eq!(ieee_less(a.to_bits(), b.to_bits()), a < b, "{a} < {b}");
        }
    }
}

#[test]
fn negate_bits_matches_f32_neg() {
    for v in [0.0_f32, -0.0, 1.5, -2.25, f32::INFINITY, f32::NEG_INFINITY] {
        assert_eq!(negate_bits(v.to_bits()), (-v).to_bits());
        assert_eq!(negate_bits(negate_bits(v.to_bits())), v.to_bits());
    }
}

#[test]
fn nan_and_finite_classification() {
    assert!(is_nan_bits(f32::NAN.to_bits()));
    assert!(!is_nan_bits(f32::INFINITY.to_bits()));
    assert!(is_finite_bits(1.0_f32.to_bits()));
    assert!(is_finite_bits((-0.0_f32).to_bits()));
    assert!(!is_finite_bits(f32::INFINITY.to_bits()));
    assert!(!is_finite_bits(f32::NAN.to_bits()));
}

#[test]
fn ranking_does_not_depend_on_candidate_order() {
    // The same (distance, seq) candidates in two enumeration orders rank
    // to the same sequence of candidates.
    let d = [3.0_f32, 1.0, 2.0, 1.0, 5.0, 0.5];
    let s = [10u64, 11, 12, 13, 14, 15];
    let perm = [4usize, 2, 0, 5, 3, 1];
    let d2: Vec<f32> = perm.iter().map(|&i| d[i]).collect();
    let s2: Vec<u64> = perm.iter().map(|&i| s[i]).collect();
    let r1: Vec<u64> = select_topk_indices(&bits(&d), &s, 4).iter().map(|&i| s[i]).collect();
    let r2: Vec<u64> = select_topk_indices(&bits(&d2), &s2, 4).iter().map(|&i| s2[i]).collect();
    assert_eq!(r1, r2);
    assert_eq!(r1, vec![15, 11, 13, 12]);
}
