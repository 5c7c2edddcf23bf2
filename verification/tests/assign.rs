use iqdb_ivf::assign::{farthest_point, nearest_centroid};

fn squared_l2(a: &[f32], b: &[f32]) -> f32 {
    let mut sum: f32 = 0.0;
    for i in 0..a.len() {
        let d = a[i] - b[i];
        sum += d * d;
    }
    sum
}

fn sq_dists(centroids: &[Vec<f32>], v: &[f32]) -> Vec<u32> {
    centroids.iter().map(|c| squared_l2(c, v).to_bits()).collect()
}

#[test]
fn assign_picks_the_obviously_nearest_centroid() {
    let centroids = vec![vec![0.0_f32, 0.0], vec![10.0, 10.0], vec![100.0, 100.0]];
    let v = [9.5_f32, 10.5];
    assert_eq!(nearest_centroid(&sq_dists(&centroids, &v)), 1);
}

#[test]
fn assign_breaks_ties_in_favour_of_lower_index() {
    let centroids = vec![vec![1.0_f32, 0.0], vec![-1.0, 0.0]];
    let v = [0.0_f32, 0.0];
    assert_eq!(nearest_centroid(&sq_dists(&centroids, &v)), 0);
}

#[test]
fn assign_single_centroid_returns_zero() {
    let centroids = vec![vec![5.0_f32, -5.0]];
    let v = [0.0_f32, 0.0];
    assert_eq!(nearest_centroid(&sq_dists(&centroids, &v)), 0);
}

#[test]
fn nearest_skips_nan_distances_after_the_first() {
    let d = [4.0_f32, f32::NAN, 1.0, 1.0];
    let bits: Vec<u32> = d.iter().map(|x| x.to_bits()).collect();
    assert_eq!(nearest_centroid(&bits), 2);
}

#[test]
fn farthest_point_picks_first_largest() {
    let d = [0.5_f32, 3.0, 1.0, 3.0];
    let bits: Vec<u32> = d.iter().map(|x| x.to_bits()).collect();
    assert_eq!(farthest_point(&bits), 1);
}

#[test]
fn farthest_point_ignores_nan_and_defaults_to_zero() {
    let all_nan: Vec<u32> = [f32::NAN, f32::NAN].iter().map(|x| x.to_bits()).collect();
    assert_eq!(farthest_point(&all_nan), 0);
    let zeros: Vec<u32> = [0.0_f32, 0.0, 2.0, f32::NAN].iter().map(|x| x.to_bits()).collect();
    assert_eq!(farthest_point(&zeros), 2);
}
