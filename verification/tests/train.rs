use iqdb_ivf::error::IvfError;
use iqdb_ivf::rng::{subsample_indices, SplitMix64};
use iqdb_ivf::train::{check_training_sample, plan_training_set};

#[test]
fn rejects_empty_sample() {
    let err = plan_training_set(2, 3, 0, &[], 100).unwrap_err();
    match err {
        IvfError::InvalidConfig { reason } => assert!(reason.contains("non-empty sample")),
        other => panic!("expected InvalidConfig, got {other:?}"),
    }
}

#[test]
fn rejects_sample_smaller_than_clusters() {
    let err = plan_training_set(2, 5, 0, &[2, 2], 100).unwrap_err();
    match err {
        IvfError::InvalidConfig { reason } => assert!(reason.contains("sample.len() >= n_clusters")),
        other => panic!("expected InvalidConfig, got {other:?}"),
    }
}

#[test]
fn rejects_dim_mismatch() {
    let err = plan_training_set(2, 1, 0, &[3], 100).unwrap_err();
    match err {
        IvfError::DimensionMismatch { expected, found } => {
            assert_eq!(expected, 2);
            assert_eq!(found, 3);
        }
        other => panic!("expected DimensionMismatch, got {other:?}"),
    }
}

#[test]
fn dim_mismatch_is_checked_before_the_cluster_count() {
    // One vector of the wrong length and too few vectors: the length wins.
    assert_eq!(check_training_sample(2, 5, &[2, 4]), Err(IvfError::DimensionMismatch { expected: 2, found: 4 }));
    assert_eq!(check_training_sample(2, 2, &[2, 2]), Ok(()));
}

#[test]
fn subsampling_is_deterministic() {
    let lens = vec![2usize; 100];
    let (a, mut ra) = plan_training_set(2, 5, 99, &lens, 25).unwrap();
    let (b, mut rb) = plan_training_set(2, 5, 99, &lens, 25).unwrap();
    assert_eq!(a, b);
    assert_eq!(ra.next_u64(), rb.next_u64());
}

#[test]
fn small_sample_is_used_whole_and_in_order() {
    let lens = vec![3usize; 6];
    let (w, mut rng) = plan_training_set(3, 2, 7, &lens, 100).unwrap();
    assert_eq!(w, vec![0, 1, 2, 3, 4, 5]);
    // No draw was made: the generator is still in its seeded state.
    let mut fresh = SplitMix64::new(7);
    assert_eq!(rng.next_u64(), fresh.next_u64());
}

#[test]
fn subsample_picks_distinct_positions() {
    let mut rng = SplitMix64::new(0xABCD);
    let picks = subsample_indices(50, 20, &mut rng);
    assert_eq!(picks.len(), 20);
    let mut sorted = picks.clone();
    sorted.sort();
    sorted.dedup();
    assert_eq!(sorted.len(), 20);
    assert!(picks.iter().all(|&p| p < 50));
}

#[test]
fn different_seeds_subsample_differently() {
    let mut a = SplitMix64::new(1);
    let mut b = SplitMix64::new(2);
    assert_ne!(subsample_indices(1000, 10, &mut a), subsample_indices(1000, 10, &mut b));
}

#[test]
fn splitmix_matches_the_reference_stream() {
    // First outputs of SplitMix64 seeded with 0 (the published reference values).
    let mut rng = SplitMix64::new(0);
    assert_eq!(rng.next_u64(), 0xE220_A839_7B1D_CDAF);
    assert_eq!(rng.next_u64(), 0x6E78_9E6A_A1B9_65F4);
    assert_eq!(rng.next_u64(), 0x06C4_5D18_8009_454F);
}

#[test]
fn next_below_stays_in_range_and_one_gives_zero() {
    let mut rng = SplitMix64::new(42);
    for _ in 0..1_000 {
        assert!(rng.next_below(7) < 7);
    }
    for _ in 0..100 {
        assert_eq!(rng.next_below(1), 0);
    }
}

#[test]
fn unit_bits_are_a_nonzero_53_bit_numerator() {
    let mut rng = SplitMix64::new(0);
    for _ in 0..10_000 {
        let b = rng.next_unit_bits();
        assert!(b >= 1 && b < (1u64 << 53));
    }
    // The numerator is the top 53 bits of the next output.
    let mut a = SplitMix64::new(5);
    let mut b = SplitMix64::new(5);
    assert_eq!(a.next_unit_bits(), b.next_u64() >> 11);
}
