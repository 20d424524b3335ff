use histogram_engine::{
    ExponentialStrategy, FloatingPointContext, FunctionalStrategy, Histogram, LinearStrategy,
};

#[test]
fn linear_index_and_lower_bound() {
    let l = LinearStrategy::linear(0, 100, 10).unwrap();
    assert_eq!(l.bucket_index(5), 0);
    assert_eq!(l.bucket_index(0), 0);
    assert_eq!(l.bucket_index(99), 9);
    assert_eq!(l.bucket_index(105), 9);
    assert_eq!(l.bucket_lower_bound(0), 0);
    assert_eq!(l.bucket_lower_bound(9), 90);
}

#[test]
fn linear_key_round_trip() {
    let l = LinearStrategy::linear(10, 50, 7).unwrap();
    for s in [0u64, 10, 17, 33, 49, 50, 1000] {
        let key = l.bucket_lower_bound(l.bucket_index(s));
        assert_eq!(l.bucket_lower_bound(l.bucket_index(key)), key);
    }
}

#[test]
fn exponential_boundaries_exact() {
    let e = ExponentialStrategy::exponential(1, 100, 10).unwrap();
    assert_eq!(e.boundaries, vec![1, 2, 3, 5, 7, 10, 17, 31, 55, 74]);
}

#[test]
fn exponential_first_boundary_is_max_of_min_and_one() {
    let e = ExponentialStrategy::exponential(0, 100, 10).unwrap();
    assert_eq!(e.boundaries[0], 1);
    let e = ExponentialStrategy::exponential(4, 100, 10).unwrap();
    assert_eq!(e.boundaries[0], 4);
}

#[test]
fn exponential_boundaries_strictly_increasing() {
    let e = ExponentialStrategy::exponential(0, 1_000_000, 50).unwrap();
    for w in e.boundaries.windows(2) {
        assert!(w[0] < w[1]);
    }
    // narrow ranges merge buckets but never repeat a boundary
    let e = ExponentialStrategy::exponential(0, 4, 10).unwrap();
    assert_eq!(e.boundaries, vec![1, 2, 3]);
}

#[test]
fn exponential_boundaries_bit_identical_across_instances() {
    let a = ExponentialStrategy::exponential(0, 60000, 100).unwrap();
    let b = ExponentialStrategy::exponential(0, 60000, 100).unwrap();
    assert_eq!(a.boundaries, b.boundaries);
}

#[test]
fn functional_index_formula() {
    let f = FunctionalStrategy::functional(2, 8).unwrap();
    assert_eq!(f.bucket_index(1), 0);
    assert_eq!(f.bucket_index(0), f.bucket_index(1));
    assert_eq!(f.bucket_index(2), 8);
    assert_eq!(f.bucket_index(4), 16);
    assert_eq!(f.bucket_index(1024), 80);
    // doubling advances the index by buckets_per_magnitude
    for s in [1u64, 3, 7, 100, 12345] {
        assert_eq!(f.bucket_index(2 * s), f.bucket_index(s) + 8);
    }
}

#[test]
fn functional_lower_bound_is_least_reaching_value() {
    let f = FunctionalStrategy::functional(2, 8).unwrap();
    // 3^8 = 6561 >= 2^12 = 4096 while 2^8 = 256 < 4096
    assert_eq!(f.bucket_lower_bound(12), 3);
    assert_eq!(f.bucket_lower_bound(0), 1);
    assert_eq!(f.bucket_lower_bound(8), 2);
}

#[test]
fn functional_key_round_trip() {
    let f = FunctionalStrategy::functional(2, 16).unwrap();
    for s in [0u64, 1, 2, 3, 900, 1u64 << 40] {
        let key = f.bucket_lower_bound(f.bucket_index(s));
        assert_eq!(f.bucket_lower_bound(f.bucket_index(key)), key);
    }
}

#[test]
fn histogram_accumulate_tracks_count_and_sum() {
    let mut h = Histogram::linear(0, 100, 10).unwrap();
    h.accumulate(5);
    h.accumulate(15);
    h.accumulate(5);
    assert_eq!(h.sample_count(), 3);
    assert_eq!(h.sum(), 25);
    let snap = h.snapshot();
    assert_eq!(snap.values, vec![(0, 2), (10, 1)]);
    assert_eq!(snap.count, 3);
    assert_eq!(snap.sum, 25);
}

#[test]
fn histogram_sum_saturates_at_max() {
    let mut h = Histogram::functional(2, 8).unwrap();
    h.accumulate(u64::MAX);
    h.accumulate(u64::MAX);
    assert_eq!(h.sum(), u64::MAX);
    assert_eq!(h.sample_count(), 2);
}

#[test]
fn histogram_snapshot_counts_sum_to_sample_count() {
    let mut h = Histogram::exponential(1, 1000, 20).unwrap();
    for s in [0u64, 1, 5, 5, 900, 2000, 77] {
        h.accumulate(s);
    }
    let snap = h.snapshot();
    let total: u64 = snap.values.iter().map(|e| e.1).sum();
    assert_eq!(total, 7);
    assert_eq!(snap.count, 7);
    for w in snap.values.windows(2) {
        assert!(w[0].0 < w[1].0);
    }
}

#[test]
fn floating_point_context_is_scoped_noop() {
    let _guard = FloatingPointContext::new();
    let a = ExponentialStrategy::exponential(1, 100, 10).unwrap();
    drop(_guard);
    let b = ExponentialStrategy::exponential(1, 100, 10).unwrap();
    assert_eq!(a.boundaries, b.boundaries);
}
