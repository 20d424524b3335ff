use histogram_engine::{
    accumulate_samples_custom_distribution, accumulate_samples_memory_distribution,
    accumulate_samples_timing_distribution, Error,
};

#[test]
fn custom_linear_sample_in_first_bucket() {
    let r = accumulate_samples_custom_distribution(0, 100, 10, 0, &vec![5]).unwrap();
    assert_eq!(r, vec![(0, 1)]);
}

#[test]
fn custom_linear_sample_zero_in_first_bucket() {
    let r = accumulate_samples_custom_distribution(0, 100, 10, 0, &vec![0]).unwrap();
    assert_eq!(r, vec![(0, 1)]);
}

#[test]
fn custom_linear_overflow_clamps_into_last_bucket() {
    let r = accumulate_samples_custom_distribution(0, 100, 10, 0, &vec![105]).unwrap();
    assert_eq!(r, vec![(90, 1)]);
}

#[test]
fn custom_linear_counts_merge_per_bucket() {
    let r = accumulate_samples_custom_distribution(0, 100, 10, 0, &vec![5, 15, 5]).unwrap();
    assert_eq!(r, vec![(0, 2), (10, 1)]);
}

#[test]
fn custom_exponential_accumulates() {
    let r = accumulate_samples_custom_distribution(1, 100, 10, 1, &vec![1, 10, 500]).unwrap();
    // boundaries for (1, 100, 10) are [1,2,3,5,7,10,17,31,55,74]
    assert_eq!(r, vec![(1, 1), (10, 1), (74, 1)]);
}

#[test]
fn custom_invalid_histogram_type_rejected() {
    let r = accumulate_samples_custom_distribution(0, 100, 10, 2, &vec![1, 2, 3]);
    assert_eq!(r, Err(Error::InvalidHistogramType));
    let r = accumulate_samples_custom_distribution(0, 100, 10, -1, &vec![1]);
    assert_eq!(r, Err(Error::InvalidHistogramType));
}

#[test]
fn custom_invalid_config_rejected() {
    let r = accumulate_samples_custom_distribution(0, 100, 0, 0, &vec![1]);
    assert_eq!(r, Err(Error::InvalidBucketCount));
    let r = accumulate_samples_custom_distribution(100, 100, 10, 0, &vec![1]);
    assert_eq!(r, Err(Error::InvalidRange));
    let r = accumulate_samples_custom_distribution(100, 50, 10, 1, &vec![1]);
    assert_eq!(r, Err(Error::InvalidRange));
}

#[test]
fn custom_empty_samples_is_ok_and_empty() {
    let r = accumulate_samples_custom_distribution(0, 100, 10, 0, &vec![]).unwrap();
    assert_eq!(r, vec![]);
}

#[test]
fn custom_distribution_is_deterministic() {
    let a = accumulate_samples_custom_distribution(1, 1000000, 50, 1, &vec![3, 900, 77777]);
    let b = accumulate_samples_custom_distribution(1, 1000000, 50, 1, &vec![3, 900, 77777]);
    assert_eq!(a, b);
}

#[test]
fn timing_small_samples_map_to_own_buckets() {
    let snap = accumulate_samples_timing_distribution(0, &vec![1, 2, 3]).unwrap();
    assert_eq!(snap.values, vec![(1, 1), (2, 1), (3, 1)]);
    assert_eq!(snap.sum, 6);
    assert_eq!(snap.count, 3);
}

#[test]
fn timing_equal_samples_share_a_bucket() {
    let snap = accumulate_samples_timing_distribution(0, &vec![1, 1, 2]).unwrap();
    assert_eq!(snap.values, vec![(1, 2), (2, 1)]);
    assert_eq!(snap.sum, 4);
    assert_eq!(snap.count, 3);
}

#[test]
fn timing_zero_recorded_as_one() {
    let zero = accumulate_samples_timing_distribution(0, &vec![0]).unwrap();
    let one = accumulate_samples_timing_distribution(0, &vec![1]).unwrap();
    assert_eq!(zero.values, one.values);
    assert_eq!(zero.sum, 1);
    assert_eq!(zero.count, 1);
}

#[test]
fn timing_clamps_to_ten_minute_ceiling() {
    let big = accumulate_samples_timing_distribution(0, &vec![700_000_000_000]).unwrap();
    let ceiling = accumulate_samples_timing_distribution(0, &vec![600_000_000_000]).unwrap();
    assert_eq!(big.values, ceiling.values);
    assert_eq!(big.sum, 600_000_000_000);
}

#[test]
fn timing_converts_seconds_to_nanoseconds() {
    let snap = accumulate_samples_timing_distribution(3, &vec![1]).unwrap();
    assert_eq!(snap.sum, 1_000_000_000);
    assert_eq!(snap.count, 1);
}

#[test]
fn timing_invalid_unit_rejected() {
    let r = accumulate_samples_timing_distribution(-1, &vec![1, 2]);
    assert_eq!(r.err(), Some(Error::InvalidTimeUnit));
    let r = accumulate_samples_timing_distribution(7, &vec![1]);
    assert_eq!(r.err(), Some(Error::InvalidTimeUnit));
}

#[test]
fn timing_snapshot_keys_round_trip() {
    let snap = accumulate_samples_timing_distribution(0, &vec![1, 2, 3, 500, 77777]).unwrap();
    let keys: Vec<u64> = snap.values.iter().map(|e| e.0).collect();
    let again = accumulate_samples_timing_distribution(0, &keys).unwrap();
    let keys_again: Vec<u64> = again.values.iter().map(|e| e.0).collect();
    assert_eq!(keys, keys_again);
}

#[test]
fn memory_clamps_to_one_tebibyte() {
    let big = accumulate_samples_memory_distribution(0, &vec![1u64 << 41]).unwrap();
    let ceiling = accumulate_samples_memory_distribution(0, &vec![1u64 << 40]).unwrap();
    assert_eq!(big.values, ceiling.values);
    assert_eq!(big.sum, 1u64 << 40);
    assert_eq!(big.values, vec![(1u64 << 40, 1)]);
}

#[test]
fn memory_converts_kilobytes_to_bytes() {
    let snap = accumulate_samples_memory_distribution(1, &vec![1]).unwrap();
    assert_eq!(snap.sum, 1024);
    assert_eq!(snap.values, vec![(1024, 1)]);
}

#[test]
fn memory_invalid_unit_rejected() {
    let r = accumulate_samples_memory_distribution(99, &vec![1, 2, 3]);
    assert_eq!(r.err(), Some(Error::InvalidMemoryUnit));
    let r = accumulate_samples_memory_distribution(-1, &vec![1]);
    assert_eq!(r.err(), Some(Error::InvalidMemoryUnit));
}

#[test]
fn error_messages_are_nonempty() {
    assert!(!Error::InvalidHistogramType.message().is_empty());
    assert!(!Error::InvalidTimeUnit.message().is_empty());
    assert!(!Error::InvalidMemoryUnit.message().is_empty());
    assert!(!Error::InvalidRange.message().is_empty());
    assert!(!Error::InvalidBucketCount.message().is_empty());
}
