//! Validation errors reported by the engine's constructors and entry points.

use vstd::prelude::*;

verus! {

/// A configuration or discriminant-code error, reported to the caller before
/// any sample is accumulated. A failed call is always distinguishable from a
/// successful call that produced an empty histogram.
#[derive(Clone, Copy, Debug, PartialEq, Eq, Structural)]
pub enum Error {
    /// The `histogram_type` code names no known strategy.
    InvalidHistogramType,
    /// The `time_unit` code names no known time unit.
    InvalidTimeUnit,
    /// The `memory_unit` code names no known memory unit.
    InvalidMemoryUnit,
    /// A bounded strategy was configured with `range_max <= range_min`.
    InvalidRange,
    /// A bounded strategy was configured with `bucket_count == 0`.
    InvalidBucketCount,
    /// A functional strategy was configured with `log_base < 2`.
    InvalidLogBase,
    /// A functional strategy was configured with `buckets_per_magnitude`
    /// outside `1..=65536`.
    InvalidBucketsPerMagnitude,
}

impl Error {
    /// A short human-readable description of the error.
    pub fn message(&self) -> (r: &'static str)
        ensures
            r@.len() > 0,
    {
        let s: &'static str = match self {
            Error::InvalidHistogramType => "invalid value for histogram_type",
            Error::InvalidTimeUnit => "invalid value for time_unit",
            Error::InvalidMemoryUnit => "invalid value for memory_unit",
            Error::InvalidRange => "range_max must be greater than range_min",
            Error::InvalidBucketCount => "bucket_count must be non-zero",
            Error::InvalidLogBase => "log_base must be at least 2",
            Error::InvalidBucketsPerMagnitude => "buckets_per_magnitude out of range",
        };
        proof {
            reveal_strlit("invalid value for histogram_type");
            reveal_strlit("invalid value for time_unit");
            reveal_strlit("invalid value for memory_unit");
            reveal_strlit("range_max must be greater than range_min");
            reveal_strlit("bucket_count must be non-zero");
            reveal_strlit("log_base must be at least 2");
            reveal_strlit("buckets_per_magnitude out of range");
        }
        s
    }
}

} // verus!
