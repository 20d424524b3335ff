//! A histogram engine for telemetry instrumentation.
//!
//! Raw numeric samples (durations, memory sizes, arbitrary counts) are
//! accumulated into a compact frequency distribution under one of three
//! bucketing strategies: linear, exponential, and functional (logarithmic).
//! All bucket arithmetic is exact integer arithmetic, so bucket boundaries
//! are identical on every host.

mod bignum;
mod distribution;
mod error;
mod exponential;
mod functional;
mod histogram;
mod linear;
mod units;
mod util;

pub use distribution::{
    accumulate_samples_custom_distribution, accumulate_samples_memory_distribution,
    accumulate_samples_timing_distribution, fold_sum, memory_transform,
    spec_distribution_values, spec_memory_unit, spec_time_unit, timing_transform, LOG_BASE,
    MAX_BYTES, MAX_SAMPLE_TIME, MEMORY_BUCKETS_PER_MAGNITUDE, TIMING_BUCKETS_PER_MAGNITUDE,
};
pub use error::Error;
pub use exponential::{
    lemma_exponential_boundaries, lemma_exponential_deterministic, spec_exp_bounds,
    ExponentialStrategy,
};
pub use functional::FunctionalStrategy;
pub use histogram::{
    entries_sorted, fold_entries, has_key, lemma_counts_sum_to_sample_count,
    lemma_key_roundtrip, merge_adjacent, spec_bump, total_count, Histogram, Snapshot, Strategy,
};
pub use linear::LinearStrategy;
pub use units::{MemoryUnit, TimeUnit};
pub use util::FloatingPointContext;
