//! The distribution entry points.
//!
//! Each validates its discriminant codes, builds a fresh histogram, feeds
//! every sample through the configured pre-processing, and returns the
//! snapshot. Invalid codes are rejected before any sample is processed, so
//! a failed call is always distinguishable from an empty histogram.

use vstd::prelude::*;
use crate::error::Error;
use crate::functional::FunctionalStrategy;
use crate::histogram::{
    entries_sorted, fold_entries, merge_adjacent, total_count, Histogram, Snapshot, Strategy,
};
use crate::linear::LinearStrategy;
use crate::units::{sat_add, sat_mul, MemoryUnit, TimeUnit};
use crate::util::FloatingPointContext;

verus! {

/// The base of the logarithm used by the timing and memory distributions.
pub const LOG_BASE: u64 = 2;

/// Bucket density for timing distributions.
pub const TIMING_BUCKETS_PER_MAGNITUDE: u64 = 8;

/// Bucket density for memory distributions.
pub const MEMORY_BUCKETS_PER_MAGNITUDE: u64 = 16;

/// The timing ceiling: ten minutes in nanoseconds, applied to the raw
/// sample before unit conversion.
pub const MAX_SAMPLE_TIME: u64 = 600_000_000_000;

/// The memory ceiling: one tebibyte in bytes, applied after unit
/// conversion.
pub const MAX_BYTES: u64 = 1_099_511_627_776;

/// What a snapshot of `strategy` reports after accumulating `samples` in
/// order: the folded per-bucket counts, keyed by bucket lower bound, equal
/// keys merged.
pub open spec fn spec_distribution_values(strat: Strategy, samples: Seq<u64>) -> Seq<(u64, u64)> {
    merge_adjacent(
        fold_entries(strat, samples).map_values(
            |e: (u64, u64)| ((strat.spec_lower_key(e.0)) as u64, e.1),
        ),
    )
}

/// The running sum after accumulating `samples` in order, saturating at
/// `u64::MAX`.
pub open spec fn fold_sum(samples: Seq<u64>) -> nat
    decreases samples.len(),
{
    if samples.len() == 0 {
        0
    } else {
        sat_add(fold_sum(samples.drop_last()), samples.last() as nat)
    }
}

/// A timing sample after pre-processing: zero promotes to one, anything
/// above the ten-minute ceiling clamps to it — both on the raw value — and
/// the result converts to nanoseconds.
pub open spec fn timing_transform(u: TimeUnit, s: u64) -> nat {
    let c: u64 = if s == 0 {
        1u64
    } else if s > MAX_SAMPLE_TIME {
        MAX_SAMPLE_TIME
    } else {
        s
    };
    sat_mul(c as nat, u.spec_factor())
}

/// A memory sample after pre-processing: the raw value converts to bytes
/// first, then clamps to the one-tebibyte ceiling.
pub open spec fn memory_transform(u: MemoryUnit, s: u64) -> nat {
    let b = sat_mul(s as nat, u.spec_factor());
    if b > MAX_BYTES {
        MAX_BYTES as nat
    } else {
        b
    }
}

/// The time unit a valid code names.
pub open spec fn spec_time_unit(code: i32) -> TimeUnit {
    if code == 1 {
        TimeUnit::Microsecond
    } else if code == 2 {
        TimeUnit::Millisecond
    } else if code == 3 {
        TimeUnit::Second
    } else if code == 4 {
        TimeUnit::Minute
    } else if code == 5 {
        TimeUnit::Hour
    } else if code == 6 {
        TimeUnit::Day
    } else {
        TimeUnit::Nanosecond
    }
}

/// The memory unit a valid code names.
pub open spec fn spec_memory_unit(code: i32) -> MemoryUnit {
    if code == 1 {
        MemoryUnit::Kilobyte
    } else if code == 2 {
        MemoryUnit::Megabyte
    } else if code == 3 {
        MemoryUnit::Gigabyte
    } else {
        MemoryUnit::Byte
    }
}

/// Accumulates `samples` into a fresh histogram and returns its sparse
/// bucket map.
fn run_histogram(hist: &mut Histogram, samples: &Vec<u64>) -> (r: Vec<(u64, u64)>)
    requires
        old(hist).wf(),
        old(hist).spec_entries() == Seq::<(u64, u64)>::empty(),
        old(hist).spec_sample_count() == 0,
        old(hist).spec_sum() == 0,
    ensures
        r@ == spec_distribution_values(old(hist).spec_strategy(), samples@),
        entries_sorted(r@),
        total_count(r@) == samples@.len(),
        final(hist).spec_sum() as nat == fold_sum(samples@),
        final(hist).spec_sample_count() == samples@.len(),
        final(hist).wf(),
{
    let ghost strat = hist.spec_strategy();
    let mut i: usize = 0;
    proof {
        assert(samples@.take(0) =~= Seq::<u64>::empty());
    }
    while i < samples.len()
        invariant
            hist.wf(),
            hist.spec_strategy() == strat,
            i <= samples@.len(),
            hist.spec_entries() == fold_entries(strat, samples@.take(i as int)),
            hist.spec_sample_count() == i,
            hist.spec_sum() as nat == fold_sum(samples@.take(i as int)),
        decreases samples@.len() - i,
    {
        let s = samples[i];
        proof {
            assert(samples@.take(i as int + 1).drop_last() =~= samples@.take(i as int));
            assert(samples@.take(i as int + 1).last() == samples@[i as int]);
        }
        hist.accumulate(s);
        i += 1;
    }
    proof {
        assert(samples@.take(samples@.len() as int) =~= samples@);
    }
    hist.snapshot_values()
}

/// A custom distribution: `histogram_type` selects linear (`0`) or
/// exponential (`1`) bucketing over `[range_min, range_max)` with
/// `bucket_count` buckets; samples accumulate in the caller's own unit and
/// the sparse bucket map comes back. An unknown type code or an invalid
/// configuration is rejected before any sample is processed.
pub fn accumulate_samples_custom_distribution(
    range_min: u32,
    range_max: u32,
    bucket_count: usize,
    histogram_type: i32,
    samples: &Vec<u64>,
) -> (r: Result<Vec<(u64, u64)>, Error>)
    ensures
        !(histogram_type == 0 || histogram_type == 1) ==> r is Err && r->Err_0
            == Error::InvalidHistogramType,
        (histogram_type == 0 || histogram_type == 1) && bucket_count == 0 ==> r is Err
            && r->Err_0 == Error::InvalidBucketCount,
        (histogram_type == 0 || histogram_type == 1) && bucket_count > 0 && range_max
            <= range_min ==> r is Err && r->Err_0 == Error::InvalidRange,
        histogram_type == 0 && bucket_count > 0 && range_min < range_max ==> r is Ok
            && r->Ok_0@ == spec_distribution_values(
            Strategy::Linear(
                LinearStrategy {
                    range_min: range_min as u64,
                    range_max: range_max as u64,
                    bucket_count: bucket_count as u64,
                },
            ),
            samples@,
        ),
        histogram_type == 1 && bucket_count > 0 && range_min < range_max ==> r is Ok
            && (exists|strat: Strategy|
            (strat matches Strategy::Exponential(e)
                && e.boundaries@ == crate::exponential::spec_exp_bounds(
                range_min as u64,
                range_max as u64,
                bucket_count as nat,
            )) && r->Ok_0@ == #[trigger] spec_distribution_values(strat, samples@)),
        r is Ok ==> entries_sorted(r->Ok_0@) && total_count(r->Ok_0@) == samples@.len(),
{
    if histogram_type != 0 && histogram_type != 1 {
        return Err(Error::InvalidHistogramType);
    }
    let _fpc = FloatingPointContext::new();
    let hist_result = if histogram_type == 0 {
        Histogram::linear(range_min as u64, range_max as u64, bucket_count)
    } else {
        Histogram::exponential(range_min as u64, range_max as u64, bucket_count)
    };
    match hist_result {
        Ok(mut hist) => {
            let values = run_histogram(&mut hist, samples);
            Ok(values)
        },
        Err(e) => Err(e),
    }
}

/// A timing distribution: samples arrive in the unit named by `time_unit`;
/// each is promoted from zero to one, clamped to the ten-minute ceiling,
/// converted to nanoseconds, and accumulated into a functional strategy
/// with eight buckets per power of two. An unknown unit code is rejected
/// before any sample is processed.
pub fn accumulate_samples_timing_distribution(time_unit: i32, samples: &Vec<u64>) -> (r: Result<
    Snapshot,
    Error,
>)
    ensures
        time_unit < 0 || time_unit > 6 ==> r is Err && r->Err_0 == Error::InvalidTimeUnit,
        0 <= time_unit <= 6 ==> r is Ok && ({
            let u = spec_time_unit(time_unit);
            let t = samples@.map_values(|s: u64| timing_transform(u, s) as u64);
            &&& r->Ok_0.values@ == spec_distribution_values(
                Strategy::Functional(
                    FunctionalStrategy {
                        log_base: LOG_BASE,
                        buckets_per_magnitude: TIMING_BUCKETS_PER_MAGNITUDE,
                    },
                ),
                t,
            )
            &&& entries_sorted(r->Ok_0.values@)
            &&& total_count(r->Ok_0.values@) == samples@.len()
            &&& r->Ok_0.sum as nat == fold_sum(t)
            &&& r->Ok_0.count == samples@.len()
        }),
{
    let unit = match TimeUnit::from_code(time_unit) {
        Ok(u) => u,
        Err(e) => {
            return Err(e);
        },
    };
    let _fpc = FloatingPointContext::new();
    let mut hist = match Histogram::functional(LOG_BASE, TIMING_BUCKETS_PER_MAGNITUDE) {
        Ok(h) => h,
        Err(e) => {
            return Err(e);
        },
    };
    let ghost t = samples@.map_values(|s: u64| timing_transform(unit, s) as u64);
    let mut converted: Vec<u64> = Vec::new();
    let mut i: usize = 0;
    proof {
        assert(converted@ =~= t.take(0));
    }
    while i < samples.len()
        invariant
            i <= samples@.len(),
            t == samples@.map_values(|s: u64| timing_transform(unit, s) as u64),
            converted@ == t.take(i as int),
        decreases samples@.len() - i,
    {
        let s0 = samples[i];
        let c: u64 = if s0 == 0 {
            1
        } else if s0 > MAX_SAMPLE_TIME {
            MAX_SAMPLE_TIME
        } else {
            s0
        };
        let ns = unit.as_nanos(c);
        proof {
            assert(t[i as int] == ns);
            assert(t.take(i as int + 1) =~= t.take(i as int).push(ns));
        }
        converted.push(ns);
        i += 1;
    }
    proof {
        assert(t.take(t.len() as int) =~= t);
    }
    let values = run_histogram(&mut hist, &converted);
    let sum = hist.sum();
    let count = hist.sample_count();
    proof {
        assert(spec_time_unit(time_unit) == unit);
    }
    Ok(Snapshot { values, sum, count })
}

/// A memory distribution: samples arrive in the unit named by
/// `memory_unit`; each converts to bytes and then clamps to the
/// one-tebibyte ceiling before accumulating into a functional strategy
/// with sixteen buckets per power of two. An unknown unit code is rejected
/// before any sample is processed.
pub fn accumulate_samples_memory_distribution(memory_unit: i32, samples: &Vec<u64>) -> (r: Result<
    Snapshot,
    Error,
>)
    ensures
        memory_unit < 0 || memory_unit > 3 ==> r is Err && r->Err_0 == Error::InvalidMemoryUnit,
        0 <= memory_unit <= 3 ==> r is Ok && ({
            let u = spec_memory_unit(memory_unit);
            let t = samples@.map_values(|s: u64| memory_transform(u, s) as u64);
            &&& r->Ok_0.values@ == spec_distribution_values(
                Strategy::Functional(
                    FunctionalStrategy {
                        log_base: LOG_BASE,
                        buckets_per_magnitude: MEMORY_BUCKETS_PER_MAGNITUDE,
                    },
                ),
                t,
            )
            &&& entries_sorted(r->Ok_0.values@)
            &&& total_count(r->Ok_0.values@) == samples@.len()
            &&& r->Ok_0.sum as nat == fold_sum(t)
            &&& r->Ok_0.count == samples@.len()
        }),
{
    let unit = match MemoryUnit::from_code(memory_unit) {
        Ok(u) => u,
        Err(e) => {
            return Err(e);
        },
    };
    let _fpc = FloatingPointContext::new();
    let mut hist = match Histogram::functional(LOG_BASE, MEMORY_BUCKETS_PER_MAGNITUDE) {
        Ok(h) => h,
        Err(e) => {
            return Err(e);
        },
    };
    let ghost t = samples@.map_values(|s: u64| memory_transform(unit, s) as u64);
    let mut converted: Vec<u64> = Vec::new();
    let mut i: usize = 0;
    proof {
        assert(converted@ =~= t.take(0));
    }
    while i < samples.len()
        invariant
            i <= samples@.len(),
            t == samples@.map_values(|s: u64| memory_transform(unit, s) as u64),
            converted@ == t.take(i as int),
        decreases samples@.len() - i,
    {
        let s0 = samples[i];
        let b = unit.as_bytes(s0);
        let m: u64 = if b > MAX_BYTES {
            MAX_BYTES
        } else {
            b
        };
        proof {
            assert(t[i as int] == m);
            assert(t.take(i as int + 1) =~= t.take(i as int).push(m));
        }
        converted.push(m);
        i += 1;
    }
    proof {
        assert(t.take(t.len() as int) =~= t);
    }
    let values = run_histogram(&mut hist, &converted);
    let sum = hist.sum();
    let count = hist.sample_count();
    proof {
        assert(spec_memory_unit(memory_unit) == unit);
    }
    Ok(Snapshot { values, sum, count })
}

} // verus!
