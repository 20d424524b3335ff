//! The exponential bucketing strategy.
//!
//! Bucket boundaries are precomputed once at construction by geometric
//! interpolation between `max(range_min, 1)` and `range_max`: the boundary
//! list for a segment is built by splitting the bucket budget in half around
//! the integer geometric mean (the floor square root of the product of the
//! endpoints) of the segment. Adjacent boundaries that would coincide are
//! merged, which shrinks the effective bucket count but keeps the boundary
//! sequence strictly increasing. Everything is exact integer arithmetic, so
//! the boundaries are identical on every host.

use vstd::prelude::*;
use crate::error::Error;

verus! {

/// `r` is the floor square root of `x`.
pub open spec fn is_sqrt(x: nat, r: nat) -> bool {
    r * r <= x < (r + 1) * (r + 1)
}

/// The floor square root of `x`.
pub open spec fn sqrt_val(x: nat) -> nat {
    choose|r: nat| is_sqrt(x, r)
}

/// Two floor square roots of the same number are equal.
proof fn lemma_sqrt_unique(x: nat, r1: nat, r2: nat)
    requires
        is_sqrt(x, r1),
        is_sqrt(x, r2),
    ensures
        r1 == r2,
{
    if r1 < r2 {
        assert((r1 + 1) * (r1 + 1) <= r2 * r2) by (nonlinear_arith)
            requires
                r1 + 1 <= r2,
        ;
    }
    if r2 < r1 {
        assert((r2 + 1) * (r2 + 1) <= r1 * r1) by (nonlinear_arith)
            requires
                r2 + 1 <= r1,
        ;
    }
}

/// The floor square root of a 128-bit number, by binary search.
fn isqrt_u128(x: u128) -> (r: u64)
    ensures
        is_sqrt(x as nat, r as nat),
{
    let mut lo: u128 = 0;
    let mut hi: u128 = 0x1_0000_0000_0000_0000;
    proof {
        assert(0x1_0000_0000_0000_0000 * 0x1_0000_0000_0000_0000 > x as int);
    }
    while lo + 1 < hi
        invariant
            lo < hi <= 0x1_0000_0000_0000_0000,
            (lo as int) * (lo as int) <= x as int,
            (hi as int) * (hi as int) > x as int,
        decreases hi - lo,
    {
        let mid = lo + (hi - lo) / 2;
        proof {
            assert((mid as u128) * (mid as u128) <= 0xffff_ffff_ffff_ffffu128
                * 0xffff_ffff_ffff_ffffu128) by (nonlinear_arith)
                requires
                    mid <= 0xffff_ffff_ffff_ffffu128,
            ;
        }
        if mid * mid <= x {
            lo = mid;
        } else {
            hi = mid;
        }
    }
    lo as u64
}

/// Boundaries for a segment `[lo, hi)` with a budget of `n` buckets:
/// the segment splits at the clamped integer geometric mean, half the
/// budget on each side. A segment too narrow to split yields a single
/// boundary: neighbouring buckets merge rather than repeat a boundary.
pub open spec fn spec_bounds(lo: u64, hi: u64, n: nat) -> Seq<u64>
    decreases n,
{
    if n <= 1 || hi <= lo + 1 {
        seq![lo]
    } else {
        let g = sqrt_val((lo * hi) as nat);
        let mid: u64 = if g <= lo as nat {
            (lo + 1) as u64
        } else if g >= hi as nat {
            (hi - 1) as u64
        } else {
            g as u64
        };
        spec_bounds(lo, mid, n / 2) + spec_bounds(mid, hi, (n - n / 2) as nat)
    }
}

/// The boundary list of a segment is strictly increasing, starts at the
/// segment's lower end, stays inside the segment, and never outgrows the
/// bucket budget.
pub proof fn lemma_spec_bounds_props(lo: u64, hi: u64, n: nat)
    requires
        1 <= lo < hi,
    ensures
        ({
            let s = spec_bounds(lo, hi, n);
            &&& s.len() >= 1
            &&& n >= 1 ==> s.len() <= n
            &&& s[0] == lo
            &&& forall|j: int| 0 <= j < s.len() ==> lo <= #[trigger] s[j] < hi
            &&& forall|j1: int, j2: int| 0 <= j1 < j2 < s.len() ==> s[j1] < s[j2]
        }),
    decreases n,
{
    let s = spec_bounds(lo, hi, n);
    if n <= 1 || hi <= lo + 1 {
        assert(s =~= seq![lo]);
    } else {
        let g = sqrt_val((lo * hi) as nat);
        let mid: u64 = if g <= lo as nat {
            (lo + 1) as u64
        } else if g >= hi as nat {
            (hi - 1) as u64
        } else {
            g as u64
        };
        assert(lo < mid < hi);
        lemma_spec_bounds_props(lo, mid, n / 2);
        lemma_spec_bounds_props(mid, hi, (n - n / 2) as nat);
        let l = spec_bounds(lo, mid, n / 2);
        let r = spec_bounds(mid, hi, (n - n / 2) as nat);
        assert(s == l + r);
        assert(s.len() == l.len() + r.len());
        assert(forall|j: int| 0 <= j < l.len() ==> s[j] == l[j]);
        assert(forall|j: int| l.len() <= j < s.len() ==> s[j] == r[j - l.len()]);
        assert(s[0] == lo);
    }
}

#[derive(Clone, Debug)]
pub struct ExponentialStrategy {
    /// The precomputed ascending bucket boundaries; samples at or above the
    /// last boundary fall into the final (overflow) bucket.
    pub boundaries: Vec<u64>,
}

/// The boundary list an exponential strategy is built with: geometric
/// interpolation from `max(range_min, 1)` toward `range_max` over
/// `bucket_count` buckets.
pub open spec fn spec_exp_bounds(range_min: u64, range_max: u64, bucket_count: nat) -> Seq<u64> {
    let lo: u64 = if range_min == 0 {
        1u64
    } else {
        range_min
    };
    if lo >= range_max {
        seq![lo]
    } else {
        spec_bounds(lo, range_max, bucket_count)
    }
}

/// Builds the boundary list of `spec_bounds` as a vector.
fn build_bounds(lo: u64, hi: u64, n: u64) -> (v: Vec<u64>)
    requires
        1 <= lo < hi,
    ensures
        v@ == spec_bounds(lo, hi, n as nat),
    decreases n,
{
    if n <= 1 || hi <= lo + 1 {
        let mut v: Vec<u64> = Vec::new();
        v.push(lo);
        proof {
            assert(v@ =~= seq![lo]);
        }
        v
    } else {
        proof {
            assert((lo as u128) * (hi as u128) <= 0xffff_ffff_ffff_ffffu128
                * 0xffff_ffff_ffff_ffffu128) by (nonlinear_arith)
                requires
                    lo <= 0xffff_ffff_ffff_ffffu64,
                    hi <= 0xffff_ffff_ffff_ffffu64,
            ;
        }
        let product: u128 = (lo as u128) * (hi as u128);
        let g = isqrt_u128(product);
        proof {
            let gs = sqrt_val((lo * hi) as nat);
            assert(is_sqrt((lo * hi) as nat, g as nat));
            assert(is_sqrt((lo * hi) as nat, gs));
            lemma_sqrt_unique((lo * hi) as nat, g as nat, gs);
        }
        let mid: u64 = if g <= lo {
            lo + 1
        } else if g >= hi {
            hi - 1
        } else {
            g
        };
        let mut left = build_bounds(lo, mid, n / 2);
        let mut right = build_bounds(mid, hi, n - n / 2);
        left.append(&mut right);
        left
    }
}

impl ExponentialStrategy {
    pub open spec fn wf(self) -> bool {
        &&& self.boundaries@.len() >= 1
        &&& self.boundaries@[0] >= 1
        &&& forall|j1: int, j2: int|
            0 <= j1 < j2 < self.boundaries@.len() ==> self.boundaries@[j1] < self.boundaries@[j2]
    }

    /// `j` is the bucket index of sample `s`: the last bucket whose boundary
    /// does not exceed `s`, with underflow collapsing into bucket zero and
    /// overflow into the final bucket.
    pub open spec fn exp_index_ok(self, s: u64, j: nat) -> bool {
        if s < self.boundaries@[0] {
            j == 0
        } else {
            &&& j < self.boundaries@.len()
            &&& self.boundaries@[j as int] <= s
            &&& (j + 1 == self.boundaries@.len() || s < self.boundaries@[j as int + 1])
        }
    }

    /// The bucket index of sample `s`.
    pub open spec fn spec_index(self, s: u64) -> nat {
        choose|j: nat| self.exp_index_ok(s, j)
    }

    /// The lower bound of bucket `j`.
    pub open spec fn spec_lower(self, j: nat) -> u64 {
        self.boundaries@[j as int]
    }

    /// Two indices that both satisfy the index characterization are equal.
    pub proof fn lemma_index_unique(self, s: u64, j1: nat, j2: nat)
        requires
            self.wf(),
            self.exp_index_ok(s, j1),
            self.exp_index_ok(s, j2),
        ensures
            j1 == j2,
    {
        if s >= self.boundaries@[0] {
            if j1 < j2 {
                assert(self.boundaries@[j1 as int + 1] <= self.boundaries@[j2 as int]);
            }
            if j2 < j1 {
                assert(self.boundaries@[j2 as int + 1] <= self.boundaries@[j1 as int]);
            }
        }
    }

    /// Creates an exponential strategy over `[range_min, range_max)` with at
    /// most `bucket_count` buckets; the configuration is validated.
    pub fn exponential(range_min: u64, range_max: u64, bucket_count: usize) -> (r: Result<
        Self,
        Error,
    >)
        ensures
            bucket_count == 0 ==> r == Err::<Self, Error>(Error::InvalidBucketCount),
            bucket_count > 0 && range_max <= range_min ==> r == Err::<Self, Error>(
                Error::InvalidRange,
            ),
            bucket_count > 0 && range_min < range_max ==> r is Ok && r->Ok_0.boundaries@
                == spec_exp_bounds(range_min, range_max, bucket_count as nat),
            r is Ok ==> r->Ok_0.wf(),
    {
        if bucket_count == 0 {
            Err(Error::InvalidBucketCount)
        } else if range_max <= range_min {
            Err(Error::InvalidRange)
        } else {
            let lo: u64 = if range_min == 0 {
                1
            } else {
                range_min
            };
            if lo >= range_max {
                let mut v: Vec<u64> = Vec::new();
                v.push(lo);
                proof {
                    assert(v@ =~= seq![lo]);
                }
                Ok(ExponentialStrategy { boundaries: v })
            } else {
                let v = build_bounds(lo, range_max, bucket_count as u64);
                proof {
                    lemma_spec_bounds_props(lo, range_max, (bucket_count as u64) as nat);
                }
                Ok(ExponentialStrategy { boundaries: v })
            }
        }
    }

    /// Maps a sample to its bucket index, by binary search over the
    /// precomputed boundaries.
    pub fn bucket_index(&self, sample: u64) -> (i: u64)
        requires
            self.wf(),
        ensures
            self.exp_index_ok(sample, i as nat),
            i as nat == self.spec_index(sample),
            i < self.boundaries@.len(),
    {
        let i: u64 = if sample < self.boundaries[0] {
            0
        } else {
            let mut lo: usize = 0;
            let mut hi: usize = self.boundaries.len();
            while lo + 1 < hi
                invariant
                    self.wf(),
                    lo < hi <= self.boundaries@.len(),
                    self.boundaries@[lo as int] <= sample,
                    hi == self.boundaries@.len() || sample < self.boundaries@[hi as int],
                decreases hi - lo,
            {
                let mid = lo + (hi - lo) / 2;
                if self.boundaries[mid] <= sample {
                    lo = mid;
                } else {
                    hi = mid;
                }
            }
            lo as u64
        };
        proof {
            let jj = choose|j: nat| self.exp_index_ok(sample, j);
            assert(self.exp_index_ok(sample, i as nat));
            self.lemma_index_unique(sample, i as nat, jj);
        }
        i
    }

    /// Maps a bucket index to the bucket's lower bound, the key under which
    /// the bucket is reported.
    pub fn bucket_lower_bound(&self, index: u64) -> (v: u64)
        requires
            self.wf(),
            index < self.boundaries@.len(),
        ensures
            v == self.spec_lower(index as nat),
    {
        let n = self.boundaries.len();
        proof {
            assert(index < n);
        }
        self.boundaries[index as usize]
    }

    /// Feeding a bucket's boundary back through `bucket_index` yields the
    /// same bucket: the sample-to-key mapping is idempotent.
    pub proof fn lemma_roundtrip(self, j: nat)
        requires
            self.wf(),
            j < self.boundaries@.len(),
        ensures
            self.spec_index(self.spec_lower(j)) == j,
    {
        let b = self.boundaries@[j as int];
        if j > 0 {
            assert(self.boundaries@[0] < self.boundaries@[j as int]);
        }
        assert(self.exp_index_ok(b, j));
        let jj = choose|k: nat| self.exp_index_ok(b, k);
        self.lemma_index_unique(b, j, jj);
    }
}

/// The boundary list is a function of the configuration alone: two
/// strategies built from the same parameters have bit-identical boundaries.
pub proof fn lemma_exponential_deterministic(
    s1: ExponentialStrategy,
    s2: ExponentialStrategy,
    range_min: u64,
    range_max: u64,
    bucket_count: nat,
)
    requires
        s1.boundaries@ == spec_exp_bounds(range_min, range_max, bucket_count),
        s2.boundaries@ == spec_exp_bounds(range_min, range_max, bucket_count),
    ensures
        s1.boundaries@ == s2.boundaries@,
{
}

/// The boundary list starts at `max(range_min, 1)` and is strictly
/// increasing: no two buckets share a lower bound.
pub proof fn lemma_exponential_boundaries(range_min: u64, range_max: u64, bucket_count: nat)
    requires
        range_min < range_max,
        bucket_count >= 1,
    ensures
        ({
            let s = spec_exp_bounds(range_min, range_max, bucket_count);
            &&& s.len() >= 1
            &&& s.len() <= bucket_count
            &&& s[0] == if range_min == 0 {
                1u64
            } else {
                range_min
            }
            &&& forall|j1: int, j2: int| 0 <= j1 < j2 < s.len() ==> s[j1] < s[j2]
        }),
{
    let lo: u64 = if range_min == 0 {
        1u64
    } else {
        range_min
    };
    if lo < range_max {
        lemma_spec_bounds_props(lo, range_max, bucket_count);
    }
}

} // verus!
