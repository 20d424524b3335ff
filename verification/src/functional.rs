//! The functional (logarithmic) bucketing strategy.
//!
//! Open-ended: no upper range and no precomputed table. For a sample `s >= 1`
//! the bucket index is `floor(buckets_per_magnitude * log_base(s))`, computed
//! exactly as the floor of the base-`log_base` logarithm of
//! `s^buckets_per_magnitude`; a sample of `0` is treated as `1`, a meaningful
//! low-magnitude sample rather than an error. The bucket's lower bound is
//! `ceil(log_base^(index / buckets_per_magnitude))`: the least `v` with
//! `v^buckets_per_magnitude >= log_base^index`.

use vstd::prelude::*;
use vstd::arithmetic::power::*;
use crate::bignum::{big_log_floor, big_pow, lemma_pow_base_le};
use crate::error::Error;

verus! {

/// The largest accepted `buckets_per_magnitude`, so that intermediate powers
/// stay of modest size.
pub const MAX_BUCKETS_PER_MAGNITUDE: u64 = 65536;

#[derive(Clone, Copy, Debug, PartialEq, Eq, Structural)]
pub struct FunctionalStrategy {
    /// The base of the logarithm that drives bucketing; at least two.
    pub log_base: u64,
    /// How many buckets each order of magnitude of the logarithm is split
    /// into; at least one.
    pub buckets_per_magnitude: u64,
}

/// A sample as the strategy sees it: zero is promoted to one, so the
/// logarithm is always defined.
pub open spec fn fun_sample(s: u64) -> u64 {
    if s == 0 {
        1u64
    } else {
        s
    }
}

impl FunctionalStrategy {
    pub open spec fn wf(self) -> bool {
        &&& self.log_base >= 2
        &&& 1 <= self.buckets_per_magnitude <= MAX_BUCKETS_PER_MAGNITUDE
    }

    /// `log_base^e`, the strategy's geometric scale.
    pub open spec fn base_pow(self, e: nat) -> int {
        pow(self.log_base as int, e)
    }

    /// `fun_sample(s)^buckets_per_magnitude`: comparing this against powers
    /// of `log_base` realizes `floor(buckets_per_magnitude * log_base(s))`
    /// in exact integer arithmetic.
    pub open spec fn sample_pow(self, s: u64) -> int {
        pow(fun_sample(s) as int, self.buckets_per_magnitude as nat)
    }

    /// `k` is the bucket index of sample `s`: the unique `k` with
    /// `log_base^k <= fun_sample(s)^buckets_per_magnitude < log_base^(k+1)`.
    pub open spec fn fun_index_ok(self, s: u64, k: nat) -> bool {
        self.base_pow(k) <= self.sample_pow(s) < self.base_pow(k + 1)
    }

    /// The bucket index of sample `s`.
    pub open spec fn spec_index(self, s: u64) -> nat {
        choose|k: nat| self.fun_index_ok(s, k)
    }

    /// `v` is the lower bound of bucket `k`: the least value whose
    /// `buckets_per_magnitude`-th power reaches `log_base^k`, saturating at
    /// `u64::MAX` for indices no 64-bit sample reaches.
    pub open spec fn fun_lb_ok(self, k: nat, v: u64) -> bool {
        &&& v >= 1
        &&& (pow(v as int, self.buckets_per_magnitude as nat) >= self.base_pow(k) || v
            == u64::MAX)
        &&& forall|w: u64|
            1 <= w < v ==> pow(w as int, self.buckets_per_magnitude as nat) < self.base_pow(k)
    }

    /// The lower bound of bucket `k`.
    pub open spec fn spec_lower(self, k: nat) -> u64 {
        choose|v: u64| self.fun_lb_ok(k, v)
    }

    /// Creates a functional strategy; both parameters are validated.
    pub fn functional(log_base: u64, buckets_per_magnitude: u64) -> (r: Result<Self, Error>)
        ensures
            log_base < 2 ==> r == Err::<Self, Error>(Error::InvalidLogBase),
            log_base >= 2 && !(1 <= buckets_per_magnitude <= MAX_BUCKETS_PER_MAGNITUDE) ==> r
                == Err::<Self, Error>(Error::InvalidBucketsPerMagnitude),
            log_base >= 2 && 1 <= buckets_per_magnitude <= MAX_BUCKETS_PER_MAGNITUDE ==> r
                == Ok::<Self, Error>(
                FunctionalStrategy { log_base, buckets_per_magnitude },
            ),
            r is Ok ==> r->Ok_0.wf(),
    {
        if log_base < 2 {
            Err(Error::InvalidLogBase)
        } else if buckets_per_magnitude < 1 || buckets_per_magnitude > MAX_BUCKETS_PER_MAGNITUDE {
            Err(Error::InvalidBucketsPerMagnitude)
        } else {
            Ok(FunctionalStrategy { log_base, buckets_per_magnitude })
        }
    }

    /// Two indices that both satisfy the index characterization are equal.
    pub proof fn lemma_index_unique(self, s: u64, k1: nat, k2: nat)
        requires
            self.wf(),
            self.fun_index_ok(s, k1),
            self.fun_index_ok(s, k2),
        ensures
            k1 == k2,
    {
        if k1 < k2 {
            lemma_pow_increases(self.log_base as nat, k1 + 1, k2);
        }
        if k2 < k1 {
            lemma_pow_increases(self.log_base as nat, k2 + 1, k1);
        }
    }

    /// Lower bounds are monotone in the bucket index.
    pub proof fn lemma_lower_monotone(self, k1: nat, k2: nat, v1: u64, v2: u64)
        requires
            self.wf(),
            k1 <= k2,
            self.fun_lb_ok(k1, v1),
            self.fun_lb_ok(k2, v2),
        ensures
            v1 <= v2,
    {
        if v2 < v1 {
            lemma_pow_increases(self.log_base as nat, k1, k2);
            assert(pow(v2 as int, self.buckets_per_magnitude as nat) < self.base_pow(k1));
        }
    }

    /// Two values that both satisfy the lower-bound characterization are
    /// equal.
    pub proof fn lemma_lower_unique(self, k: nat, v1: u64, v2: u64)
        requires
            self.wf(),
            self.fun_lb_ok(k, v1),
            self.fun_lb_ok(k, v2),
        ensures
            v1 == v2,
    {
        self.lemma_lower_monotone(k, k, v1, v2);
        self.lemma_lower_monotone(k, k, v2, v1);
    }

    /// Maps a sample to its bucket index.
    pub fn bucket_index(&self, sample: u64) -> (k: u64)
        requires
            self.wf(),
        ensures
            self.fun_index_ok(sample, k as nat),
            k as nat == self.spec_index(sample),
    {
        let s: u64 = if sample == 0 {
            1
        } else {
            sample
        };
        let mut p = big_pow(s, self.buckets_per_magnitude);
        proof {
            lemma_pow_positive(s as int, self.buckets_per_magnitude as nat);
        }
        let k = big_log_floor(&mut p, self.log_base);
        proof {
            let kk = choose|j: nat| self.fun_index_ok(sample, j);
            assert(self.fun_index_ok(sample, k as nat));
            self.lemma_index_unique(sample, k as nat, kk);
        }
        k
    }

    /// Whether `v^buckets_per_magnitude` reaches `log_base^k`.
    fn reaches(&self, v: u64, k: u64) -> (r: bool)
        requires
            self.wf(),
            v >= 1,
        ensures
            r <==> pow(v as int, self.buckets_per_magnitude as nat) >= self.base_pow(k as nat),
    {
        let mut p = big_pow(v, self.buckets_per_magnitude);
        proof {
            lemma_pow_positive(v as int, self.buckets_per_magnitude as nat);
        }
        let l = big_log_floor(&mut p, self.log_base);
        proof {
            if l >= k {
                lemma_pow_increases(self.log_base as nat, k as nat, l as nat);
            } else {
                lemma_pow_increases(self.log_base as nat, (l + 1) as nat, k as nat);
            }
        }
        l >= k
    }

    /// Maps a bucket index to the bucket's lower bound, the key under which
    /// the bucket is reported.
    pub fn bucket_lower_bound(&self, index: u64) -> (v: u64)
        requires
            self.wf(),
        ensures
            self.fun_lb_ok(index as nat, v),
            v == self.spec_lower(index as nat),
    {
        let bpm = self.buckets_per_magnitude;
        let v: u64 = if self.reaches(1, index) {
            1
        } else if !self.reaches(u64::MAX, index) {
            proof {
                assert forall|w: u64| 1 <= w < u64::MAX implies pow(w as int, bpm as nat)
                    < self.base_pow(index as nat) by {
                    lemma_pow_base_le(w as nat, u64::MAX as nat, bpm as nat);
                }
            }
            u64::MAX
        } else {
            let mut lo: u64 = 1;
            let mut hi: u64 = u64::MAX;
            while lo + 1 < hi
                invariant
                    self.wf(),
                    bpm == self.buckets_per_magnitude,
                    1 <= lo < hi <= u64::MAX,
                    pow(lo as int, bpm as nat) < self.base_pow(index as nat),
                    pow(hi as int, bpm as nat) >= self.base_pow(index as nat),
                decreases hi - lo,
            {
                let mid = lo + (hi - lo) / 2;
                if self.reaches(mid, index) {
                    hi = mid;
                } else {
                    lo = mid;
                }
            }
            proof {
                assert forall|w: u64| 1 <= w < hi implies pow(w as int, bpm as nat)
                    < self.base_pow(index as nat) by {
                    lemma_pow_base_le(w as nat, lo as nat, bpm as nat);
                }
            }
            hi
        };
        proof {
            let vv = choose|u: u64| self.fun_lb_ok(index as nat, u);
            assert(self.fun_lb_ok(index as nat, v));
            self.lemma_lower_unique(index as nat, v, vv);
        }
        v
    }

    /// A sample of zero lands in the same bucket as a sample of one.
    pub proof fn lemma_zero_as_one(self, k: nat)
        ensures
            self.fun_index_ok(0, k) <==> self.fun_index_ok(1, k),
    {
        assert(fun_sample(0) == fun_sample(1));
    }

    /// With base two, doubling a sample advances the bucket index by exactly
    /// `buckets_per_magnitude`.
    pub proof fn lemma_doubling(self, s: u64, k: nat)
        requires
            self.wf(),
            self.log_base == 2,
            1 <= s,
            2 * s <= u64::MAX,
            self.fun_index_ok(s, k),
        ensures
            self.fun_index_ok((2 * s) as u64, k + self.buckets_per_magnitude as nat),
    {
        let m = self.buckets_per_magnitude as nat;
        let d = (2 * s) as u64;
        assert(fun_sample(d) == d);
        assert(fun_sample(s) == s);
        lemma_pow_distributes(2, s as int, m);
        assert(self.sample_pow(d) == pow(2, m) * pow(s as int, m));
        lemma_pow_adds(2, k, m);
        lemma_pow_adds(2, k + 1, m);
        lemma_pow_positive(2, m);
        let p2m = pow(2, m);
        let ps = pow(s as int, m);
        let pk = pow(2, k);
        let pk1 = pow(2, k + 1);
        assert(pk * p2m <= ps * p2m) by (nonlinear_arith)
            requires
                pk <= ps,
                p2m > 0,
        ;
        assert(ps * p2m < pk1 * p2m) by (nonlinear_arith)
            requires
                ps < pk1,
                p2m > 0,
        ;
        assert(self.base_pow(k + m) == pk * p2m);
        assert(self.base_pow(k + 1 + m) == pk1 * p2m);
        assert(self.sample_pow(d) == p2m * ps);
        assert(p2m * ps == ps * p2m) by (nonlinear_arith);
    }

    /// Feeding a bucket's lower bound back through `bucket_index` yields the
    /// same bucket: the sample-to-key mapping is idempotent.
    pub proof fn lemma_roundtrip(self, s: u64, k: nat, v: u64)
        requires
            self.wf(),
            self.fun_index_ok(s, k),
            self.fun_lb_ok(k, v),
        ensures
            self.fun_index_ok(v, k),
    {
        let m = self.buckets_per_magnitude as nat;
        let sp = fun_sample(s);
        assert(pow(sp as int, m) >= self.base_pow(k));
        // the least satisfying value cannot exceed the witness `sp`
        assert(v <= sp);
        assert(pow(v as int, m) >= self.base_pow(k));
        lemma_pow_base_le(v as nat, sp as nat, m);
        assert(fun_sample(v) == v);
    }
}

} // verus!
