//! The linear bucketing strategy.
//!
//! `bucket_count` equal-width buckets partition `[range_min, range_max)`;
//! samples below the range collapse into the first bucket and samples at or
//! above the range into the last, so no sample is ever dropped. Bucket `i`
//! covers `[min + i*w, min + (i+1)*w)` with the exact rational width
//! `w = (max - min) / bucket_count`; the reported lower bound is the least
//! integer inside the bucket, `min + ceil(i * (max - min) / bucket_count)`,
//! so a bucket's key always maps back into the bucket itself.

use vstd::prelude::*;
use vstd::arithmetic::div_mod::*;
use crate::error::Error;

verus! {

#[derive(Clone, Copy, Debug, PartialEq, Eq, Structural)]
pub struct LinearStrategy {
    /// The inclusive lower end of the covered range.
    pub range_min: u64,
    /// The exclusive upper end of the covered range; strictly above
    /// `range_min`.
    pub range_max: u64,
    /// How many buckets partition the range; at least one.
    pub bucket_count: u64,
}

/// `(q * d + r) / d == q` whenever `0 <= r < d`.
proof fn lemma_div_exact_plus(q: int, d: int, r: int)
    requires
        d >= 1,
        0 <= r < d,
        q >= 0,
    ensures
        (q * d + r) / d == q,
        (q * d + r) % d == r,
{
    lemma_fundamental_div_mod_converse(q * d + r, d, q, r);
}

impl LinearStrategy {
    pub open spec fn wf(self) -> bool {
        &&& self.range_min < self.range_max
        &&& self.bucket_count >= 1
    }

    /// The bucket index of sample `s`: underflow and overflow clamp into the
    /// first and last bucket, and in between the index is
    /// `floor((s - min) / w)` with the exact rational bucket width.
    pub open spec fn spec_index(self, s: u64) -> nat {
        if s < self.range_min {
            0
        } else if s >= self.range_max {
            (self.bucket_count - 1) as nat
        } else {
            (((s - self.range_min) * self.bucket_count) / (self.range_max
                - self.range_min)) as nat
        }
    }

    /// The lower bound of bucket `i`: the least integer inside the bucket.
    pub open spec fn spec_lower(self, i: nat) -> int {
        self.range_min + (i * (self.range_max - self.range_min) + self.bucket_count - 1) / (
        self.bucket_count as int)
    }

    /// Creates a linear strategy over `[range_min, range_max)` with
    /// `bucket_count` buckets; the configuration is validated.
    pub fn linear(range_min: u64, range_max: u64, bucket_count: usize) -> (r: Result<
        Self,
        Error,
    >)
        ensures
            bucket_count == 0 ==> r == Err::<Self, Error>(Error::InvalidBucketCount),
            bucket_count > 0 && range_max <= range_min ==> r == Err::<Self, Error>(
                Error::InvalidRange,
            ),
            bucket_count > 0 && range_min < range_max ==> r == Ok::<Self, Error>(
                LinearStrategy { range_min, range_max, bucket_count: bucket_count as u64 },
            ),
            r is Ok ==> r->Ok_0.wf(),
    {
        if bucket_count == 0 {
            Err(Error::InvalidBucketCount)
        } else if range_max <= range_min {
            Err(Error::InvalidRange)
        } else {
            Ok(LinearStrategy { range_min, range_max, bucket_count: bucket_count as u64 })
        }
    }

    /// Maps a sample to its bucket index.
    pub fn bucket_index(&self, sample: u64) -> (i: u64)
        requires
            self.wf(),
        ensures
            i as nat == self.spec_index(sample),
            i < self.bucket_count,
    {
        if sample < self.range_min {
            0
        } else if sample >= self.range_max {
            self.bucket_count - 1
        } else {
            let diff = sample - self.range_min;
            proof {
                assert((diff as u128) * (self.bucket_count as u128) <= 0xffff_ffff_ffff_ffffu128
                    * 0xffff_ffff_ffff_ffffu128) by (nonlinear_arith)
                    requires
                        diff <= 0xffff_ffff_ffff_ffffu64,
                        self.bucket_count <= 0xffff_ffff_ffff_ffffu64,
                ;
            }
            let num: u128 = (diff as u128) * (self.bucket_count as u128);
            let den: u128 = (self.range_max - self.range_min) as u128;
            let q: u128 = num / den;
            proof {
                let sm = diff as int;
                let c = self.bucket_count as int;
                let r = (self.range_max - self.range_min) as int;
                assert(sm * c < r * c) by (nonlinear_arith)
                    requires
                        0 <= sm < r,
                        c >= 1,
                ;
                lemma_multiply_divide_lt(sm * c, r, c);
            }
            q as u64
        }
    }

    /// The lower bound of any bucket stays within the configured range.
    pub proof fn lemma_lower_in_range(self, i: nat)
        requires
            self.wf(),
            i < self.bucket_count,
        ensures
            self.range_min <= self.spec_lower(i) <= self.range_max,
    {
        let c = self.bucket_count as int;
        let r = (self.range_max - self.range_min) as int;
        let num = i * r + c - 1;
        assert(num <= r * c + c - 1) by (nonlinear_arith)
            requires
                0 <= i <= c - 1,
                r >= 1,
                c >= 1,
                num == i * r + c - 1,
        ;
        lemma_div_exact_plus(r, c, c - 1);
        lemma_div_is_ordered(num, r * c + c - 1, c);
        assert(num >= 0) by (nonlinear_arith)
            requires
                i >= 0,
                r >= 1,
                c >= 1,
                num == i * r + c - 1,
        ;
        lemma_div_pos_is_pos(num, c);
    }

    /// Maps a bucket index to the bucket's lower bound, the key under which
    /// the bucket is reported.
    pub fn bucket_lower_bound(&self, index: u64) -> (v: u64)
        requires
            self.wf(),
            index < self.bucket_count,
        ensures
            v as int == self.spec_lower(index as nat),
    {
        let width = self.range_max - self.range_min;
        proof {
            assert((index as u128) * (width as u128) <= 0xffff_ffff_ffff_ffffu128
                * 0xffff_ffff_ffff_ffffu128) by (nonlinear_arith)
                requires
                    index <= 0xffff_ffff_ffff_ffffu64,
                    width <= 0xffff_ffff_ffff_ffffu64,
            ;
        }
        let num: u128 = (index as u128) * (width as u128) + (self.bucket_count as u128) - 1;
        let q: u128 = num / (self.bucket_count as u128);
        proof {
            self.lemma_lower_in_range(index as nat);
        }
        self.range_min + (q as u64)
    }

    /// Lower bounds are monotone in the bucket index.
    pub proof fn lemma_lower_monotone(self, i1: nat, i2: nat)
        requires
            self.wf(),
            i1 <= i2,
        ensures
            self.spec_lower(i1) <= self.spec_lower(i2),
    {
        let c = self.bucket_count as int;
        let r = (self.range_max - self.range_min) as int;
        assert(i1 * r <= i2 * r) by (nonlinear_arith)
            requires
                0 <= i1 <= i2,
                r >= 1,
        ;
        lemma_div_is_ordered(i1 * r + c - 1, i2 * r + c - 1, c);
    }

    /// Feeding a bucket's lower bound back through `bucket_index` yields the
    /// same key: the sample-to-key mapping is idempotent.
    pub proof fn lemma_roundtrip(self, s: u64)
        requires
            self.wf(),
        ensures
            ({
                let key = self.spec_lower(self.spec_index(s));
                self.spec_lower(self.spec_index(key as u64)) == key
            }),
    {
        let c = self.bucket_count as int;
        let r = (self.range_max - self.range_min) as int;
        let min = self.range_min as int;
        let i = self.spec_index(s) as int;
        assert(i < c) by {
            if self.range_min <= s < self.range_max {
                let sm = (s - self.range_min) as int;
                assert(sm * c < r * c) by (nonlinear_arith)
                    requires
                        0 <= sm < r,
                        c >= 1,
                ;
                lemma_multiply_divide_lt(sm * c, r, c);
            }
        }
        self.lemma_lower_in_range(self.spec_index(s));
        let num = i * r + c - 1;
        let q = num / c;
        let key = min + q;
        assert(self.spec_lower(self.spec_index(s)) == key);
        assert(0 <= q <= r);
        if i == 0 {
            assert(i * r == 0) by (nonlinear_arith)
                requires
                    i == 0,
            ;
            assert(0 * c == 0) by (nonlinear_arith);
            lemma_div_exact_plus(0, c, c - 1);
            assert(q == 0);
            assert(key == min);
            assert(key as u64 == self.range_min);
            let sm2 = ((key as u64) - self.range_min) as int;
            assert(sm2 == 0);
            assert(sm2 * c == 0) by (nonlinear_arith)
                requires
                    sm2 == 0,
            ;
            assert(0 * r == 0) by (nonlinear_arith);
            lemma_div_exact_plus(0, r, 0);
            assert(self.spec_index(key as u64) == 0);
        } else {
            assert(num >= r + c - 1) by (nonlinear_arith)
                requires
                    i >= 1,
                    r >= 1,
                    num == i * r + c - 1,
            ;
            lemma_div_is_ordered(c, num, c);
            lemma_div_exact_plus(1, c, 0);
            assert(q >= 1);
            if q == r {
                if c <= r {
                    assert(num <= (c - 1) * r + c - 1) by (nonlinear_arith)
                        requires
                            i <= c - 1,
                            r >= 1,
                            num == i * r + c - 1,
                    ;
                    assert((c - 1) * r + c - 1 <= (r - 1) * c + c - 1) by (nonlinear_arith)
                        requires
                            c <= r,
                    ;
                    lemma_div_is_ordered(num, (r - 1) * c + c - 1, c);
                    lemma_div_exact_plus(r - 1, c, c - 1);
                    assert(false);
                }
                assert(key == self.range_max);
                assert(self.spec_index(key as u64) == (c - 1) as nat);
                let num2 = (c - 1) * r + c - 1;
                assert(num2 == r * c + (c - 1 - r)) by (nonlinear_arith)
                    requires
                        num2 == (c - 1) * r + c - 1,
                ;
                lemma_div_exact_plus(r, c, c - 1 - r);
                assert(self.spec_lower((c - 1) as nat) == min + r);
            } else {
                assert(self.range_min < key < self.range_max);
                let sm3 = ((key as u64) - self.range_min) as int;
                assert(sm3 == q);
                let ip = (q * c) / r;
                assert(sm3 * c == q * c) by (nonlinear_arith)
                    requires
                        sm3 == q,
                ;
                assert(self.spec_index(key as u64) == ip as nat);
                lemma_fundamental_div_mod(q * c, r);
                lemma_mod_division_less_than_divisor(q * c, r);
                let rem = (q * c) % r;
                assert(q * c == r * ip + rem);
                assert(ip >= 0) by {
                    assert(q * c >= 0) by (nonlinear_arith)
                        requires
                            q >= 0,
                            c >= 1,
                    ;
                    lemma_div_pos_is_pos(q * c, r);
                }
                let num3 = ip * r + c - 1;
                assert(ip * r == r * ip) by (nonlinear_arith);
                assert(num3 <= q * c + c - 1);
                lemma_div_is_ordered(num3, q * c + c - 1, c);
                lemma_div_exact_plus(q, c, c - 1);
                let qp = num3 / c;
                assert(qp <= q);
                if c > r {
                    assert(num3 >= q * c);
                    lemma_div_is_ordered(q * c, num3, c);
                    lemma_div_exact_plus(q, c, 0);
                    assert(qp >= q);
                } else {
                    lemma_fundamental_div_mod(num, c);
                    lemma_mod_division_less_than_divisor(num, c);
                    let rem2 = num % c;
                    assert(num == c * q + rem2);
                    assert(c * q == q * c) by (nonlinear_arith);
                    assert(q * c >= i * r);
                    lemma_div_is_ordered(i * r, q * c, r);
                    lemma_div_exact_plus(i, r, 0);
                    assert(i * r == r * i) by (nonlinear_arith);
                    assert(ip >= i);
                    assert(q * c <= i * r + r - 1);
                    lemma_div_is_ordered(q * c, i * r + r - 1, r);
                    lemma_div_exact_plus(i, r, r - 1);
                    assert(ip <= i);
                    assert(ip == i);
                    assert(ip * r == i * r) by (nonlinear_arith)
                        requires
                            ip == i,
                    ;
                    assert(num3 == num);
                    assert(qp == q);
                }
                assert(qp == q);
                assert(self.spec_lower(self.spec_index(key as u64)) == min + qp);
            }
        }
    }
}

} // verus!
