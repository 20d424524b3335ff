//! Time and memory units, as closed enums mapped from small integer codes.
//!
//! Each unit carries a multiplicative factor that normalizes a raw sample
//! into nanoseconds or bytes before accumulation. A code outside the known
//! set is an invalid-input error, never a silent default. Conversion
//! saturates at `u64::MAX`, the largest representable normalized value.

use vstd::prelude::*;
use vstd::arithmetic::div_mod::*;
use crate::error::Error;

verus! {

/// `a * b`, clamped to the largest 64-bit value.
pub open spec fn sat_mul(a: nat, b: nat) -> nat {
    if a * b > u64::MAX {
        u64::MAX as nat
    } else {
        a * b
    }
}

/// `a + b`, clamped to the largest 64-bit value.
pub open spec fn sat_add(a: nat, b: nat) -> nat {
    if a + b > u64::MAX {
        u64::MAX as nat
    } else {
        a + b
    }
}

/// Addition that saturates at `u64::MAX` instead of overflowing.
pub fn saturating_add_u64(a: u64, b: u64) -> (r: u64)
    ensures
        r as nat == sat_add(a as nat, b as nat),
{
    if b <= u64::MAX - a {
        a + b
    } else {
        u64::MAX
    }
}

/// Multiplication that saturates at `u64::MAX` instead of overflowing.
pub fn saturating_mul_u64(a: u64, b: u64) -> (r: u64)
    ensures
        r as nat == sat_mul(a as nat, b as nat),
{
    if a == 0 {
        proof {
            assert((a as int) * (b as int) == 0) by (nonlinear_arith)
                requires
                    a == 0,
            ;
        }
        0
    } else if b <= u64::MAX / a {
        proof {
            let aa = a as int;
            let bb = b as int;
            let m = u64::MAX as int;
            lemma_fundamental_div_mod(m, aa);
            lemma_mod_division_less_than_divisor(m, aa);
            assert(aa * bb <= aa * (m / aa)) by (nonlinear_arith)
                requires
                    bb <= m / aa,
                    aa >= 1,
            ;
            assert(aa * (m / aa) <= m);
        }
        a * b
    } else {
        proof {
            let aa = a as int;
            let bb = b as int;
            let m = u64::MAX as int;
            lemma_fundamental_div_mod(m, aa);
            lemma_mod_division_less_than_divisor(m, aa);
            assert(aa * bb >= aa * (m / aa) + aa) by (nonlinear_arith)
                requires
                    bb >= m / aa + 1,
                    aa >= 1,
            ;
            assert(aa * (m / aa) + aa > m);
        }
        u64::MAX
    }
}

/// A duration unit; raw timing samples arrive expressed in one of these.
#[derive(Clone, Copy, Debug, PartialEq, Eq, Structural)]
pub enum TimeUnit {
    Nanosecond,
    Microsecond,
    Millisecond,
    Second,
    Minute,
    Hour,
    Day,
}

impl TimeUnit {
    /// How many nanoseconds one unit is.
    pub open spec fn spec_factor(self) -> nat {
        match self {
            TimeUnit::Nanosecond => 1,
            TimeUnit::Microsecond => 1000,
            TimeUnit::Millisecond => 1000000,
            TimeUnit::Second => 1000000000,
            TimeUnit::Minute => 60000000000,
            TimeUnit::Hour => 3600000000000,
            TimeUnit::Day => 86400000000000,
        }
    }

    /// Decodes a time unit from its integer code; any code outside the
    /// known set is rejected.
    pub fn from_code(code: i32) -> (r: Result<TimeUnit, Error>)
        ensures
            code == 0 ==> r == Ok::<TimeUnit, Error>(TimeUnit::Nanosecond),
            code == 1 ==> r == Ok::<TimeUnit, Error>(TimeUnit::Microsecond),
            code == 2 ==> r == Ok::<TimeUnit, Error>(TimeUnit::Millisecond),
            code == 3 ==> r == Ok::<TimeUnit, Error>(TimeUnit::Second),
            code == 4 ==> r == Ok::<TimeUnit, Error>(TimeUnit::Minute),
            code == 5 ==> r == Ok::<TimeUnit, Error>(TimeUnit::Hour),
            code == 6 ==> r == Ok::<TimeUnit, Error>(TimeUnit::Day),
            code < 0 || code > 6 ==> r == Err::<TimeUnit, Error>(Error::InvalidTimeUnit),
    {
        match code {
            0 => Ok(TimeUnit::Nanosecond),
            1 => Ok(TimeUnit::Microsecond),
            2 => Ok(TimeUnit::Millisecond),
            3 => Ok(TimeUnit::Second),
            4 => Ok(TimeUnit::Minute),
            5 => Ok(TimeUnit::Hour),
            6 => Ok(TimeUnit::Day),
            _ => Err(Error::InvalidTimeUnit),
        }
    }

    /// Converts a duration in this unit to nanoseconds, saturating at
    /// `u64::MAX`.
    pub fn as_nanos(self, sample: u64) -> (r: u64)
        ensures
            r as nat == sat_mul(sample as nat, self.spec_factor()),
    {
        let factor: u64 = match self {
            TimeUnit::Nanosecond => 1,
            TimeUnit::Microsecond => 1000,
            TimeUnit::Millisecond => 1000000,
            TimeUnit::Second => 1000000000,
            TimeUnit::Minute => 60000000000,
            TimeUnit::Hour => 3600000000000,
            TimeUnit::Day => 86400000000000,
        };
        saturating_mul_u64(sample, factor)
    }
}

/// A memory-size unit; raw memory samples arrive expressed in one of these.
#[derive(Clone, Copy, Debug, PartialEq, Eq, Structural)]
pub enum MemoryUnit {
    Byte,
    Kilobyte,
    Megabyte,
    Gigabyte,
}

impl MemoryUnit {
    /// How many bytes one unit is.
    pub open spec fn spec_factor(self) -> nat {
        match self {
            MemoryUnit::Byte => 1,
            MemoryUnit::Kilobyte => 1024,
            MemoryUnit::Megabyte => 1048576,
            MemoryUnit::Gigabyte => 1073741824,
        }
    }

    /// Decodes a memory unit from its integer code; any code outside the
    /// known set is rejected.
    pub fn from_code(code: i32) -> (r: Result<MemoryUnit, Error>)
        ensures
            code == 0 ==> r == Ok::<MemoryUnit, Error>(MemoryUnit::Byte),
            code == 1 ==> r == Ok::<MemoryUnit, Error>(MemoryUnit::Kilobyte),
            code == 2 ==> r == Ok::<MemoryUnit, Error>(MemoryUnit::Megabyte),
            code == 3 ==> r == Ok::<MemoryUnit, Error>(MemoryUnit::Gigabyte),
            code < 0 || code > 3 ==> r == Err::<MemoryUnit, Error>(Error::InvalidMemoryUnit),
    {
        match code {
            0 => Ok(MemoryUnit::Byte),
            1 => Ok(MemoryUnit::Kilobyte),
            2 => Ok(MemoryUnit::Megabyte),
            3 => Ok(MemoryUnit::Gigabyte),
            _ => Err(Error::InvalidMemoryUnit),
        }
    }

    /// Converts a size in this unit to bytes, saturating at `u64::MAX`.
    pub fn as_bytes(self, sample: u64) -> (r: u64)
        ensures
            r as nat == sat_mul(sample as nat, self.spec_factor()),
    {
        let factor: u64 = match self {
            MemoryUnit::Byte => 1,
            MemoryUnit::Kilobyte => 1024,
            MemoryUnit::Megabyte => 1048576,
            MemoryUnit::Gigabyte => 1073741824,
        };
        saturating_mul_u64(sample, factor)
    }
}

} // verus!
