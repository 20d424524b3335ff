//! The floating-point determinism context.
//!
//! Bucket boundaries must come out bit-identical across hosts. Historically
//! that takes a scoped guard that forces one IEEE-754 rounding and precision
//! mode while boundaries are computed and restores the previous mode on
//! release. This engine computes every boundary with exact integer
//! arithmetic, which no floating-point environment can perturb, so on every
//! platform the context has nothing to set and carries no state; it remains
//! the scoped acquisition point around boundary computation.

use vstd::prelude::*;

verus! {

/// A scoped guard held for the duration of bucket-boundary computation.
pub struct FloatingPointContext {}

impl FloatingPointContext {
    /// Acquires the context; releasing it (dropping the guard) restores
    /// nothing because nothing was altered.
    pub fn new() -> (c: FloatingPointContext)
        ensures
            c == (FloatingPointContext {  }),
    {
        FloatingPointContext {  }
    }
}

} // verus!
