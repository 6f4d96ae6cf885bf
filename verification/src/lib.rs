//! A multi-pool optimal trade-splitting engine for constant-product
//! liquidity pools.
//!
//! Given several pools, each an oriented pair of reserves, and a budget of
//! the input asset, the engine divides the budget across the pools so that
//! the total output is maximized (water-filling on the marginal price), and
//! values a finished split under a proportional fee.
//!
//! All arithmetic is over a working width of 64 bits, widened to 128 bits
//! for intermediate products; narrowing back is always checked, so no
//! result is ever silently truncated.

use vstd::prelude::*;

pub mod arith;
pub mod sums;
pub mod fill;
pub mod split;
pub mod amm;

verus! {

/// The failures of one engine call. Every failure aborts the call; there is
/// no recovery inside the engine.
#[derive(Clone, Copy, Debug, PartialEq, Eq)]
pub enum PoolError {
    /// A quotient does not fit the 64-bit working width.
    Overflow,
    /// `mul_div` was called with divisor zero.
    DivisionByZero,
    /// A caller broke a documented precondition: a fee of a whole unit or
    /// more, or a split whose length differs from the pool sequence.
    ContractViolation,
}

} // verus!
