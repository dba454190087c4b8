//! Fixed-point decimals: an amount is a whole number of billionths.
//!
//! Amounts are exact. What is on offer adds up to what its parts add up to, so an
//! order for 0.8 is filled by 0.7 and 0.1, which sums of floating-point numbers
//! do not promise. A price or a quantity lies between about -9.2 and 9.2 billion.
use vstd::prelude::*;

verus! {

/// How many billionths make one.
pub const UNIT: i64 = 1_000_000_000;

/// One hundredth, in billionths.
pub const HUNDREDTH: i64 = 10_000_000;

/// The largest quantity that still counts as nothing: one billionth.
///
/// An order with no more than this left is treated as filled, and a taker with
/// no more than this left stops matching.
pub const DUST: i64 = 1;

} // verus!
