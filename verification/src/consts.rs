//! Bit patterns of the numbers that occur throughout.
use vstd::prelude::*;

pub use crate::float::number::{INFINITY, NAN, NEG_INFINITY, ONE, ZERO};

verus! {

/// 0.25
pub const QUARTER: u64 = 0x3FD0_0000_0000_0000;

/// 0.5
pub const HALF: u64 = 0x3FE0_0000_0000_0000;

/// 2
pub const TWO: u64 = 0x4000_0000_0000_0000;

/// 3
pub const THREE: u64 = 0x4008_0000_0000_0000;

/// 4
pub const FOUR: u64 = 0x4010_0000_0000_0000;

/// 5
pub const FIVE: u64 = 0x4014_0000_0000_0000;

/// 10
pub const TEN: u64 = 0x4024_0000_0000_0000;

/// The distance from 1 to the next number, 2^-52.
pub const EPSILON: u64 = 0x3CB0_0000_0000_0000;

/// The smallest positive normal number, 2^-1022.
pub const MIN_POSITIVE: u64 = 0x0010_0000_0000_0000;

/// The largest finite number.
pub const MAX: u64 = 0x7FEF_FFFF_FFFF_FFFF;

/// How many rounds an iteration may take before it gives up with a NaN.
pub const PATIENCE: u64 = 0xFFFF_FFFF_FFFF_FFFF;

} // verus!
