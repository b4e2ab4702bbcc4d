use vstd::prelude::*;

verus! {

/// Number of neighbours a node queries in one round.
pub const K: usize = 5;

/// Number of consecutive rounds an opinion has to hold before it is final.
pub const L: u32 = 5;

/// Numerator of the threshold slack β.
pub const BETA_NUMERATOR: u64 = 1;

/// Denominator of the threshold slack β, so that β = 1/10.
pub const BETA_DENOMINATOR: u64 = 10;

/// 2^32, the number of values a round-wide random number can take.
pub const RANDOM_SPAN: u64 = 0x1_0000_0000;

} // verus!
