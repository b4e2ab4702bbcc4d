use rand_core::OsRng;
use rand_core::RngCore;
use vstd::prelude::*;

verus! {

/// Thirty-two bits from the operating system's random number generator:
/// `next_u32` of `rand_core::OsRng`. The value may be any `u32`; nothing is
/// claimed of it, and two draws need not agree. The generator panics if the
/// operating system cannot supply random bytes.
#[verifier::external_body]
pub(crate) fn random_u32() -> (drawn: u32) {
    OsRng.next_u32()
}

/// Sixty-four bits from the operating system's random number generator:
/// `next_u64` of `rand_core::OsRng`. The value may be any `u64`; nothing is
/// claimed of it, and two draws need not agree. The generator panics if the
/// operating system cannot supply random bytes.
#[verifier::external_body]
pub(crate) fn random_u64() -> (drawn: u64) {
    OsRng.next_u64()
}

} // verus!
