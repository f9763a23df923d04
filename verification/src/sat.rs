//! Sums that stop at the largest 64-bit value instead of wrapping.

use vstd::prelude::*;

verus! {

/// `x`, or the largest 64-bit value where `x` is above it.
pub open spec fn clamp_u64(x: nat) -> u64 {
    if x > u64::MAX {
        u64::MAX
    } else {
        x as u64
    }
}

/// The sum of `a` and `b`, stopping at the largest 64-bit value.
pub fn sat_add(a: u64, b: u64) -> (r: u64)
    ensures
        r == clamp_u64((a + b) as nat),
{
    if a > u64::MAX - b {
        u64::MAX
    } else {
        a + b
    }
}

/// Clamping a sum term by term is clamping the whole sum.
pub proof fn lemma_clamp_add(x: nat, b: u64)
    ensures
        clamp_u64((clamp_u64(x) + b) as nat) == clamp_u64((x + b) as nat),
{
}

} // verus!
