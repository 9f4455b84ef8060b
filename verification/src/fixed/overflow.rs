//! The saturation flag of the fixed-point basic operators.
//!
//! Algorithms that need overflow-driven rescaling clear the flag with
//! [`reset`] before an accumulation, run the accumulation through the
//! flag-tracking operators (for example
//! [`super::ops::l_mac0`]), and read the flag back with
//! [`occurred`]. The flag is an ordinary value owned by the caller.

use vstd::prelude::*;

verus! {

/// Whether a tracked saturating operator has clamped its result.
#[derive(Clone, Copy, Debug, PartialEq, Eq)]
pub struct OverflowFlag {
    /// `true` once a tracked operator saturated since the last [`reset`].
    pub raised: bool,
}

impl OverflowFlag {
    /// A cleared flag.
    pub fn new() -> (f: OverflowFlag)
        ensures
            !f.raised,
    {
        OverflowFlag { raised: false }
    }
}

/// Clear the overflow flag.
pub fn reset(flag: &mut OverflowFlag)
    ensures
        !final(flag).raised,
{
    flag.raised = false;
}

/// Read the overflow flag.
pub fn occurred(flag: &OverflowFlag) -> (r: bool)
    ensures
        r == flag.raised,
{
    flag.raised
}

/// Set the overflow flag to `value`.
pub fn set(flag: &mut OverflowFlag, value: bool)
    ensures
        final(flag).raised == value,
{
    flag.raised = value;
}

} // verus!
