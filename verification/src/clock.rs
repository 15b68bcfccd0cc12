//! Time: the engines are handed the clock, in milliseconds.

use vstd::prelude::*;

verus! {

/// How long ago a moment was; 0 where it is still to come.
pub open spec fn since(now: u64, at: u64) -> int {
    if now > at {
        now - at
    } else {
        0
    }
}

/// How long ago was a moment?
pub fn elapsed(now: u64, at: u64) -> (r: u64)
    ensures
        r == since(now, at),
{
    if now > at {
        now - at
    } else {
        0
    }
}

} // verus!
