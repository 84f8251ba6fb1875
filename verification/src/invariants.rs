//! Rules the broker relies on being true.
//!
//! Breaking one of them means corrupted state, so none of them is a
//! recoverable error: each is a precondition that callers must establish.

use vstd::prelude::*;

verus! {

/// Offsets are strictly increasing: `next` must lie after `prev`.
pub fn assert_monotonic_offset(prev: u64, next: u64)
    requires
        next > prev,
{
}

} // verus!
