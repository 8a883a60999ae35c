//! Small shared helpers.

use vstd::prelude::*;

verus! {

/// Sum of two counters; the caller keeps the sum within `u64`.
pub fn add(left: u64, right: u64) -> (r: u64)
    requires
        left + right <= u64::MAX,
    ensures
        r == left + right,
{
    left + right
}

} // verus!
