//! Small integer helpers.

use vstd::prelude::*;

verus! {

/// Increments the integer behind `v` by one.
pub fn add_one(v: &mut i32)
    requires
        *old(v) < i32::MAX,
    ensures
        *final(v) == *old(v) + 1,
{
    *v += 1;
}

} // verus!
