//! Three-way comparison of payload values.

use vstd::prelude::*;

verus! {

/// A value that can be compared with another of its type.
///
/// The comparison is three-way: a negative result means "less", zero means
/// "equal" and a positive result means "greater". The store only ever asks
/// whether the result is zero.
pub trait Comparable {
    /// The result of comparing `self` with `other`, as a mathematical function
    /// of the two values.
    spec fn compare_spec(&self, other: &Self) -> i8;

    /// Compares `self` with `other`.
    fn compare(&self, other: &Self) -> (r: i8)
        ensures
            r == self.compare_spec(other),
    ;
}

impl Comparable for i32 {
    open spec fn compare_spec(&self, other: &i32) -> i8 {
        if *self > *other {
            1i8
        } else if *self == *other {
            0i8
        } else {
            -1i8
        }
    }

    fn compare(&self, other: &i32) -> (r: i8) {
        if *self > *other {
            return 1;
        } else if *self == *other {
            return 0;
        } else {
            return -1;
        }
    }
}

} // verus!
