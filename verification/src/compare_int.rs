//! Comparison and equality callbacks for plain integers, usable with the
//! containers in this crate that take caller-supplied ordering functions.

use vstd::prelude::*;

verus! {

/// An integer wrapped so that equality callbacks can take it by reference.
#[derive(PartialEq, Eq, Structural, Clone, Copy, Debug)]
pub struct IntLocation(pub i32);

/// Three-way comparison of two integers: negative, zero or positive as
/// `a` is less than, equal to or greater than `b`.
pub fn int_compare(a: &i32, b: &i32) -> (r: i32)
    ensures
        r < 0 <==> *a < *b,
        r == 0 <==> *a == *b,
        r > 0 <==> *a > *b,
        -1 <= r <= 1,
{
    if *a < *b {
        -1
    } else if *a > *b {
        1
    } else {
        0
    }
}

/// Whether two wrapped integers hold the same value.
pub fn int_equal(location1: &IntLocation, location2: &IntLocation) -> (r: bool)
    ensures
        r <==> location1.0 == location2.0,
{
    location1.0 == location2.0
}

} // verus!
