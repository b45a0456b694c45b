//! The integer side of a sweep's analysis: which points the peak fit uses.

use vstd::prelude::*;

verus! {

/// The first of the five consecutive points that the quadratic peak fit of
/// the susceptibility uses: two before the maximum when there are, moved
/// back so that all five exist.
pub fn fit_window_start(maximum: usize, count: usize) -> (start: usize)
    requires
        count >= 5,
    ensures
        start == vstd::math::min(
            if maximum >= 2 {
                maximum - 2
            } else {
                0int
            },
            count - 5,
        ),
        start + 5 <= count,
        maximum < count ==> start <= maximum < start + 5,
{
    let back = if maximum >= 2 {
        maximum - 2
    } else {
        0
    };
    if back < count - 5 {
        back
    } else {
        count - 5
    }
}

} // verus!
