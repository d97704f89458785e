//! The Manhattan-distance estimate between two grid positions.

use vstd::prelude::*;

verus! {

/// The distance between two coordinates on one axis.
pub open spec fn gap(x: isize, y: isize) -> int {
    if x >= y {
        x - y
    } else {
        y - x
    }
}

/// The Manhattan distance between two positions: the sum of the distances
/// along both axes.
pub open spec fn manhattan(a: (isize, isize), b: (isize, isize)) -> int {
    gap(a.0, b.0) + gap(a.1, b.1)
}

/// The distance between two coordinates on one axis, which always fits in
/// `usize`.
pub fn axis_gap(x: isize, y: isize) -> (d: usize)
    ensures
        d == gap(x, y),
{
    let hi: i128 = if x >= y { x as i128 } else { y as i128 };
    let lo: i128 = if x >= y { y as i128 } else { x as i128 };
    (hi - lo) as usize
}

/// The Manhattan distance between `a` and `b`.
pub fn heuristic(a: (isize, isize), b: (isize, isize)) -> (h: usize)
    requires
        manhattan(a, b) <= usize::MAX,
    ensures
        h == manhattan(a, b),
{
    axis_gap(a.0, b.0) + axis_gap(a.1, b.1)
}

} // verus!
