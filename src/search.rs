//! Searching point lists ordered by their x coordinate.
use vstd::prelude::*;

use crate::geometry::Point;

verus! {

/// Whether `a` lies before `b` along the x axis.
pub fn x_less(a: &Point, b: &Point) -> (r: bool)
    ensures
        r == (a.x < b.x),
{
    a.x < b.x
}

pub open spec fn sorted_by_x(list: Seq<Point>) -> bool {
    forall|i: int, j: int| 0 <= i <= j < list.len() ==> list[i].x <= list[j].x
}

/// Returns the index of the first point whose x is not less than that of
/// `value`, in O(log n) steps; the list size if every point is less.
pub fn binary_min_search(list: &[Point], value: &Point) -> (r: usize)
    requires
        sorted_by_x(list@),
    ensures
        r <= list@.len(),
        forall|i: int| 0 <= i < r ==> list@[i].x < value.x,
        forall|i: int| r <= i < list@.len() ==> list@[i].x >= value.x,
{
    let mut lo: usize = 0;
    let mut hi: usize = list.len();
    while lo < hi
        invariant
            0 <= lo <= hi <= list@.len(),
            sorted_by_x(list@),
            forall|i: int| 0 <= i < lo ==> list@[i].x < value.x,
            forall|i: int| hi <= i < list@.len() ==> list@[i].x >= value.x,
        decreases hi - lo,
    {
        let mid = lo + (hi - lo) / 2;
        if x_less(&list[mid], value) {
            lo = mid + 1;
        } else {
            hi = mid;
        }
    }
    lo
}

} // verus!
