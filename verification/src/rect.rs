//! Axis-aligned rectangles: candidate regions and finalized rooms.

use vstd::prelude::*;

verus! {

/// Integer bounds with `x1 <= x2` and `y1 <= y2` by construction (width and
/// height are non-negative offsets from the origin corner).
#[derive(Clone, Copy, PartialEq, Eq, Structural, Debug)]
pub struct Rect {
    pub x1: i32,
    pub x2: i32,
    pub y1: i32,
    pub y2: i32,
}

/// Halving as the machine does it: the quotient is truncated toward zero.
pub open spec fn div2_trunc(a: int) -> int {
    if a >= 0 {
        a / 2
    } else {
        -((-a) / 2)
    }
}

/// Closed-interval overlap on both axes: touching edges count as
/// intersecting. Every rectangle with ordered bounds intersects itself.
pub open spec fn spec_intersect(a: Rect, b: Rect) -> bool {
    a.x1 <= b.x2 && a.x2 >= b.x1 && a.y1 <= b.y2 && a.y2 >= b.y1
}

impl Rect {
    pub fn new(x: i32, y: i32, w: i32, h: i32) -> (r: Rect)
        requires
            0 <= w,
            0 <= h,
            x + w <= i32::MAX,
            y + h <= i32::MAX,
        ensures
            r.x1 == x,
            r.y1 == y,
            r.x2 == x + w,
            r.y2 == y + h,
    {
        Rect { x1: x, y1: y, x2: x + w, y2: y + h }
    }

    /// True iff this rectangle overlaps `other`, bounds inclusive.
    pub fn intersect(&self, other: &Rect) -> (r: bool)
        ensures
            r == spec_intersect(*self, *other),
    {
        self.x1 <= other.x2 && self.x2 >= other.x1 && self.y1 <= other.y2 && self.y2 >= other.y1
    }

    /// The integer-truncated midpoint of the bounds.
    pub fn center(&self) -> (c: (i32, i32))
        requires
            i32::MIN <= self.x1 + self.x2 <= i32::MAX,
            i32::MIN <= self.y1 + self.y2 <= i32::MAX,
        ensures
            c.0 == div2_trunc(self.x1 + self.x2),
            c.1 == div2_trunc(self.y1 + self.y2),
    {
        ((self.x1 + self.x2) / 2, (self.y1 + self.y2) / 2)
    }
}

} // verus!
