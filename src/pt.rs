//! Points on the playing field and offsets between them.

use vstd::prelude::*;

verus! {

/// A point, used both as an absolute cell position and as a relative offset.
///
/// `x` counts columns from the left wall, `y` counts rows from the floor.
#[derive(Copy, Clone, Debug, PartialEq, Eq, Structural)]
pub struct Point {
    pub x: i8,
    pub y: i8,
}

/// Both coordinates of `p + d` fit in an `i8`.
pub open spec fn can_add(p: Point, d: Point) -> bool {
    &&& i8::MIN <= p.x + d.x <= i8::MAX
    &&& i8::MIN <= p.y + d.y <= i8::MAX
}

/// The point `p` shifted by the offset `d`.
pub open spec fn shifted(p: Point, d: Point) -> Point {
    Point { x: (p.x + d.x) as i8, y: (p.y + d.y) as i8 }
}

impl Point {
    /// Creates a point from its coordinates.
    pub fn new(x: i8, y: i8) -> (r: Point)
        ensures
            r.x == x,
            r.y == y,
    {
        Point { x, y }
    }

    /// Returns this point shifted by the offset `d`.
    pub fn add(self, d: Point) -> (r: Point)
        requires
            can_add(self, d),
        ensures
            r == shifted(self, d),
    {
        Point { x: self.x + d.x, y: self.y + d.y }
    }
}

} // verus!
