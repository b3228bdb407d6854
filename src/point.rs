//! Plain two-dimensional points with unsigned integer coordinates.

use vstd::prelude::*;

verus! {

/// A point of the plane with `u32` coordinates.
#[derive(Debug, Clone, Copy, PartialEq, Eq, Hash, Structural)]
pub struct Point {
    pub x: u32,
    pub y: u32,
}

/// The point type that the tree and the drawing helpers work with.
pub type PointU32 = Point;

/// The squared Euclidean distance between two points, over the integers.
pub open spec fn sq_dist(a: Point, b: Point) -> int {
    (a.x - b.x) * (a.x - b.x) + (a.y - b.y) * (a.y - b.y)
}

impl Point {
    pub fn new(x: u32, y: u32) -> (r: Point)
        ensures
            r.x == x,
            r.y == y,
    {
        Point { x, y }
    }

    /// The squared distance to `other`, computed in `u128` so that it cannot
    /// overflow for any pair of `u32` coordinates.
    pub fn squared_dist(&self, other: &Point) -> (r: u128)
        ensures
            r as int == sq_dist(*self, *other),
    {
        let dx: u128 = if self.x >= other.x {
            (self.x - other.x) as u128
        } else {
            (other.x - self.x) as u128
        };
        let dy: u128 = if self.y >= other.y {
            (self.y - other.y) as u128
        } else {
            (other.y - self.y) as u128
        };
        proof {
            assert(dx * dx == (self.x - other.x) * (self.x - other.x)) by (nonlinear_arith)
                requires
                    dx == self.x - other.x || dx == other.x - self.x,
            ;
            assert(dy * dy == (self.y - other.y) * (self.y - other.y)) by (nonlinear_arith)
                requires
                    dy == self.y - other.y || dy == other.y - self.y,
            ;
            assert(dx * dx <= 0xffff_ffffu128 * 0xffff_ffffu128) by (nonlinear_arith)
                requires
                    dx <= 0xffff_ffffu128,
            ;
            assert(dy * dy <= 0xffff_ffffu128 * 0xffff_ffffu128) by (nonlinear_arith)
                requires
                    dy <= 0xffff_ffffu128,
            ;
        }
        dx * dx + dy * dy
    }
}

} // verus!
