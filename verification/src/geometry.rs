//! Points on the integer pixel grid and the squared-distance metric used by
//! the path tracer.

use vstd::prelude::*;

verus! {

/// A point with x and y coordinates.
#[derive(Debug, Clone, Copy, PartialEq, Eq, Hash, Structural)]
pub struct Point {
    /// The X coordinate of the point.
    pub x: i32,
    /// The Y coordinate of the point.
    pub y: i32,
}

impl Point {
    /// The squared Euclidean distance between two points, as a mathematical
    /// integer.
    pub open spec fn dist_sq_spec(self, other: Point) -> int {
        (self.x - other.x) * (self.x - other.x) + (self.y - other.y) * (self.y - other.y)
    }

    /// Scan order of the tracer: strictly earlier row, or same row and
    /// strictly smaller column.
    pub open spec fn yx_lt(self, other: Point) -> bool {
        self.y < other.y || (self.y == other.y && self.x < other.x)
    }

    /// Creates a new point with the given coordinates.
    pub fn new(x: i32, y: i32) -> (p: Point)
        ensures
            p == (Point { x, y }),
    {
        Point { x, y }
    }

    /// The squared Euclidean distance between two points. The result is exact
    /// for every pair of coordinates.
    pub fn distance_squared(&self, other: &Point) -> (d: u128)
        ensures
            d == self.dist_sq_spec(*other),
    {
        let dx: i128 = self.x as i128 - other.x as i128;
        let dy: i128 = self.y as i128 - other.y as i128;
        proof {
            lemma_square_nonneg(dx as int);
            lemma_square_nonneg(dy as int);
            lemma_square_bound(dx as int);
            lemma_square_bound(dy as int);
        }
        (dx * dx + dy * dy) as u128
    }
}

/// A square is never negative.
#[verifier::nonlinear]
proof fn lemma_square_nonneg(a: int)
    ensures
        a * a >= 0,
{
}

/// A square of a number below `2^33` in magnitude stays below `2^66`.
#[verifier::nonlinear]
proof fn lemma_square_bound(a: int)
    requires
        -0x2_0000_0000 <= a <= 0x2_0000_0000,
    ensures
        a * a <= 0x4_0000_0000_0000_0000,
{
}

} // verus!
