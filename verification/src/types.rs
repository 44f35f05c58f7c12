//! The planar data model: points and finite segments with exact integer
//! coordinates, and the orientation test that both algorithms are built on.

use vstd::prelude::*;

verus! {

/// A planar point. Coordinates are exact integers, so every orientation and
/// distance comparison below is exact: the epsilon tolerances that a
/// floating-point treatment needs collapse to exact zero tests.
#[derive(Clone, Copy, PartialEq, Eq, Structural, Debug)]
pub struct Point {
    pub x: i32,
    pub y: i32,
}

/// A finite segment from `start` to `end`, not an infinite line.
/// A degenerate segment with `start == end` is a permitted value.
#[derive(Clone, Copy, PartialEq, Eq, Structural, Debug)]
pub struct Line {
    pub start: Point,
    pub end: Point,
}

/// The cross-product value behind the orientation test:
/// `(q.y - p.y) * (r.x - q.x) - (q.x - p.x) * (r.y - q.y)`.
/// Positive means the walk `p -> q -> r` turns clockwise, negative
/// counter-clockwise, zero means the three points are collinear.
pub open spec fn cross_val(p: Point, q: Point, r: Point) -> int {
    (q.y - p.y) * (r.x - q.x) - (q.x - p.x) * (r.y - q.y)
}

/// The sign of `cross_val`: `1` for a clockwise turn, `-1` for a
/// counter-clockwise turn, `0` for collinear points.
pub open spec fn orientation(p: Point, q: Point, r: Point) -> int {
    let v = cross_val(p, q, r);
    if v == 0 {
        0
    } else if v > 0 {
        1
    } else {
        -1
    }
}

/// Squared Euclidean distance between two points.
pub open spec fn dist_sq(p: Point, q: Point) -> int {
    (q.x - p.x) * (q.x - p.x) + (q.y - p.y) * (q.y - p.y)
}

/// `|a * b| <= aa * bb` when `|a| <= aa` and `|b| <= bb`.
pub proof fn lemma_mul_bounds(a: int, b: int, aa: int, bb: int)
    by (nonlinear_arith)
    requires
        -aa <= a <= aa,
        -bb <= b <= bb,
    ensures
        -(aa * bb) <= a * b <= aa * bb,
{
}

impl Point {
    pub fn new(x: i32, y: i32) -> (p: Point)
        ensures
            p == (Point { x, y }),
    {
        Point { x, y }
    }

    /// Squared Euclidean distance to `other`. The square root itself is
    /// irrational in general and is never needed by either algorithm:
    /// every distance comparison is made on squares.
    pub fn distance_squared(&self, other: &Point) -> (d: i128)
        ensures
            d == dist_sq(*self, *other),
    {
        let dx: i128 = (other.x as i128) - (self.x as i128);
        let dy: i128 = (other.y as i128) - (self.y as i128);
        proof {
            lemma_mul_bounds(dx as int, dx as int, 0x1_0000_0000, 0x1_0000_0000);
            lemma_mul_bounds(dy as int, dy as int, 0x1_0000_0000, 0x1_0000_0000);
        }
        dx * dx + dy * dy
    }
}

impl Line {
    pub fn new(start: Point, end: Point) -> (l: Line)
        ensures
            l == (Line { start, end }),
    {
        Line { start, end }
    }

    /// Squared length of the segment.
    pub fn length_squared(&self) -> (d: i128)
        ensures
            d == dist_sq(self.start, self.end),
    {
        self.start.distance_squared(&self.end)
    }
}

/// Computes the sign of the orientation test for the ordered triple
/// `(p, q, r)`: `0` when collinear, `1` for a clockwise turn, `-1` for a
/// counter-clockwise turn.
pub fn calculate_orientation(p: &Point, q: &Point, r: &Point) -> (o: i32)
    ensures
        o == orientation(*p, *q, *r),
{
    let dy_qp: i128 = (q.y as i128) - (p.y as i128);
    let dx_rq: i128 = (r.x as i128) - (q.x as i128);
    let dx_qp: i128 = (q.x as i128) - (p.x as i128);
    let dy_rq: i128 = (r.y as i128) - (q.y as i128);
    proof {
        lemma_mul_bounds(dy_qp as int, dx_rq as int, 0x1_0000_0000, 0x1_0000_0000);
        lemma_mul_bounds(dx_qp as int, dy_rq as int, 0x1_0000_0000, 0x1_0000_0000);
    }
    let v: i128 = dy_qp * dx_rq - dx_qp * dy_rq;
    if v == 0 {
        0
    } else if v > 0 {
        1
    } else {
        -1
    }
}

} // verus!
