//! Intersection of two finite segments.
//!
//! Each segment's supporting line is written in implicit form
//! `a*x + b*y = c` and the two-line system is solved by Cramer's rule.
//! Coordinates are exact integers, so the intersection point is an exact
//! rational number, returned as a homogeneous triple `(x_num, y_num, den)`
//! with a positive denominator; the floating-point epsilon tests of the
//! textbook treatment collapse to exact comparisons (a determinant within
//! epsilon of zero becomes a determinant equal to zero).

use vstd::prelude::*;

use crate::types::{Line, Point, lemma_mul_bounds};

verus! {

/// Coefficient `a` of the supporting line `a*x + b*y = c` of `l`.
pub open spec fn line_a(l: Line) -> int {
    l.end.y - l.start.y
}

/// Coefficient `b` of the supporting line `a*x + b*y = c` of `l`.
pub open spec fn line_b(l: Line) -> int {
    l.start.x - l.end.x
}

/// Right-hand side `c` of the supporting line `a*x + b*y = c` of `l`.
pub open spec fn line_c(l: Line) -> int {
    line_a(l) * l.start.x + line_b(l) * l.start.y
}

/// Determinant of the two-line system; zero exactly when the supporting
/// lines are parallel (coincident lines included).
pub open spec fn determinant(l1: Line, l2: Line) -> int {
    line_a(l1) * line_b(l2) - line_a(l2) * line_b(l1)
}

/// The two segments' direction vectors are parallel.
pub open spec fn parallel(l1: Line, l2: Line) -> bool {
    (l1.end.x - l1.start.x) * (l2.end.y - l2.start.y) == (l2.end.x - l2.start.x) * (l1.end.y
        - l1.start.y)
}

/// The unique intersection point of the two supporting lines, as a
/// homogeneous rational triple `(x_num, y_num, den)` with `den > 0`.
/// Meaningful only when `determinant(l1, l2) != 0`.
pub open spec fn solution(l1: Line, l2: Line) -> (int, int, int) {
    let d = determinant(l1, l2);
    let xn = line_b(l2) * line_c(l1) - line_b(l1) * line_c(l2);
    let yn = line_a(l1) * line_c(l2) - line_a(l2) * line_c(l1);
    if d < 0 {
        (-xn, -yn, -d)
    } else {
        (xn, yn, d)
    }
}

/// The rational point `(xn/d, yn/d)` is collinear with `s` and `e`,
/// written without division (`d > 0` is assumed by all users).
pub open spec fn collinear_scaled(xn: int, yn: int, d: int, s: Point, e: Point) -> bool {
    (e.x - s.x) * (yn - s.y * d) == (e.y - s.y) * (xn - s.x * d)
}

/// The rational point `(xn/d, yn/d)` lies within the coordinate-wise
/// bounding box of `s` and `e` (`d > 0` is assumed by all users).
pub open spec fn in_bbox(xn: int, yn: int, d: int, s: Point, e: Point) -> bool {
    &&& if s.x <= e.x {
        s.x * d <= xn && xn <= e.x * d
    } else {
        e.x * d <= xn && xn <= s.x * d
    }
    &&& if s.y <= e.y {
        s.y * d <= yn && yn <= e.y * d
    } else {
        e.y * d <= yn && yn <= s.y * d
    }
}

/// The rational point `(xn/d, yn/d)` lies on the finite segment from `s`
/// to `e`: collinear with the endpoints and between them. For a degenerate
/// segment (`s == e`) this reduces to exact equality with that point.
pub open spec fn rat_on_segment(xn: int, yn: int, d: int, s: Point, e: Point) -> bool {
    collinear_scaled(xn, yn, d, s, e) && in_bbox(xn, yn, d, s, e)
}

/// What `compute_line_intersection` returns, at the mathematical level:
/// `None` when the supporting lines are parallel, otherwise the unique
/// intersection point of the supporting lines if it lies on both finite
/// segments, else `None`.
pub open spec fn spec_line_intersection(l1: Line, l2: Line) -> Option<(int, int, int)> {
    if determinant(l1, l2) == 0 {
        None
    } else {
        let sol = solution(l1, l2);
        if rat_on_segment(sol.0, sol.1, sol.2, l1.start, l1.end) && rat_on_segment(
            sol.0,
            sol.1,
            sol.2,
            l2.start,
            l2.end,
        ) {
            Some(sol)
        } else {
            None
        }
    }
}

/// An exact rational point, the intersection of two segments with integer
/// endpoints: the point `(x_num / den, y_num / den)`.
#[derive(Clone, Copy, PartialEq, Eq, Structural, Debug)]
pub struct RatPoint {
    pub x_num: i128,
    pub y_num: i128,
    pub den: i128,
}

impl RatPoint {
    /// Well-formed values have a positive denominator and the magnitude
    /// bounds that any intersection of segments with `i32` endpoints obeys.
    pub open spec fn wf(self) -> bool {
        &&& 0 < self.den <= 0x2_0000_0000_0000_0000
        &&& -0x2_0000_0000_0000_0000_0000_0000 <= self.x_num <= 0x2_0000_0000_0000_0000_0000_0000
        &&& -0x2_0000_0000_0000_0000_0000_0000 <= self.y_num <= 0x2_0000_0000_0000_0000_0000_0000
    }

    /// The rational triple this value denotes.
    pub open spec fn triple(self) -> (int, int, int) {
        (self.x_num as int, self.y_num as int, self.den as int)
    }

    /// True exactly when this rational point equals the integer point `p`.
    pub fn eq_point(&self, p: &Point) -> (r: bool)
        requires
            self.wf(),
        ensures
            r == (self.x_num == p.x * self.den && self.y_num == p.y * self.den),
    {
        proof {
            lemma_mul_bounds(p.x as int, self.den as int, 0x8000_0000, 0x2_0000_0000_0000_0000);
            lemma_mul_bounds(p.y as int, self.den as int, 0x8000_0000, 0x2_0000_0000_0000_0000);
        }
        self.x_num == (p.x as i128) * self.den && self.y_num == (p.y as i128) * self.den
    }
}

/// Cramer's rule solves the system: substituting the solution numerators
/// back into either line equation gives the right-hand side scaled by the
/// determinant.
proof fn lemma_cramer(a1: int, b1: int, c1: int, a2: int, b2: int, c2: int)
    by (nonlinear_arith)
    ensures
        a1 * (b2 * c1 - b1 * c2) + b1 * (a1 * c2 - a2 * c1) == c1 * (a1 * b2 - a2 * b1),
        a2 * (b2 * c1 - b1 * c2) + b2 * (a1 * c2 - a2 * c1) == c2 * (a1 * b2 - a2 * b1),
{
}

/// A scaled point that satisfies a segment's implicit line equation is
/// collinear with the segment's endpoints.
proof fn lemma_line_eq_collinear(sx: int, sy: int, ex: int, ey: int, xn: int, yn: int, d: int)
    by (nonlinear_arith)
    requires
        (ey - sy) * xn + (sx - ex) * yn == ((ey - sy) * sx + (sx - ex) * sy) * d,
    ensures
        (ex - sx) * (yn - sy * d) == (ey - sy) * (xn - sx * d),
{
}

/// The far endpoint of a segment satisfies the implicit line equation
/// built from the near one (the near one does so by definition).
proof fn lemma_endpoints_on_line(sx: int, sy: int, ex: int, ey: int)
    by (nonlinear_arith)
    ensures
        (ey - sy) * ex + (sx - ex) * ey == (ey - sy) * sx + (sx - ex) * sy,
{
}

/// A point on both supporting lines is the Cramer solution, scaled.
proof fn lemma_common_point_is_solution(
    a1: int,
    b1: int,
    c1: int,
    a2: int,
    b2: int,
    c2: int,
    px: int,
    py: int,
)
    by (nonlinear_arith)
    requires
        a1 * px + b1 * py == c1,
        a2 * px + b2 * py == c2,
    ensures
        b2 * c1 - b1 * c2 == px * (a1 * b2 - a2 * b1),
        a1 * c2 - a2 * c1 == py * (a1 * b2 - a2 * b1),
{
}

/// Negating numerators and denominator together preserves a line equation.
proof fn lemma_scaled_line_eq(
    a: int,
    b: int,
    c: int,
    xr: int,
    yr: int,
    dt: int,
    x: int,
    y: int,
    dn: int,
)
    by (nonlinear_arith)
    requires
        a * xr + b * yr == c * dt,
        (x == xr && y == yr && dn == dt) || (x == -xr && y == -yr && dn == -dt),
    ensures
        a * x + b * y == c * dn,
{
}

/// The determinant of the two line equations equals the cross product of
/// the two direction vectors.
proof fn lemma_det_is_direction_cross(
    s1x: int,
    s1y: int,
    e1x: int,
    e1y: int,
    s2x: int,
    s2y: int,
    e2x: int,
    e2y: int,
)
    by (nonlinear_arith)
    ensures
        (e1y - s1y) * (s2x - e2x) - (e2y - s2y) * (s1x - e1x) == (e1x - s1x) * (e2y - s2y) - (e2x
            - s2x) * (e1y - s1y),
{
}

/// Multiplying both sides of `a <= b` by a non-negative factor keeps the order.
proof fn lemma_mul_le_mono(a: int, b: int, d: int)
    by (nonlinear_arith)
    requires
        a <= b,
        0 <= d,
    ensures
        a * d <= b * d,
{
}

/// Checks whether the rational point `(xn/d, yn/d)` lies inside the
/// bounding box of `s` and `e`.
fn rat_in_bbox(xn: i128, yn: i128, d: i128, s: &Point, e: &Point) -> (r: bool)
    requires
        0 < d <= 0x2_0000_0000_0000_0000,
    ensures
        r == in_bbox(xn as int, yn as int, d as int, *s, *e),
{
    proof {
        lemma_mul_bounds(s.x as int, d as int, 0x8000_0000, 0x2_0000_0000_0000_0000);
        lemma_mul_bounds(e.x as int, d as int, 0x8000_0000, 0x2_0000_0000_0000_0000);
        lemma_mul_bounds(s.y as int, d as int, 0x8000_0000, 0x2_0000_0000_0000_0000);
        lemma_mul_bounds(e.y as int, d as int, 0x8000_0000, 0x2_0000_0000_0000_0000);
    }
    let sxd: i128 = (s.x as i128) * d;
    let exd: i128 = (e.x as i128) * d;
    let syd: i128 = (s.y as i128) * d;
    let eyd: i128 = (e.y as i128) * d;
    let ok_x: bool = if s.x <= e.x {
        sxd <= xn && xn <= exd
    } else {
        exd <= xn && xn <= sxd
    };
    let ok_y: bool = if s.y <= e.y {
        syd <= yn && yn <= eyd
    } else {
        eyd <= yn && yn <= syd
    };
    ok_x && ok_y
}

/// Computes the intersection point of two finite segments, if one exists.
///
/// The supporting lines are solved exactly; the result is the unique
/// rational intersection point of the two supporting lines, and it is
/// returned exactly when it lies on both finite segments. Parallel
/// supporting lines (coincident ones included, however the segments may
/// touch or overlap) yield `None`.
pub fn compute_line_intersection(line1: &Line, line2: &Line) -> (r: Option<RatPoint>)
    ensures
        (r is Some) == (spec_line_intersection(*line1, *line2) is Some),
        r matches Some(p) ==> spec_line_intersection(*line1, *line2) == Some(p.triple())
            && p.wf(),
{
    let p1: Point = line1.start;
    let p2: Point = line1.end;
    let p3: Point = line2.start;
    let p4: Point = line2.end;

    let a1: i128 = (p2.y as i128) - (p1.y as i128);
    let b1: i128 = (p1.x as i128) - (p2.x as i128);
    proof {
        lemma_mul_bounds(a1 as int, p1.x as int, 0x1_0000_0000, 0x8000_0000);
        lemma_mul_bounds(b1 as int, p1.y as int, 0x1_0000_0000, 0x8000_0000);
    }
    let c1: i128 = a1 * (p1.x as i128) + b1 * (p1.y as i128);

    let a2: i128 = (p4.y as i128) - (p3.y as i128);
    let b2: i128 = (p3.x as i128) - (p4.x as i128);
    proof {
        lemma_mul_bounds(a2 as int, p3.x as int, 0x1_0000_0000, 0x8000_0000);
        lemma_mul_bounds(b2 as int, p3.y as int, 0x1_0000_0000, 0x8000_0000);
    }
    let c2: i128 = a2 * (p3.x as i128) + b2 * (p3.y as i128);

    proof {
        lemma_mul_bounds(a1 as int, b2 as int, 0x1_0000_0000, 0x1_0000_0000);
        lemma_mul_bounds(a2 as int, b1 as int, 0x1_0000_0000, 0x1_0000_0000);
    }
    let det: i128 = a1 * b2 - a2 * b1;

    if det == 0 {
        return None;
    }

    proof {
        lemma_mul_bounds(b2 as int, c1 as int, 0x1_0000_0000, 0x1_0000_0000_0000_0000);
        lemma_mul_bounds(b1 as int, c2 as int, 0x1_0000_0000, 0x1_0000_0000_0000_0000);
        lemma_mul_bounds(a1 as int, c2 as int, 0x1_0000_0000, 0x1_0000_0000_0000_0000);
        lemma_mul_bounds(a2 as int, c1 as int, 0x1_0000_0000, 0x1_0000_0000_0000_0000);
    }
    let xn_raw: i128 = b2 * c1 - b1 * c2;
    let yn_raw: i128 = a1 * c2 - a2 * c1;

    let xn: i128 = if det < 0 { -xn_raw } else { xn_raw };
    let yn: i128 = if det < 0 { -yn_raw } else { yn_raw };
    let den: i128 = if det < 0 { -det } else { det };

    proof {
        assert(solution(*line1, *line2) == (xn as int, yn as int, den as int));
    }

    let on1: bool = rat_in_bbox(xn, yn, den, &p1, &p2);
    let on2: bool = rat_in_bbox(xn, yn, den, &p3, &p4);

    proof {
        lemma_cramer(a1 as int, b1 as int, c1 as int, a2 as int, b2 as int, c2 as int);
        lemma_scaled_line_eq(
            a1 as int,
            b1 as int,
            c1 as int,
            xn_raw as int,
            yn_raw as int,
            det as int,
            xn as int,
            yn as int,
            den as int,
        );
        lemma_scaled_line_eq(
            a2 as int,
            b2 as int,
            c2 as int,
            xn_raw as int,
            yn_raw as int,
            det as int,
            xn as int,
            yn as int,
            den as int,
        );
        assert(line_a(*line1) * (xn as int) + line_b(*line1) * (yn as int) == line_c(*line1) * (
        den as int));
        assert(line_a(*line2) * (xn as int) + line_b(*line2) * (yn as int) == line_c(*line2) * (
        den as int));
        lemma_line_eq_collinear(
            p1.x as int,
            p1.y as int,
            p2.x as int,
            p2.y as int,
            xn as int,
            yn as int,
            den as int,
        );
        lemma_line_eq_collinear(
            p3.x as int,
            p3.y as int,
            p4.x as int,
            p4.y as int,
            xn as int,
            yn as int,
            den as int,
        );
    }

    if on1 && on2 {
        Some(RatPoint { x_num: xn, y_num: yn, den })
    } else {
        None
    }
}

/// Swapping the two segments swaps the roles of the two line equations:
/// the determinant and both numerators change sign together, so the
/// normalized solution, and with it the whole result, is unchanged.
pub proof fn lemma_intersection_symmetric(l1: Line, l2: Line)
    ensures
        spec_line_intersection(l1, l2) == spec_line_intersection(l2, l1),
{
    assert(determinant(l2, l1) == -determinant(l1, l2));
    assert(line_b(l1) * line_c(l2) - line_b(l2) * line_c(l1) == -(line_b(l2) * line_c(l1) - line_b(
        l1,
    ) * line_c(l2)));
    assert(line_a(l2) * line_c(l1) - line_a(l1) * line_c(l2) == -(line_a(l1) * line_c(l2) - line_a(
        l2,
    ) * line_c(l1)));
    if determinant(l1, l2) != 0 {
        assert(solution(l2, l1) == solution(l1, l2));
    }
}

/// Two segments whose directions are parallel have a zero determinant, so
/// they intersect in nothing, whether or not their supporting lines
/// coincide and whether or not the segments touch.
pub proof fn lemma_parallel_no_intersection(l1: Line, l2: Line)
    requires
        parallel(l1, l2),
    ensures
        spec_line_intersection(l1, l2) is None,
{
    let s1 = l1.start;
    let e1 = l1.end;
    let s2 = l2.start;
    let e2 = l2.end;
    lemma_det_is_direction_cross(
        s1.x as int,
        s1.y as int,
        e1.x as int,
        e1.y as int,
        s2.x as int,
        s2.y as int,
        e2.x as int,
        e2.y as int,
    );
    assert(determinant(l1, l2) == (e1.x - s1.x) * (e2.y - s2.y) - (e2.x - s2.x) * (e1.y - s1.y));
}

/// A point that is an endpoint of both segments, when the segments are not
/// parallel, is returned as the intersection: the result is `Some` and its
/// value is exactly that shared point.
pub proof fn lemma_shared_endpoint_intersection(l1: Line, l2: Line, p: Point)
    requires
        determinant(l1, l2) != 0,
        p == l1.start || p == l1.end,
        p == l2.start || p == l2.end,
    ensures
        spec_line_intersection(l1, l2) matches Some(sol) && sol.0 == p.x * sol.2 && sol.1 == p.y
            * sol.2,
{
    let a1 = line_a(l1);
    let b1 = line_b(l1);
    let c1 = line_c(l1);
    let a2 = line_a(l2);
    let b2 = line_b(l2);
    let c2 = line_c(l2);
    lemma_endpoints_on_line(l1.start.x as int, l1.start.y as int, l1.end.x as int, l1.end.y as int);
    lemma_endpoints_on_line(l2.start.x as int, l2.start.y as int, l2.end.x as int, l2.end.y as int);
    assert(a1 * p.x + b1 * p.y == c1);
    assert(a2 * p.x + b2 * p.y == c2);
    lemma_common_point_is_solution(a1, b1, c1, a2, b2, c2, p.x as int, p.y as int);
    let d = determinant(l1, l2);
    let sol = solution(l1, l2);
    assert(sol == (p.x * sol.2, p.y * sol.2, sol.2) && sol.2 > 0) by {
        if d < 0 {
            assert(-(p.x * d) == p.x * -d && -(p.y * d) == p.y * -d) by (nonlinear_arith);
        }
    }
    lemma_solution_point_on_own_segment(l1, p, sol.2);
    lemma_solution_point_on_own_segment(l2, p, sol.2);
}

/// An endpoint of a segment, scaled by any positive denominator, passes the
/// segment-membership test against that segment.
proof fn lemma_solution_point_on_own_segment(l: Line, p: Point, d: int)
    requires
        d > 0,
        p == l.start || p == l.end,
    ensures
        rat_on_segment(p.x * d, p.y * d, d, l.start, l.end),
{
    let s = l.start;
    let e = l.end;
    lemma_endpoints_on_line(s.x as int, s.y as int, e.x as int, e.y as int);
    assert(line_a(l) * (p.x * d) + line_b(l) * (p.y * d) == line_c(l) * d) by (nonlinear_arith)
        requires
            line_a(l) * p.x + line_b(l) * p.y == line_c(l),
            d > 0,
    ;
    lemma_line_eq_collinear(
        s.x as int,
        s.y as int,
        e.x as int,
        e.y as int,
        p.x * d,
        p.y * d,
        d,
    );
    if s.x <= e.x {
        lemma_mul_le_mono(s.x as int, e.x as int, d);
    } else {
        lemma_mul_le_mono(e.x as int, s.x as int, d);
    }
    if s.y <= e.y {
        lemma_mul_le_mono(s.y as int, e.y as int, d);
    } else {
        lemma_mul_le_mono(e.y as int, s.y as int, d);
    }
    if p == l.start {
        assert(in_bbox(p.x * d, p.y * d, d, s, e));
    } else {
        assert(in_bbox(p.x * d, p.y * d, d, s, e));
    }
}

} // verus!
