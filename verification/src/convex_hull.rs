//! Convex hull of a finite point set by the Graham scan.
//!
//! A pivot (the lowest, then leftmost point) anchors an angular sort of the
//! remaining points; a stack-based sweep then discards every vertex that
//! does not make the hull strictly convex. The sweep walks the points in
//! descending angular order, which builds the boundary clockwise; the
//! result is handed back reversed behind the pivot, counter-clockwise.

use vstd::prelude::*;

use crate::types::{Point, cross_val, orientation, dist_sq, calculate_orientation};

verus! {

/// `a` is no higher than `b`, and no further right on a tie: the order in
/// which the scan's pivot is chosen.
pub open spec fn lowest_leq(a: Point, b: Point) -> bool {
    a.y < b.y || (a.y == b.y && a.x <= b.x)
}

/// `p` is a point of `s` that no other point of `s` beats as pivot.
pub open spec fn is_lowest(s: Seq<Point>, p: Point) -> bool {
    s.contains(p) && forall|j: int| 0 <= j < s.len() ==> lowest_leq(p, #[trigger] s[j])
}

/// The angular order around `pivot` that the scan sorts by: `a` comes
/// before `b` when the walk `pivot -> a -> b` turns clockwise (so the
/// points come in descending polar angle), and on collinear ties when `a`
/// is the nearer of the two.
pub open spec fn angle_lt(pivot: Point, a: Point, b: Point) -> bool {
    orientation(pivot, a, b) == 1 || (orientation(pivot, a, b) == 0 && dist_sq(pivot, a)
        < dist_sq(pivot, b))
}

/// Adjacent elements of `s` are in angular order around `pivot`.
pub open spec fn sorted_by_angle(pivot: Point, s: Seq<Point>) -> bool {
    forall|i: int| 0 <= i && i + 1 < s.len() ==> !angle_lt(pivot, s[i + 1], #[trigger] s[i])
}

/// Every element of `s` occurs in `t`.
pub open spec fn points_from(s: Seq<Point>, t: Seq<Point>) -> bool {
    forall|k: int| 0 <= k < s.len() ==> t.contains(#[trigger] s[k])
}

/// Swapping the last two arguments of the orientation test flips its sign.
proof fn lemma_cross_antisym_int(px: int, py: int, ax: int, ay: int, bx: int, by: int)
    by (nonlinear_arith)
    ensures
        (ay - py) * (bx - ax) - (ax - px) * (by - ay) == -((by - py) * (ax - bx) - (bx - px) * (ay
            - by)),
{
}

/// Swapping the last two points flips the orientation.
pub proof fn lemma_orientation_antisym(p: Point, a: Point, b: Point)
    ensures
        orientation(p, b, a) == -orientation(p, a, b),
{
    lemma_cross_antisym_int(p.x as int, p.y as int, a.x as int, a.y as int, b.x as int, b.y as int);
    assert(cross_val(p, a, b) == -cross_val(p, b, a));
}

/// Reversing the walk through three points flips the orientation.
proof fn lemma_cross_reverse_int(px: int, py: int, qx: int, qy: int, rx: int, ry: int)
    by (nonlinear_arith)
    ensures
        (qy - ry) * (px - qx) - (qx - rx) * (py - qy) == -((qy - py) * (rx - qx) - (qx - px) * (ry
            - qy)),
{
}

/// Reversing the walk through three points flips the orientation.
pub proof fn lemma_orientation_reverse(p: Point, q: Point, r: Point)
    ensures
        orientation(r, q, p) == -orientation(p, q, r),
{
    lemma_cross_reverse_int(p.x as int, p.y as int, q.x as int, q.y as int, r.x as int, r.y as int);
    assert(cross_val(r, q, p) == -cross_val(p, q, r));
}

/// `a` comes no later than `b` in the angular order around `pivot`.
pub open spec fn angle_le(pivot: Point, a: Point, b: Point) -> bool {
    !angle_lt(pivot, b, a)
}

/// The orientation test is invariant under rotating its three arguments.
proof fn lemma_cross_cyclic_int(px: int, py: int, ax: int, ay: int, bx: int, by: int)
    by (nonlinear_arith)
    ensures
        (ay - py) * (bx - ax) - (ax - px) * (by - ay) == (by - ay) * (px - bx) - (bx - ax) * (py
            - by),
{
}

/// The orientation test is invariant under rotating its three arguments.
pub proof fn lemma_orientation_cyclic(p: Point, a: Point, b: Point)
    ensures
        orientation(a, b, p) == orientation(p, a, b),
{
    lemma_cross_cyclic_int(p.x as int, p.y as int, a.x as int, a.y as int, b.x as int, b.y as int);
    assert(cross_val(a, b, p) == cross_val(p, a, b));
}

/// The orientation test vanishes whenever two of its three points agree.
proof fn lemma_cross_val_degenerate_int(px: int, py: int, qx: int, qy: int, rx: int, ry: int)
    by (nonlinear_arith)
    requires
        (px == qx && py == qy) || (qx == rx && qy == ry) || (rx == px && ry == py),
    ensures
        (qy - py) * (rx - qx) - (qx - px) * (ry - qy) == 0,
{
}

/// The orientation test vanishes whenever two of its three points agree.
proof fn lemma_orientation_degenerate(p: Point, q: Point, r: Point)
    requires
        p == q || q == r || r == p,
    ensures
        orientation(p, q, r) == 0,
{
    lemma_cross_val_degenerate_int(
        p.x as int,
        p.y as int,
        q.x as int,
        q.y as int,
        r.x as int,
        r.y as int,
    );
    assert(cross_val(p, q, r) == 0);
}

/// Strict angular order around the pivot is transitive, over the
/// difference vectors `u = a - p`, `v = b - p`, `w = c - p` of points in
/// the pivot's closed upper half plane (with the leftmost tie rule that
/// the pivot's choice guarantees); `uy * vx - ux * vy` is the orientation
/// cross value of `(p, a, b)`.
proof fn lemma_strict_trans_int(ux: int, uy: int, vx: int, vy: int, wx: int, wy: int)
    by (nonlinear_arith)
    requires
        uy > 0 || (uy == 0 && ux >= 0),
        vy > 0 || (vy == 0 && vx >= 0),
        wy > 0 || (wy == 0 && wx >= 0),
        uy * vx - ux * vy > 0,
        vy * wx - vx * wy > 0,
    ensures
        uy * wx - ux * wy > 0,
{
}

/// The orientation cross value, rewritten over coordinate differences
/// taken from the first point.
proof fn lemma_cross_val_centered(px: int, py: int, qx: int, qy: int, rx: int, ry: int)
    by (nonlinear_arith)
    ensures
        (qy - py) * (rx - qx) - (qx - px) * (ry - qy) == (qy - py) * (rx - px) - (qx - px) * (ry
            - py),
{
}

/// Strict angular order around the pivot is transitive when every point
/// lies no lower than the pivot (and no further left on a tie).
pub proof fn lemma_angle_strict_trans(p: Point, a: Point, b: Point, c: Point)
    requires
        lowest_leq(p, a),
        lowest_leq(p, b),
        lowest_leq(p, c),
        orientation(p, a, b) == 1,
        orientation(p, b, c) == 1,
    ensures
        orientation(p, a, c) == 1,
{
    lemma_cross_val_centered(p.x as int, p.y as int, a.x as int, a.y as int, b.x as int, b.y as int);
    lemma_cross_val_centered(p.x as int, p.y as int, b.x as int, b.y as int, c.x as int, c.y as int);
    lemma_cross_val_centered(p.x as int, p.y as int, a.x as int, a.y as int, c.x as int, c.y as int);
    lemma_strict_trans_int(
        a.x - p.x,
        a.y - p.y,
        b.x - p.x,
        b.y - p.y,
        c.x - p.x,
        c.y - p.y,
    );
}

/// Non-strict angular order (collinear ties broken by distance) is
/// transitive in the pivot's closed upper half plane.
proof fn lemma_le_trans_int(ux: int, uy: int, vx: int, vy: int, wx: int, wy: int)
    by (nonlinear_arith)
    requires
        uy > 0 || (uy == 0 && ux >= 0),
        vy > 0 || (vy == 0 && vx >= 0),
        wy > 0 || (wy == 0 && wx >= 0),
        uy * vx - ux * vy > 0 || (uy * vx - ux * vy == 0 && ux * ux + uy * uy <= vx * vx + vy
            * vy),
        vy * wx - vx * wy > 0 || (vy * wx - vx * wy == 0 && vx * vx + vy * vy <= wx * wx + wy
            * wy),
    ensures
        uy * wx - ux * wy > 0 || (uy * wx - ux * wy == 0 && ux * ux + uy * uy <= wx * wx + wy
            * wy),
{
}

/// Non-strict angular order around the pivot is transitive when every
/// point lies no lower than the pivot (and no further left on a tie).
pub proof fn lemma_angle_le_trans(p: Point, a: Point, b: Point, c: Point)
    requires
        lowest_leq(p, a),
        lowest_leq(p, b),
        lowest_leq(p, c),
        angle_le(p, a, b),
        angle_le(p, b, c),
    ensures
        angle_le(p, a, c),
{
    lemma_orientation_antisym(p, a, b);
    lemma_orientation_antisym(p, b, c);
    lemma_orientation_antisym(p, a, c);
    lemma_cross_val_centered(p.x as int, p.y as int, a.x as int, a.y as int, b.x as int, b.y as int);
    lemma_cross_val_centered(p.x as int, p.y as int, b.x as int, b.y as int, c.x as int, c.y as int);
    lemma_cross_val_centered(p.x as int, p.y as int, a.x as int, a.y as int, c.x as int, c.y as int);
    lemma_le_trans_int(
        a.x - p.x,
        a.y - p.y,
        b.x - p.x,
        b.y - p.y,
        c.x - p.x,
        c.y - p.y,
    );
}

/// In a sequence of points from the pivot's half plane whose adjacent
/// elements are in angular order, every pair is.
proof fn lemma_sorted_pairwise(pivot: Point, s: Seq<Point>, i: int, j: int)
    requires
        sorted_by_angle(pivot, s),
        forall|m: int| 0 <= m < s.len() ==> lowest_leq(pivot, #[trigger] s[m]),
        0 <= i <= j < s.len(),
    ensures
        angle_le(pivot, s[i], s[j]),
    decreases j - i,
{
    if i == j {
        assert(cross_val(pivot, s[i], s[i]) == 0);
    } else {
        lemma_sorted_pairwise(pivot, s, i, j - 1);
        assert(!angle_lt(pivot, s[j], s[j - 1]));
        lemma_angle_le_trans(pivot, s[i], s[j - 1], s[j]);
    }
}

/// A chain of strict angular steps composes to a strict step.
proof fn lemma_chain_strict(pivot: Point, s: Seq<Point>, i: int, j: int)
    requires
        forall|m: int|
            1 <= m && m + 1 < s.len() ==> orientation(pivot, #[trigger] s[m], s[m + 1]) == 1,
        forall|m: int| 0 <= m < s.len() ==> lowest_leq(pivot, #[trigger] s[m]),
        1 <= i < j < s.len(),
    ensures
        orientation(pivot, s[i], s[j]) == 1,
    decreases j - i,
{
    if i + 1 == j {
        assert(orientation(pivot, s[i], s[j]) == 1);
    } else {
        lemma_chain_strict(pivot, s, i, j - 1);
        assert(orientation(pivot, s[j - 1], s[j]) == 1);
        lemma_angle_strict_trans(pivot, s[i], s[j - 1], s[j]);
    }
}

/// When the top of the stack is collinear with the pivot and the incoming
/// point, and no farther from the pivot, the sweep's pop test fires: the
/// three points at hand do not make a clockwise turn. Written over
/// difference vectors from the pivot, `u` below, `v` top, `w` candidate.
proof fn lemma_collinear_blocks_int(ux: int, uy: int, vx: int, vy: int, wx: int, wy: int)
    by (nonlinear_arith)
    requires
        uy > 0 || (uy == 0 && ux >= 0),
        vy > 0 || (vy == 0 && vx >= 0),
        wy > 0 || (wy == 0 && wx >= 0),
        uy * vx - ux * vy > 0 || (uy * vx - ux * vy == 0 && ux * ux + uy * uy <= vx * vx + vy
            * vy),
        vy * wx - vx * wy == 0,
        vx * vx + vy * vy <= wx * wx + wy * wy,
    ensures
        (vy - uy) * (wx - vx) - (vx - ux) * (wy - vy) <= 0,
{
}

/// The point-level form of `lemma_collinear_blocks_int`.
proof fn lemma_collinear_blocks(p: Point, below: Point, top: Point, cand: Point)
    requires
        lowest_leq(p, below),
        lowest_leq(p, top),
        lowest_leq(p, cand),
        angle_le(p, below, top),
        orientation(p, top, cand) == 0,
        dist_sq(p, top) <= dist_sq(p, cand),
    ensures
        orientation(below, top, cand) <= 0,
{
    lemma_orientation_antisym(p, below, top);
    lemma_cross_val_centered(
        p.x as int,
        p.y as int,
        below.x as int,
        below.y as int,
        top.x as int,
        top.y as int,
    );
    lemma_cross_val_centered(
        p.x as int,
        p.y as int,
        top.x as int,
        top.y as int,
        cand.x as int,
        cand.y as int,
    );
    lemma_collinear_blocks_int(
        below.x - p.x,
        below.y - p.y,
        top.x - p.x,
        top.y - p.y,
        cand.x - p.x,
        cand.y - p.y,
    );
    assert(cross_val(below, top, cand) == (top.y - below.y) * (cand.x - top.x) - (top.x - below.x)
        * (cand.y - top.y));
}

/// Points drawn from a set that the pivot is lowest in lie in the pivot's
/// closed upper half plane.
proof fn lemma_half_plane_all(pivot: Point, s: Seq<Point>, pts: Seq<Point>)
    requires
        points_from(s, pts),
        forall|j: int| 0 <= j < pts.len() ==> lowest_leq(pivot, #[trigger] pts[j]),
    ensures
        forall|m: int| 0 <= m < s.len() ==> lowest_leq(pivot, #[trigger] s[m]),
{
    assert forall|m: int| 0 <= m < s.len() implies lowest_leq(pivot, #[trigger] s[m]) by {
        assert(pts.contains(s[m]));
        let j = choose|j: int| 0 <= j < pts.len() && pts[j] == s[m];
        assert(lowest_leq(pivot, pts[j]));
    }
}

/// The angular order is asymmetric: no two points each precede the other.
pub proof fn lemma_angle_lt_asym(pivot: Point, a: Point, b: Point)
    requires
        angle_lt(pivot, a, b),
    ensures
        !angle_lt(pivot, b, a),
{
    lemma_orientation_antisym(pivot, a, b);
}

/// Decides the angular order around `pivot`.
fn angle_lt_exec(pivot: &Point, a: &Point, b: &Point) -> (r: bool)
    ensures
        r == angle_lt(*pivot, *a, *b),
{
    let o = calculate_orientation(pivot, a, b);
    if o == 1 {
        true
    } else if o == 0 {
        pivot.distance_squared(a) < pivot.distance_squared(b)
    } else {
        false
    }
}

/// Index of the lowest point, ties broken towards the leftmost; among
/// equal points, the first occurrence.
fn find_lowest_point(points: &Vec<Point>) -> (idx: usize)
    requires
        points.len() > 0,
    ensures
        idx < points.len(),
        forall|j: int| 0 <= j < points.len() ==> lowest_leq(points@[idx as int], #[trigger] points@[j]),
        forall|j: int| 0 <= j < idx ==> !lowest_leq(#[trigger] points@[j], points@[idx as int]),
{
    let mut lowest: usize = 0;
    let mut i: usize = 1;
    while i < points.len()
        invariant
            points.len() > 0,
            lowest < points.len(),
            1 <= i <= points.len(),
            forall|j: int| 0 <= j < i ==> lowest_leq(points@[lowest as int], #[trigger] points@[j]),
            forall|j: int| 0 <= j < lowest ==> !lowest_leq(#[trigger] points@[j], points@[lowest as int]),
        decreases points.len() - i,
    {
        if points[i].y < points[lowest].y || (points[i].y == points[lowest].y && points[i].x
            < points[lowest].x) {
            lowest = i;
        }
        i += 1;
    }
    lowest
}

/// Sorts `v` by angle around `pivot` (insertion sort): the result draws
/// its points from `v` and its adjacent pairs are in angular order.
fn sort_by_angle(pivot: &Point, v: &Vec<Point>) -> (r: Vec<Point>)
    ensures
        r.len() == v.len(),
        sorted_by_angle(*pivot, r@),
        points_from(r@, v@),
{
    let mut r: Vec<Point> = Vec::new();
    let mut idx: usize = 0;
    while idx < v.len()
        invariant
            idx <= v.len(),
            r.len() == idx,
            sorted_by_angle(*pivot, r@),
            points_from(r@, v@),
        decreases v.len() - idx,
    {
        let x = v[idx];
        r.push(x);
        proof {
            assert(v@.contains(v@[idx as int]));
        }
        let mut j: usize = r.len() - 1;
        while j > 0 && angle_lt_exec(pivot, &r[j], &r[j - 1])
            invariant
                r.len() == idx + 1,
                j < r.len(),
                points_from(r@, v@),
                // every adjacent pair is ordered, except possibly (j - 1, j)
                forall|i: int|
                    0 <= i && i + 1 < r.len() && i != j - 1 ==> !angle_lt(
                        *pivot,
                        r@[i + 1],
                        #[trigger] r@[i],
                    ),
                // the pair bridging over position j is ordered
                j >= 1 && j + 1 < r.len() ==> !angle_lt(*pivot, r@[j + 1], r@[j - 1]),
            decreases j,
        {
            proof {
                lemma_angle_lt_asym(*pivot, r@[j as int], r@[j - 1]);
                if j >= 2 {
                    assert(!angle_lt(*pivot, r@[j - 1], r@[j - 2]));
                }
                if j + 1 < r.len() {
                    assert(!angle_lt(*pivot, r@[j + 1], r@[j - 1]));
                }
            }
            let a = r[j - 1];
            let b = r[j];
            r.set(j - 1, b);
            r.set(j, a);
            j -= 1;
        }
        idx += 1;
    }
    r
}

/// `points_from` composes: drawing from a drawing from `c` draws from `c`.
proof fn lemma_points_from_trans(a: Seq<Point>, b: Seq<Point>, c: Seq<Point>)
    requires
        points_from(a, b),
        points_from(b, c),
    ensures
        points_from(a, c),
{
    assert forall|k: int| 0 <= k < a.len() implies c.contains(#[trigger] a[k]) by {
        assert(b.contains(a[k]));
        let j = choose|j: int| 0 <= j < b.len() && b[j] == a[k];
        assert(c.contains(b[j]));
    }
}

/// At a push with at least two stack entries, the new top pair advances
/// strictly in angle around the pivot: a collinear tie would have made the
/// sweep's pop test fire instead of leaving the top in place.
proof fn lemma_push_strict(
    pivot: Point,
    sorted: Seq<Point>,
    pre: Seq<Point>,
    pregidx: Seq<int>,
    k: int,
    cand: Point,
)
    requires
        sorted_by_angle(pivot, sorted),
        forall|j: int| 0 <= j < sorted.len() ==> lowest_leq(pivot, #[trigger] sorted[j]),
        forall|i: int| 0 <= i < pre.len() ==> lowest_leq(pivot, #[trigger] pre[i]),
        pregidx.len() == pre.len(),
        forall|i: int|
            1 <= i < pre.len() ==> 0 <= #[trigger] pregidx[i] && pregidx[i] < k && pre[i]
                == sorted[pregidx[i]],
        forall|i: int| 1 <= i && i + 1 < pre.len() ==> #[trigger] pregidx[i] < pregidx[i + 1],
        0 <= k < sorted.len(),
        cand == sorted[k],
        pre.len() >= 2,
        pre[0] == pivot,
        orientation(pre[pre.len() - 2], pre[pre.len() - 1], cand) == 1,
    ensures
        orientation(pivot, pre[pre.len() - 1], cand) == 1,
{
    let top = pre[pre.len() - 1];
    let j0 = pregidx[pre.len() - 1];
    lemma_sorted_pairwise(pivot, sorted, j0, k);
    lemma_orientation_antisym(pivot, top, cand);
    if orientation(pivot, top, cand) != 1 {
        assert(orientation(pivot, top, cand) == 0);
        assert(dist_sq(pivot, top) <= dist_sq(pivot, cand));
        if pre.len() == 2 {
            assert(pre[0] == pivot);
            assert(false);
        } else {
            let j1 = pregidx[pre.len() - 2];
            lemma_sorted_pairwise(pivot, sorted, j1, j0);
            lemma_collinear_blocks(pivot, pre[pre.len() - 2], top, cand);
            assert(false);
        }
    }
}

/// Carries the sweep's invariants over to the reversed output: counter-
/// clockwise turns at every wrapping triple, vertices from the input, and
/// no repeated vertex.
proof fn lemma_hull_shape(pivot: Point, points: Seq<Point>, s: Seq<Point>, h: Seq<Point>)
    requires
        s.len() >= 2,
        h.len() == s.len(),
        s[0] == pivot,
        h[0] == s[0],
        forall|m: int| 1 <= m < h.len() ==> #[trigger] h[m] == s[s.len() - m],
        forall|i: int| 0 <= i < s.len() ==> points.contains(#[trigger] s[i]),
        forall|i: int| 0 <= i < s.len() ==> lowest_leq(pivot, #[trigger] s[i]),
        forall|i: int|
            1 <= i && i + 1 < s.len() ==> orientation(pivot, #[trigger] s[i], s[i + 1]) == 1,
        forall|i: int|
            0 <= i && i + 2 < s.len() ==> orientation(#[trigger] s[i], s[i + 1], s[i + 2]) == 1,
    ensures
        forall|m: int| 0 <= m < h.len() ==> points.contains(#[trigger] h[m]),
        forall|i: int|
            0 <= i && i + 2 < h.len() ==> orientation(#[trigger] h[i], h[i + 1], h[i + 2]) == -1,
        h.len() >= 3 ==> orientation(h[h.len() - 2], h[h.len() - 1], h[0]) == -1,
        h.len() >= 3 ==> orientation(h[h.len() - 1], h[0], h[1]) == -1,
        forall|i: int, j: int| 1 <= i < j < h.len() ==> h[i] != h[j],
        h.len() >= 3 ==> forall|j: int| 1 <= j < h.len() ==> h[0] != #[trigger] h[j],
{
    let len = s.len();
    assert forall|m: int| 0 <= m < h.len() implies points.contains(#[trigger] h[m]) by {
        if m == 0 {
            assert(h[0] == s[0]);
        } else {
            assert(h[m] == s[len - m]);
        }
    }
    assert forall|i: int|
        0 <= i && i + 2 < h.len() implies orientation(#[trigger] h[i], h[i + 1], h[i + 2])
        == -1 by {
        if i >= 1 {
            assert(h[i] == s[len - i] && h[i + 1] == s[len - i - 1] && h[i + 2] == s[len - i - 2]);
            assert(orientation(s[len - i - 2], s[len - i - 1], s[len - i]) == 1);
            lemma_orientation_reverse(s[len - i - 2], s[len - i - 1], s[len - i]);
        } else {
            // (pivot, last sweep point, second-to-last sweep point)
            assert(h[0] == s[0] && h[1] == s[len - 1] && h[2] == s[len - 2]);
            assert(orientation(pivot, s[len - 2], s[len - 1]) == 1);
            lemma_orientation_antisym(pivot, s[len - 2], s[len - 1]);
        }
    }
    if len >= 3 {
        assert(h[len - 2] == s[2] && h[len - 1] == s[1] && h[0] == s[0]);
        assert(orientation(s[0], s[1], s[2]) == 1);
        lemma_orientation_reverse(s[0], s[1], s[2]);
        // closing the cycle through the pivot
        lemma_chain_strict(pivot, s, 1, len - 1);
        lemma_orientation_antisym(pivot, s[1], s[len - 1]);
        lemma_orientation_cyclic(s[1], pivot, s[len - 1]);
        assert(orientation(h[len - 1], h[0], h[1]) == -1);
    }
    // the sweep keeps each vertex once: strictly increasing angles
    assert forall|a: int, b: int| 1 <= a < b < len implies s[a] != s[b] by {
        lemma_chain_strict(pivot, s, a, b);
        if s[a] == s[b] {
            lemma_orientation_degenerate(pivot, s[a], s[b]);
            assert(false);
        }
    }
    if len >= 3 {
        assert forall|j: int| 1 <= j < len implies #[trigger] s[j] != s[0] by {
            if s[j] == s[0] {
                if j + 1 < len {
                    assert(orientation(pivot, s[j], s[j + 1]) == 1);
                    lemma_orientation_degenerate(pivot, s[j], s[j + 1]);
                } else {
                    lemma_chain_strict(pivot, s, 1, len - 1);
                    lemma_orientation_degenerate(pivot, s[1], s[len - 1]);
                }
                assert(false);
            }
        }
    }
    assert forall|i: int, j: int| 1 <= i < j < h.len() implies h[i] != h[j] by {
        assert(h[i] == s[len - i] && h[j] == s[len - j]);
    }
    if len >= 3 {
        assert forall|j: int| 1 <= j < h.len() implies h[0] != #[trigger] h[j] by {
            assert(h[0] == s[0] && h[j] == s[len - j]);
        }
    }
}

/// A fresh copy of `points` with the same contents.
fn copy_points(points: &Vec<Point>) -> (r: Vec<Point>)
    ensures
        r@ == points@,
{
    let mut r: Vec<Point> = Vec::new();
    let mut i: usize = 0;
    while i < points.len()
        invariant
            i <= points.len(),
            r@ == points@.subrange(0, i as int),
        decreases points.len() - i,
    {
        r.push(points[i]);
        proof {
            assert(points@.subrange(0, i as int).push(points@[i as int]) =~= points@.subrange(
                0,
                i + 1,
            ));
        }
        i += 1;
    }
    proof {
        assert(points@.subrange(0, points.len() as int) =~= points@);
    }
    r
}

/// Computes the convex hull of `points` by the Graham scan.
///
/// Fewer than three points are returned unchanged. Otherwise the hull
/// starts at the lowest (then leftmost) input point and walks the boundary
/// counter-clockwise; collinear boundary points are dropped, so every
/// consecutive vertex triple, wrapping around the boundary, is a strict
/// counter-clockwise turn, and no vertex appears twice. All hull vertices
/// are input points, and there are never more of them than there are
/// inputs.
pub fn compute_convex_hull(points: &Vec<Point>) -> (hull: Vec<Point>)
    ensures
        hull.len() <= points.len(),
        points.len() < 3 ==> hull@ == points@,
        points.len() >= 3 ==> {
            &&& hull.len() >= 2
            &&& is_lowest(points@, hull@[0])
            &&& points_from(hull@, points@)
            &&& forall|i: int|
                0 <= i && i + 2 < hull.len() ==> orientation(
                    #[trigger] hull@[i],
                    hull@[i + 1],
                    hull@[i + 2],
                ) == -1
            &&& (hull.len() >= 3 ==> orientation(
                hull@[hull.len() - 2],
                hull@[hull.len() - 1],
                hull@[0],
            ) == -1)
            &&& (hull.len() >= 3 ==> orientation(
                hull@[hull.len() - 1],
                hull@[0],
                hull@[1],
            ) == -1)
            &&& forall|i: int, j: int| 1 <= i < j < hull.len() ==> hull@[i] != hull@[j]
            &&& (hull.len() >= 3 ==> forall|j: int| 1 <= j < hull.len() ==> hull@[0]
                != #[trigger] hull@[j])
        },
{
    let n = points.len();
    if n < 3 {
        return copy_points(points);
    }
    let low = find_lowest_point(points);
    let pivot = points[low];
    proof {
        assert(points@.contains(points@[low as int]));
    }

    // every point but one occurrence of the pivot
    let mut rest: Vec<Point> = Vec::new();
    let mut i: usize = 0;
    while i < n
        invariant
            n == points.len(),
            low < n,
            i <= n,
            rest.len() == if i <= low {
                i as int
            } else {
                i - 1
            },
            points_from(rest@, points@),
        decreases n - i,
    {
        if i != low {
            rest.push(points[i]);
            proof {
                assert(points@.contains(points@[i as int]));
            }
        }
        i += 1;
    }

    let sorted = sort_by_angle(&pivot, &rest);
    proof {
        lemma_points_from_trans(sorted@, rest@, points@);
    }

    // clockwise sweep in descending angular order
    proof {
        lemma_half_plane_all(pivot, sorted@, points@);
    }
    let mut stack: Vec<Point> = Vec::new();
    stack.push(pivot);
    stack.push(sorted[0]);
    // ghost positions in `sorted` of the stack entries above the pivot
    let ghost mut gidx: Seq<int> = seq![-1, 0];
    let mut k: usize = 1;
    while k < sorted.len()
        invariant
            n == points.len(),
            n >= 3,
            sorted.len() == n - 1,
            1 <= k <= sorted.len(),
            2 <= stack.len() <= k + 1,
            stack@[0] == pivot,
            sorted_by_angle(pivot, sorted@),
            forall|j: int| 0 <= j < sorted@.len() ==> lowest_leq(pivot, #[trigger] sorted@[j]),
            forall|i: int| 0 <= i < stack@.len() ==> lowest_leq(pivot, #[trigger] stack@[i]),
            gidx.len() == stack@.len(),
            forall|i: int|
                1 <= i < stack@.len() ==> 0 <= #[trigger] gidx[i] && gidx[i] < k && stack@[i]
                    == sorted@[gidx[i]],
            forall|i: int| 1 <= i && i + 1 < stack@.len() ==> #[trigger] gidx[i] < gidx[i + 1],
            forall|i: int|
                1 <= i && i + 1 < stack@.len() ==> orientation(
                    pivot,
                    #[trigger] stack@[i],
                    stack@[i + 1],
                ) == 1,
            forall|i: int|
                0 <= i && i + 2 < stack.len() ==> orientation(
                    #[trigger] stack@[i],
                    stack@[i + 1],
                    stack@[i + 2],
                ) == 1,
        decreases sorted.len() - k,
    {
        let cand = sorted[k];
        while stack.len() >= 2 && calculate_orientation(
            &stack[stack.len() - 2],
            &stack[stack.len() - 1],
            &cand,
        ) <= 0
            invariant
                1 <= stack.len() <= k + 1,
                stack@[0] == pivot,
                forall|i: int| 0 <= i < stack@.len() ==> lowest_leq(pivot, #[trigger] stack@[i]),
                gidx.len() == stack@.len(),
                forall|i: int|
                    1 <= i < stack@.len() ==> 0 <= #[trigger] gidx[i] && gidx[i] < k && stack@[i]
                        == sorted@[gidx[i]],
                forall|i: int| 1 <= i && i + 1 < stack@.len() ==> #[trigger] gidx[i] < gidx[i + 1],
                forall|i: int|
                    1 <= i && i + 1 < stack@.len() ==> orientation(
                        pivot,
                        #[trigger] stack@[i],
                        stack@[i + 1],
                    ) == 1,
                forall|i: int|
                    0 <= i && i + 2 < stack.len() ==> orientation(
                        #[trigger] stack@[i],
                        stack@[i + 1],
                        stack@[i + 2],
                    ) == 1,
            decreases stack.len(),
        {
            let ghost pre = stack@;
            let _ = stack.pop();
            proof {
                assert(stack@ =~= pre.subrange(0, pre.len() - 1));
                gidx = gidx.drop_last();
            }
        }
        let ghost pre = stack@;
        let ghost pregidx = gidx;
        stack.push(cand);
        proof {
            gidx = gidx.push(k as int);
            if pre.len() >= 2 {
                // the new top pair must advance strictly in angle: a
                // collinear tie would have made the pop test fire
                assert(orientation(pre[pre.len() - 2], pre[pre.len() - 1], cand) == 1);
                lemma_push_strict(pivot, sorted@, pre, pregidx, k as int, cand);
            }
            assert forall|i: int|
                0 <= i && i + 2 < stack@.len() implies orientation(
                #[trigger] stack@[i],
                stack@[i + 1],
                stack@[i + 2],
            ) == 1 by {
                if i + 2 < pre.len() {
                    assert(orientation(pre[i], pre[i + 1], pre[i + 2]) == 1);
                } else {
                    assert(stack@[i] == pre[i] && stack@[i + 1] == pre[i + 1] && stack@[i + 2]
                        == cand);
                }
            }
        }
        k += 1;
    }
    proof {
        // every stack entry is an input point
        assert forall|i: int| 0 <= i < stack@.len() implies points@.contains(
            #[trigger] stack@[i],
        ) by {
            if i == 0 {
                assert(points@.contains(points@[low as int]));
            } else {
                assert(stack@[i] == sorted@[gidx[i]]);
                assert(sorted@.contains(sorted@[gidx[i]]));
            }
        }
    }

    // reverse the sweep behind the pivot: the boundary, counter-clockwise
    let mut hull: Vec<Point> = Vec::new();
    hull.push(stack[0]);
    let mut t: usize = stack.len();
    while t > 1
        invariant
            2 <= stack.len(),
            1 <= t <= stack.len(),
            hull.len() == 1 + (stack.len() - t),
            hull@[0] == stack@[0],
            forall|m: int| 1 <= m < hull.len() ==> #[trigger] hull@[m] == stack@[stack.len() - m],
        decreases t,
    {
        t -= 1;
        hull.push(stack[t]);
    }

    proof {
        assert(points@.contains(stack@[0]));
        lemma_hull_shape(pivot, points@, stack@, hull@);
        assert(is_lowest(points@, hull@[0]));
    }
    hull
}

} // verus!
