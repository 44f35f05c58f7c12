use geom2d::convex_hull::compute_convex_hull;
use geom2d::types::calculate_orientation;
use geom2d::intersection::compute_line_intersection;
use geom2d::types::{Line, Point};

fn p(x: i32, y: i32) -> Point {
    Point::new(x, y)
}

fn seg(sx: i32, sy: i32, ex: i32, ey: i32) -> Line {
    Line::new(Point::new(sx, sy), Point::new(ex, ey))
}

#[test]
fn hull_of_unit_square_is_ccw_from_lowest() {
    let points = vec![p(0, 0), p(1, 1), p(1, 0), p(0, 1)];
    let hull = compute_convex_hull(&points);
    assert_eq!(hull, vec![p(0, 0), p(1, 0), p(1, 1), p(0, 1)]);
}

#[test]
fn hull_drops_collinear_middle_point() {
    let points = vec![p(0, 0), p(2, 0), p(1, 0), p(1, 1)];
    let hull = compute_convex_hull(&points);
    assert_eq!(hull, vec![p(0, 0), p(2, 0), p(1, 1)]);
}

#[test]
fn hull_drops_interior_point() {
    let points = vec![p(0, 0), p(4, 0), p(4, 4), p(0, 4), p(2, 2)];
    let hull = compute_convex_hull(&points);
    assert_eq!(hull, vec![p(0, 0), p(4, 0), p(4, 4), p(0, 4)]);
}

#[test]
fn hull_of_fewer_than_three_points_is_the_input() {
    let empty: Vec<Point> = vec![];
    assert_eq!(compute_convex_hull(&empty), empty);
    let one = vec![p(7, -3)];
    assert_eq!(compute_convex_hull(&one), one);
    let two = vec![p(2, 5), p(-1, 0)];
    assert_eq!(compute_convex_hull(&two), two);
}

#[test]
fn hull_of_collinear_points_degenerates_to_extremes() {
    let points = vec![p(0, 0), p(1, 0), p(2, 0)];
    let hull = compute_convex_hull(&points);
    assert_eq!(hull, vec![p(0, 0), p(2, 0)]);
}

#[test]
fn hull_of_identical_points_keeps_two_copies() {
    let points = vec![p(5, 5), p(5, 5), p(5, 5)];
    let hull = compute_convex_hull(&points);
    assert_eq!(hull, vec![p(5, 5), p(5, 5)]);
}

#[test]
fn hull_size_is_bounded_by_input_size() {
    let points = vec![
        p(0, 0),
        p(4, 0),
        p(4, 4),
        p(0, 4),
        p(2, 2),
        p(1, 1),
        p(3, 1),
        p(2, 3),
        p(0, 0),
        p(4, 4),
    ];
    let hull = compute_convex_hull(&points);
    assert!(hull.len() <= points.len());
    for v in &hull {
        assert!(points.contains(v));
    }
}

#[test]
fn hull_of_hexagon_is_strictly_convex_with_distinct_vertices() {
    let points = vec![
        p(2, 0),
        p(4, 1),
        p(4, 3),
        p(2, 4),
        p(0, 3),
        p(0, 1),
        p(2, 2),
        p(3, 2),
    ];
    let hull = compute_convex_hull(&points);
    assert_eq!(
        hull,
        vec![p(2, 0), p(4, 1), p(4, 3), p(2, 4), p(0, 3), p(0, 1)]
    );
    // no vertex repeats, and every wrapping triple turns counter-clockwise
    let m = hull.len();
    for i in 0..m {
        for j in (i + 1)..m {
            assert_ne!(hull[i], hull[j]);
        }
        let o = calculate_orientation(&hull[i], &hull[(i + 1) % m], &hull[(i + 2) % m]);
        assert_eq!(o, -1);
    }
}

#[test]
fn hull_is_idempotent_on_a_square() {
    let points = vec![p(0, 0), p(1, 1), p(1, 0), p(0, 1)];
    let hull = compute_convex_hull(&points);
    let again = compute_convex_hull(&hull);
    assert_eq!(again, hull);
}

#[test]
fn hull_is_idempotent_with_interior_points() {
    let points = vec![p(0, 0), p(6, 0), p(6, 6), p(0, 6), p(3, 3), p(1, 2), p(5, 4)];
    let hull = compute_convex_hull(&points);
    let again = compute_convex_hull(&hull);
    assert_eq!(again, hull);
}

#[test]
fn crossing_diagonals_intersect_in_the_middle() {
    let line1 = seg(0, 0, 2, 2);
    let line2 = seg(0, 2, 2, 0);
    let r = compute_line_intersection(&line1, &line2).expect("diagonals must cross");
    assert!(r.eq_point(&p(1, 1)));
    assert!(r.den > 0);
}

#[test]
fn parallel_horizontal_segments_do_not_intersect() {
    let line1 = seg(0, 0, 1, 0);
    let line2 = seg(0, 1, 1, 1);
    assert_eq!(compute_line_intersection(&line1, &line2), None);
}

#[test]
fn collinear_touching_segments_report_no_intersection() {
    // the two segments share the point (2, 0), but their supporting lines
    // coincide, so the determinant test reports them as parallel
    let line1 = seg(0, 0, 2, 0);
    let line2 = seg(2, 0, 4, 0);
    assert_eq!(compute_line_intersection(&line1, &line2), None);
}

#[test]
fn shared_endpoint_of_crossing_lines_is_returned() {
    let line1 = seg(0, 0, 2, 2);
    let line2 = seg(2, 2, 4, 0);
    let r = compute_line_intersection(&line1, &line2).expect("segments touch at (2, 2)");
    assert!(r.eq_point(&p(2, 2)));
}

#[test]
fn intersection_beyond_segment_end_is_rejected() {
    // the supporting lines cross at (3/2, 3/2), which is past the end of
    // the first segment
    let line1 = seg(0, 0, 1, 1);
    let line2 = seg(3, 0, 0, 3);
    assert_eq!(compute_line_intersection(&line1, &line2), None);
}

#[test]
fn degenerate_segment_yields_no_intersection() {
    // a zero-length segment makes both line coefficients vanish, so the
    // determinant is zero and the answer is well-defined absence
    let line1 = seg(1, 1, 1, 1);
    let line2 = seg(0, 0, 2, 2);
    assert_eq!(compute_line_intersection(&line1, &line2), None);
    assert_eq!(compute_line_intersection(&line2, &line1), None);
}

#[test]
fn t_junction_intersects_at_stem() {
    let line1 = seg(0, 0, 2, 0);
    let line2 = seg(1, 0, 1, 2);
    let r = compute_line_intersection(&line1, &line2).expect("stem touches the bar");
    assert!(r.eq_point(&p(1, 0)));
}

#[test]
fn intersection_is_symmetric() {
    let pairs = vec![
        (seg(0, 0, 2, 2), seg(0, 2, 2, 0)),
        (seg(0, 0, 1, 0), seg(0, 1, 1, 1)),
        (seg(0, 0, 2, 2), seg(2, 2, 4, 0)),
        (seg(0, 0, 1, 1), seg(3, 0, 0, 3)),
        (seg(-5, 3, 7, -2), seg(1, 1, 4, 9)),
    ];
    for (l1, l2) in pairs {
        assert_eq!(
            compute_line_intersection(&l1, &l2),
            compute_line_intersection(&l2, &l1)
        );
    }
}

#[test]
fn exact_rational_intersection_point() {
    // the lines of (0,0)-(3,1) and (0,1)-(3,0) cross at (3/2, 1/2)
    let line1 = seg(0, 0, 3, 1);
    let line2 = seg(0, 1, 3, 0);
    let r = compute_line_intersection(&line1, &line2).expect("symmetric crossing");
    // x/den == 3/2 and y/den == 1/2, checked without division
    assert_eq!(r.x_num * 2, 3 * r.den);
    assert_eq!(r.y_num * 2, r.den);
}

#[test]
fn distance_squared_is_exact() {
    let a = p(1, 2);
    let b = p(4, 6);
    assert_eq!(a.distance_squared(&b), 25);
    assert_eq!(b.distance_squared(&a), 25);
    assert_eq!(a.distance_squared(&a), 0);
    let l = seg(1, 2, 4, 6);
    assert_eq!(l.length_squared(), 25);
}

#[test]
fn orientation_signs() {
    // (0,0) -> (0,1) -> (1,1) turns clockwise
    assert_eq!(calculate_orientation(&p(0, 0), &p(0, 1), &p(1, 1)), 1);
    // (0,0) -> (1,0) -> (1,1) turns counter-clockwise
    assert_eq!(calculate_orientation(&p(0, 0), &p(1, 0), &p(1, 1)), -1);
    assert_eq!(calculate_orientation(&p(0, 0), &p(1, 1), &p(2, 2)), 0);
}
