use plane_geometry::Point;
use plane_geometry::closest_pair::closest_pair_brute_force;
use plane_geometry::closest_pair::closest_pair_divide_conquer;
use plane_geometry::hull::convex_hull_graham_scan;
use plane_geometry::kdtree::KdTree;
use plane_geometry::segment::LineSegment;
use plane_geometry::segment::find_intersecting_segments;

fn pts(coords: &[(i64, i64)]) -> Vec<Point> {
    coords.iter().map(|&(x, y)| Point::new(x, y)).collect()
}

/// Minimum pairwise squared distance by direct enumeration.
fn min_pair_dist_sq(points: &[Point]) -> i64 {
    let mut best = i64::MAX;
    for i in 0..points.len() {
        for j in (i + 1)..points.len() {
            let d = points[i].distance_squared_to(&points[j]);
            if d < best {
                best = d;
            }
        }
    }
    best
}

/// Nearest stored point to `query` by direct enumeration.
fn brute_nearest(points: &[Point], query: &Point) -> i64 {
    points
        .iter()
        .map(|p| query.distance_squared_to(p))
        .min()
        .unwrap()
}

#[test]
fn test_point_distance() {
    let p1 = Point::new(0, 0);
    let p2 = Point::new(3, 4);
    assert_eq!(p1.distance_squared_to(&p2), 25);
    assert_eq!((p1.distance_squared_to(&p2) as f64).sqrt(), 5.0);
}

#[test]
fn test_closest_pair_brute_force() {
    let points = pts(&[(0, 0), (1, 1), (5, 5), (2, 2)]);
    let result = closest_pair_brute_force(&points).unwrap();
    let distance = (result.distance_squared as f64).sqrt();
    assert!((distance - 2.0_f64.sqrt()).abs() < 1e-10);
}

#[test]
fn test_closest_pair_divide_conquer() {
    let points = pts(&[(0, 0), (1, 1), (5, 5), (2, 2)]);
    let result = closest_pair_divide_conquer(&points).unwrap();
    let distance = (result.distance_squared as f64).sqrt();
    assert!((distance - 2.0_f64.sqrt()).abs() < 1e-10);
}

#[test]
fn test_line_segment_intersection() {
    let seg1 = LineSegment::new(Point::new(0, 0), Point::new(2, 2));
    let seg2 = LineSegment::new(Point::new(0, 2), Point::new(2, 0));
    assert!(seg1.intersects(&seg2));

    let seg3 = LineSegment::new(Point::new(0, 0), Point::new(1, 1));
    let seg4 = LineSegment::new(Point::new(2, 2), Point::new(3, 3));
    assert!(!seg3.intersects(&seg4));
}

#[test]
fn test_kdtree() {
    let points = pts(&[(2, 3), (5, 4), (9, 6), (4, 7), (8, 1), (7, 2)]);
    let tree = KdTree::build(&points);
    let query = Point::new(5, 5);
    let nearest = tree.nearest_neighbor(&query).unwrap();
    // Should find one of the nearby points.
    assert!((query.distance_squared_to(&nearest) as f64).sqrt() < 3.0);
}

#[test]
fn closest_pair_picks_first_minimal_pair() {
    // (0,0)-(1,1) and (1,1)-(2,2) tie at distance sqrt(2); the scan
    // meets (0,0)-(1,1) first and keeps it.
    let points = pts(&[(0, 0), (1, 1), (5, 5), (2, 2)]);
    let result = closest_pair_brute_force(&points).unwrap();
    assert_eq!(result.point1, Point::new(0, 0));
    assert_eq!(result.point2, Point::new(1, 1));
    assert_eq!(result.distance_squared, 2);
}

#[test]
fn closest_pair_too_few_points() {
    let empty: Vec<Point> = Vec::new();
    assert!(closest_pair_brute_force(&empty).is_none());
    assert!(closest_pair_divide_conquer(&empty).is_none());
    let one = pts(&[(3, 7)]);
    assert!(closest_pair_brute_force(&one).is_none());
    assert!(closest_pair_divide_conquer(&one).is_none());
}

#[test]
fn closest_pair_duplicate_points() {
    let points = pts(&[(4, 4), (-3, 1), (4, 4), (10, 0)]);
    let bf = closest_pair_brute_force(&points).unwrap();
    let dc = closest_pair_divide_conquer(&points).unwrap();
    assert_eq!(bf.distance_squared, 0);
    assert_eq!(dc.distance_squared, 0);
    assert_eq!(bf.point1, Point::new(4, 4));
    assert_eq!(bf.point2, Point::new(4, 4));
}

#[test]
fn closest_pair_vertical_line() {
    // All points share one x-coordinate.
    let points = pts(&[(5, 9), (5, 0), (5, 4), (5, 30), (5, 7), (5, -2)]);
    let dc = closest_pair_divide_conquer(&points).unwrap();
    assert_eq!(dc.distance_squared, min_pair_dist_sq(&points));
    assert_eq!(dc.distance_squared, 4); // the smallest y-gap is 2
}

#[test]
fn closest_pair_heavy_x_ties() {
    // Many points on the median x, straddling the divider.
    let points = pts(&[
        (7, 0),
        (7, 10),
        (7, 21),
        (7, 33),
        (0, 5),
        (14, 5),
        (7, 46),
        (7, 60),
        (3, 40),
        (11, 41),
    ]);
    let bf = closest_pair_brute_force(&points).unwrap();
    let dc = closest_pair_divide_conquer(&points).unwrap();
    assert_eq!(bf.distance_squared, dc.distance_squared);
    assert_eq!(dc.distance_squared, min_pair_dist_sq(&points));
}

#[test]
fn closest_pair_methods_agree_on_grid() {
    // A deterministic scattered set, including a tight pair.
    let mut points = Vec::new();
    let mut seed: i64 = 12345;
    for _ in 0..60 {
        seed = (seed * 1103515245 + 12345) % 2147483648;
        let x = seed % 1000;
        seed = (seed * 1103515245 + 12345) % 2147483648;
        let y = seed % 1000;
        points.push(Point::new(x, y));
    }
    points.push(Point::new(500_000, 500_000));
    points.push(Point::new(500_001, 500_000));
    let bf = closest_pair_brute_force(&points).unwrap();
    let dc = closest_pair_divide_conquer(&points).unwrap();
    assert_eq!(bf.distance_squared, dc.distance_squared);
    assert_eq!(dc.distance_squared, min_pair_dist_sq(&points));
}

#[test]
fn hull_of_square_is_ccw_from_lowest() {
    let points = pts(&[(0, 0), (0, 1), (1, 1), (1, 0)]);
    let hull = convex_hull_graham_scan(&points);
    assert_eq!(
        hull,
        pts(&[(0, 0), (1, 0), (1, 1), (0, 1)])
    );
}

#[test]
fn hull_returns_small_inputs_unchanged() {
    let two = pts(&[(3, 3), (-1, 2)]);
    assert_eq!(convex_hull_graham_scan(&two), two);
    let empty: Vec<Point> = Vec::new();
    assert_eq!(convex_hull_graham_scan(&empty), empty);
}

#[test]
fn hull_collinear_input_keeps_extremes() {
    let points = pts(&[(0, 0), (1, 1), (2, 2), (3, 3), (4, 4)]);
    let hull = convex_hull_graham_scan(&points);
    assert_eq!(hull, pts(&[(0, 0), (4, 4)]));
}

#[test]
fn hull_drops_collinear_boundary_points() {
    // (1, 0) and (1, 2) lie on edges of the triangle.
    let points = pts(&[(0, 0), (1, 0), (2, 0), (2, 4), (1, 2)]);
    let hull = convex_hull_graham_scan(&points);
    assert_eq!(hull, pts(&[(0, 0), (2, 0), (2, 4)]));
}

fn cross_i64(o: Point, a: Point, b: Point) -> i64 {
    (a.x - o.x) * (b.y - o.y) - (a.y - o.y) * (b.x - o.x)
}

#[test]
fn hull_contains_every_input_point() {
    let points = pts(&[
        (0, 0),
        (4, -3),
        (9, 0),
        (11, 7),
        (6, 12),
        (-2, 8),
        (3, 3),
        (5, 5),
        (7, 2),
        (1, 6),
        (4, -3),
    ]);
    let hull = convex_hull_graham_scan(&points);
    assert!(hull.len() >= 3);
    // Counter-clockwise hull: a point is inside or on the hull exactly
    // when it is never strictly right of a directed hull edge.
    for p in &points {
        for k in 0..hull.len() {
            let a = hull[k];
            let b = hull[(k + 1) % hull.len()];
            assert!(cross_i64(a, b, *p) >= 0);
        }
    }
}

#[test]
fn segment_intersection_is_symmetric() {
    let cases = [
        ((0, 0), (2, 2), (0, 2), (2, 0)),
        ((0, 0), (1, 1), (2, 2), (3, 3)),
        ((0, 0), (4, 0), (2, 0), (6, 0)),
        ((0, 0), (2, 0), (2, 0), (2, 5)),
        ((0, 0), (0, 0), (0, 0), (1, 0)),
        ((1, 1), (5, 3), (2, 4), (4, -1)),
    ];
    for &(s1, e1, s2, e2) in &cases {
        let a = LineSegment::new(Point::new(s1.0, s1.1), Point::new(e1.0, e1.1));
        let b = LineSegment::new(Point::new(s2.0, s2.1), Point::new(e2.0, e2.1));
        assert_eq!(a.intersects(&b), b.intersects(&a));
    }
}

#[test]
fn segment_collinear_overlap_and_touching() {
    let a = LineSegment::new(Point::new(0, 0), Point::new(4, 0));
    let b = LineSegment::new(Point::new(2, 0), Point::new(6, 0));
    assert!(a.intersects(&b)); // collinear overlap
    let c = LineSegment::new(Point::new(4, 0), Point::new(4, 5));
    assert!(a.intersects(&c)); // touching endpoints
    let d = LineSegment::new(Point::new(5, 1), Point::new(6, 1));
    assert!(!a.intersects(&d));
}

#[test]
fn find_intersecting_segments_reports_exact_pairs() {
    let segments = vec![
        LineSegment::new(Point::new(0, 0), Point::new(2, 2)),
        LineSegment::new(Point::new(0, 2), Point::new(2, 0)),
        LineSegment::new(Point::new(5, 5), Point::new(6, 6)),
        LineSegment::new(Point::new(0, 1), Point::new(5, 6)),
    ];
    let pairs = find_intersecting_segments(&segments);
    // Segment 2 is parallel to segment 3 and away from the others.
    assert_eq!(pairs, vec![(0, 1), (1, 3)]);
}

#[test]
fn kdtree_matches_brute_force() {
    let points = pts(&[
        (2, 3),
        (5, 4),
        (9, 6),
        (4, 7),
        (8, 1),
        (7, 2),
        (5, 4),
        (-3, -3),
        (0, 10),
    ]);
    let tree = KdTree::build(&points);
    let queries = pts(&[(5, 5), (0, 0), (9, 6), (-10, 4), (6, 3)]);
    for q in &queries {
        let nearest = tree.nearest_neighbor(q).unwrap();
        assert_eq!(q.distance_squared_to(&nearest), brute_nearest(&points, q));
    }
}

#[test]
fn kdtree_query_on_stored_point() {
    let points = pts(&[(1, 1), (2, 2), (3, 3)]);
    let tree = KdTree::build(&points);
    let nearest = tree.nearest_neighbor(&Point::new(2, 2)).unwrap();
    assert_eq!(nearest, Point::new(2, 2));
    assert_eq!(Point::new(2, 2).distance_squared_to(&nearest), 0);
}

#[test]
fn kdtree_empty_has_no_neighbor() {
    let empty: Vec<Point> = Vec::new();
    let tree = KdTree::build(&empty);
    assert!(tree.nearest_neighbor(&Point::new(0, 0)).is_none());
    let fresh = KdTree::new();
    assert!(fresh.nearest_neighbor(&Point::new(7, -7)).is_none());
}

#[test]
fn closest_pair_all_identical_points() {
    let points = pts(&[(6, 6), (6, 6), (6, 6), (6, 6), (6, 6)]);
    let bf = closest_pair_brute_force(&points).unwrap();
    let dc = closest_pair_divide_conquer(&points).unwrap();
    assert_eq!(bf.distance_squared, 0);
    assert_eq!(dc.distance_squared, 0);
}

#[test]
fn hull_of_all_identical_points() {
    let points = pts(&[(2, 2), (2, 2), (2, 2)]);
    let hull = convex_hull_graham_scan(&points);
    assert_eq!(hull, pts(&[(2, 2)]));
}

#[test]
fn closest_pair_extreme_coordinates() {
    let lim = plane_geometry::COORD_LIMIT;
    let points = pts(&[(-lim, -lim), (lim, lim), (lim, lim - 3), (-lim + 1, -lim)]);
    let bf = closest_pair_brute_force(&points).unwrap();
    let dc = closest_pair_divide_conquer(&points).unwrap();
    assert_eq!(bf.distance_squared, 1);
    assert_eq!(dc.distance_squared, 1);
}
