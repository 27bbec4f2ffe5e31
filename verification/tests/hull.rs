use concaveman::concaveman_convex;
use concaveman::convex_hull;
use concaveman::fast_convex_hull;
use concaveman::location_trait::Point;
use concaveman::point_in_polygon::point_in_polygon;

fn pts(v: &[(i64, i64)]) -> Vec<Point> {
    v.iter().map(|&(x, y)| Point { x, y }).collect()
}

#[test]
fn square_with_interior_point_returns_corners() {
    let points = pts(&[(0, 0), (0, 2), (2, 2), (2, 0), (1, 1)]);
    let hull = concaveman_convex(&points);
    assert_eq!(hull, vec![(0, 0), (0, 2), (2, 2), (2, 0)]);
}

#[test]
fn square_hull_indices_exclude_interior() {
    let points = pts(&[(0, 0), (0, 2), (2, 2), (2, 0), (1, 1)]);
    let hull = fast_convex_hull(&points);
    assert_eq!(hull, vec![0, 1, 2, 3]);
}

#[test]
fn collinear_points_return_two_extremes() {
    let points = pts(&[(0, 0), (1, 0), (2, 0), (3, 0), (4, 0)]);
    let hull = concaveman_convex(&points);
    assert_eq!(hull, vec![(0, 0), (4, 0)]);
}

#[test]
fn two_distinct_pairs_give_two_entries() {
    let points = pts(&[(5, 5), (5, 5), (7, 7)]);
    let hull = concaveman_convex(&points);
    assert_eq!(hull, vec![(5, 5), (7, 7)]);
    assert!(hull.len() <= 2);
}

#[test]
fn single_point_collapses() {
    let points = pts(&[(3, 4)]);
    let hull = concaveman_convex(&points);
    assert!(hull.len() <= 2);
    for &(x, y) in &hull {
        assert_eq!((x, y), (3, 4));
    }
}

#[test]
fn repeated_calls_give_identical_output() {
    let points = pts(&[(0, 0), (0, 2), (2, 2), (2, 0), (1, 1), (1, 0), (0, 1)]);
    let first = concaveman_convex(&points);
    let second = concaveman_convex(&points);
    assert_eq!(first, second);
}

#[test]
fn culling_preserves_the_hull() {
    let points = pts(&[(0, 0), (0, 2), (2, 2), (2, 0), (1, 1)]);
    let everything: Vec<usize> = (0..points.len()).collect();
    let from_all = convex_hull(&points, everything);
    let from_candidates = fast_convex_hull(&points);
    assert_eq!(from_all, from_candidates);
}

#[test]
fn diamond_culls_interior_point() {
    // The four extremal points span a proper convex region here, so the
    // containment filter really discards the interior point before the
    // chain step.
    let points = pts(&[(-4, 0), (0, -4), (4, 0), (0, 4), (0, 0)]);
    let hull = concaveman_convex(&points);
    assert_eq!(hull, vec![(-4, 0), (0, 4), (4, 0), (0, -4)]);
}

#[test]
fn diamond_culling_preserves_the_hull() {
    let points = pts(&[(-4, 0), (0, -4), (4, 0), (0, 4), (0, 0)]);
    let everything: Vec<usize> = (0..points.len()).collect();
    let from_all = convex_hull(&points, everything);
    let from_candidates = fast_convex_hull(&points);
    assert_eq!(from_all, vec![0, 3, 2, 1]);
    assert_eq!(from_all, from_candidates);
}

#[test]
fn hull_output_points_come_from_input() {
    let input = [(0, 0), (-3, 5), (7, 2), (4, -6), (1, 1), (2, 3)];
    let points = pts(&input);
    let hull = concaveman_convex(&points);
    assert!(!hull.is_empty());
    for pair in &hull {
        assert!(input.contains(pair));
    }
}

#[test]
fn negative_coordinates_square() {
    let points = pts(&[(-2, -2), (-2, 2), (2, 2), (2, -2), (0, 0), (1, -1)]);
    let hull = concaveman_convex(&points);
    assert_eq!(hull, vec![(-2, -2), (-2, 2), (2, 2), (2, -2)]);
}

#[test]
fn degenerate_quad_with_repeated_vertex() {
    // The culling boundary may repeat a vertex when one point is extremal in
    // two directions; zero-length edges must not crash and never cross.
    let corners = pts(&[(0, 0), (0, 0), (4, 4), (0, 4)]);
    let cull: Vec<&Point> = corners.iter().collect();
    let interior = Point { x: 1, y: 2 };
    assert!(point_in_polygon(&interior, &cull));
    let exterior = Point { x: 3, y: 1 };
    assert!(!point_in_polygon(&exterior, &cull));
}

#[test]
fn extreme_coordinates_stay_exact() {
    let limit = concaveman::location_trait::COORD_LIMIT;
    let points = pts(&[
        (-limit, -limit),
        (-limit, limit),
        (limit, limit),
        (limit, -limit),
        (0, 0),
    ]);
    let hull = concaveman_convex(&points);
    assert_eq!(
        hull,
        vec![(-limit, -limit), (-limit, limit), (limit, limit), (limit, -limit)]
    );
}

#[test]
fn point_inside_square_is_detected() {
    let corners = pts(&[(0, 0), (0, 2), (2, 2), (2, 0)]);
    let cull: Vec<&Point> = corners.iter().collect();
    let probe = Point { x: 1, y: 1 };
    assert!(point_in_polygon(&probe, &cull));
}

#[test]
fn point_outside_square_is_rejected() {
    let corners = pts(&[(0, 0), (0, 2), (2, 2), (2, 0)]);
    let cull: Vec<&Point> = corners.iter().collect();
    let probe = Point { x: 5, y: 5 };
    assert!(!point_in_polygon(&probe, &cull));
    let probe_left = Point { x: -1, y: 1 };
    assert!(!point_in_polygon(&probe_left, &cull));
}
