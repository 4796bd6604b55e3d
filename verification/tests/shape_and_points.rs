use toryn::points::Point2d;
use toryn::shapes::{LineDrawMethod, Shape2d};

#[test]
fn point_constructors_and_translates() {
    let p = Point2d::new(3, -4);
    assert_eq!((p.x, p.y), (3, -4));
    let o = Point2d::origin();
    assert_eq!((o.x, o.y), (0, 0));
    let q = p.translate_x(10);
    assert_eq!((q.x, q.y), (13, -4));
    let q = p.translate_y(-1);
    assert_eq!((q.x, q.y), (3, -5));
    let q = p.translate(2);
    assert_eq!((q.x, q.y), (5, -2));
    // Transforms return new points; the source point is untouched.
    assert_eq!((p.x, p.y), (3, -4));
}

#[test]
fn shape_with_two_points_draws_nothing() {
    let shape = Shape2d::new(&[Point2d::new(0, 0), Point2d::new(10, 0)]);
    let edges = shape.draw(LineDrawMethod::MiddlePoint);
    assert!(edges.is_empty());
}

#[test]
fn shape_with_no_points_draws_nothing() {
    let shape = Shape2d::new(&[]);
    assert!(shape.draw(LineDrawMethod::MiddlePoint).is_empty());
}

#[test]
fn shape_triangle_draws_three_closed_edges() {
    let a = Point2d::new(0, 0);
    let b = Point2d::new(6, 0);
    let c = Point2d::new(0, 6);
    let shape = Shape2d::new(&[a, b, c]);
    let edges = shape.draw(LineDrawMethod::MiddlePoint);
    assert_eq!(edges.len(), 3);
    // Edge i rasterizes points[i] -> points[i + 1 mod 3]; each raster
    // contains both of its endpoints, so the cycle closes: the last edge
    // shares its endpoint with the first point.
    let has = |edge: &Vec<Point2d>, x: i32, y: i32| edge.iter().any(|p| p.x == x && p.y == y);
    assert!(has(&edges[0], 0, 0) && has(&edges[0], 6, 0));
    assert!(has(&edges[1], 6, 0) && has(&edges[1], 0, 6));
    assert!(has(&edges[2], 0, 6) && has(&edges[2], 0, 0));
}

#[test]
fn shape_square_draws_four_edges() {
    let shape = Shape2d::new(&[
        Point2d::new(-2, -2),
        Point2d::new(2, -2),
        Point2d::new(2, 2),
        Point2d::new(-2, 2),
    ]);
    let edges = shape.draw(LineDrawMethod::MiddlePoint);
    assert_eq!(edges.len(), 4);
    for edge in &edges {
        assert_eq!(edge.len(), 5);
    }
}

#[test]
fn shape_add_point_extends_the_cycle() {
    let mut shape = Shape2d::new(&[Point2d::new(0, 0), Point2d::new(4, 0)]);
    assert!(shape.draw(LineDrawMethod::MiddlePoint).is_empty());
    shape.add_point(&Point2d::new(4, 4));
    let edges = shape.draw(LineDrawMethod::MiddlePoint);
    assert_eq!(edges.len(), 3);
}

#[test]
fn shape_translate_moves_every_point() {
    let mut shape = Shape2d::new(&[Point2d::new(0, 0), Point2d::new(1, 2), Point2d::new(3, 4)]);
    shape.translate_x(10);
    shape.translate_y(-1);
    shape.translate(1);
    let moved: Vec<(i32, i32)> = shape.points.iter().map(|p| (p.x, p.y)).collect();
    assert_eq!(moved, vec![(11, 0), (12, 2), (14, 4)]);
}

#[test]
fn shape_incremental_edges() {
    // A triangle whose edges all have nonzero dx, so the incremental
    // strategy accepts every edge.
    let shape = Shape2d::new(&[Point2d::new(0, 0), Point2d::new(8, 2), Point2d::new(4, 9)]);
    let edges = shape.draw(LineDrawMethod::Incremental);
    assert_eq!(edges.len(), 3);
    assert_eq!(edges[0].len(), 9);
    assert_eq!(edges[1].len(), 5);
    assert_eq!(edges[2].len(), 5);
}
