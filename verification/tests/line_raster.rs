use toryn::points::Point2d;
use toryn::shapes::{Line2d, LineDrawMethod};

fn xy(pts: &[Point2d]) -> Vec<(i32, i32)> {
    pts.iter().map(|p| (p.x, p.y)).collect()
}

#[test]
fn midpoint_horizontal_line() {
    let line = Line2d::new(Point2d::new(0, 0), Point2d::new(10, 0));
    let pts = line.middle_point_draw();
    let expected: Vec<(i32, i32)> = (0..=10).map(|x| (x, 0)).collect();
    assert_eq!(xy(&pts), expected);
}

#[test]
fn midpoint_diagonal_line() {
    let line = Line2d::new(Point2d::new(0, 0), Point2d::new(5, 5));
    let pts = line.middle_point_draw();
    let expected: Vec<(i32, i32)> = vec![(0, 0), (1, 1), (2, 2), (3, 3), (4, 4), (5, 5)];
    assert_eq!(xy(&pts), expected);
}

#[test]
fn midpoint_length_is_dominant_extent_plus_one() {
    let cases = [
        ((0, 0), (10, 3)),
        ((0, 0), (3, 10)),
        ((-4, 7), (9, -2)),
        ((5, 5), (5, -5)),
        ((2, 3), (2, 3)),
        ((7, -1), (0, 0)),
    ];
    for ((bx, by), (ex, ey)) in cases {
        let line = Line2d::new(Point2d::new(bx, by), Point2d::new(ex, ey));
        let pts = line.middle_point_draw();
        let dx = (ex - bx) as i64;
        let dy = (ey - by) as i64;
        let dominant = dx.abs().max(dy.abs());
        assert_eq!(pts.len() as i64, dominant + 1);
    }
}

#[test]
fn midpoint_one_point_per_dominant_value() {
    let line = Line2d::new(Point2d::new(-3, 2), Point2d::new(8, 6));
    let pts = line.middle_point_draw();
    // |dx| = 11 >= |dy| = 4: x is the dominant axis, walked ascending.
    assert_eq!(pts.len(), 12);
    for (i, p) in pts.iter().enumerate() {
        assert_eq!(p.x, -3 + i as i32);
    }
}

#[test]
fn midpoint_no_gaps() {
    let line = Line2d::new(Point2d::new(0, 0), Point2d::new(3, -7));
    let pts = line.middle_point_draw();
    assert_eq!(pts.len(), 8);
    for w in pts.windows(2) {
        assert!((w[1].x - w[0].x).abs() <= 1);
        assert!((w[1].y - w[0].y).abs() <= 1);
        assert!(w[1].x != w[0].x || w[1].y != w[0].y);
    }
}

#[test]
fn midpoint_degenerate_point() {
    let line = Line2d::new(Point2d::new(3, 4), Point2d::new(3, 4));
    let pts = line.middle_point_draw();
    assert_eq!(xy(&pts), vec![(3, 4)]);
}

#[test]
fn midpoint_vertical_line() {
    let line = Line2d::new(Point2d::new(2, 1), Point2d::new(2, 6));
    let pts = line.middle_point_draw();
    let expected: Vec<(i32, i32)> = (1..=6).map(|y| (2, y)).collect();
    assert_eq!(xy(&pts), expected);
}

#[test]
fn midpoint_endpoints_included() {
    let line = Line2d::new(Point2d::new(9, -4), Point2d::new(-6, 3));
    let pts = line.middle_point_draw();
    let first = (pts[0].x, pts[0].y);
    let last = (pts[pts.len() - 1].x, pts[pts.len() - 1].y);
    // The walk runs in ascending x, so it starts from the endpoint with
    // the smaller x and finishes at the other.
    assert_eq!(first, (-6, 3));
    assert_eq!(last, (9, -4));
}

#[test]
fn midpoint_half_slope_tie_pattern() {
    // Slope 1/2 hits the midpoint exactly at every other step; ties keep
    // the walk flat, so y rises on the even steps after the first pair.
    let line = Line2d::new(Point2d::new(0, 0), Point2d::new(10, 5));
    let pts = line.middle_point_draw();
    let ys: Vec<i32> = pts.iter().map(|p| p.y).collect();
    assert_eq!(ys, vec![0, 0, 1, 1, 2, 2, 3, 3, 4, 4, 5]);
}

#[test]
fn midpoint_direction_independent() {
    // Swapping the endpoints swaps nothing in the output: the walk
    // always runs up the dominant axis from its lower end.
    let fwd = Line2d::new(Point2d::new(-2, 1), Point2d::new(7, 4)).middle_point_draw();
    let rev = Line2d::new(Point2d::new(7, 4), Point2d::new(-2, 1)).middle_point_draw();
    assert_eq!(xy(&fwd), xy(&rev));
}

#[test]
fn incremental_shallow_line_flattens() {
    // dy/dx truncates to 0, so the shallow line degenerates to y == 0.
    let line = Line2d::new(Point2d::new(0, 0), Point2d::new(10, 3));
    let pts = line.incremental_draw();
    let expected: Vec<(i32, i32)> = (0..=10).map(|x| (x, 0)).collect();
    assert_eq!(xy(&pts), expected);
}

#[test]
fn incremental_steep_line() {
    let line = Line2d::new(Point2d::new(0, 0), Point2d::new(2, 7));
    let pts = line.incremental_draw();
    assert_eq!(xy(&pts), vec![(0, 0), (1, 3), (2, 6)]);
}

#[test]
fn incremental_negative_slope() {
    let line = Line2d::new(Point2d::new(0, 0), Point2d::new(3, -6));
    let pts = line.incremental_draw();
    assert_eq!(xy(&pts), vec![(0, 0), (1, -2), (2, -4), (3, -6)]);
}

#[test]
fn incremental_walks_upward_even_when_end_is_left() {
    // The walk always increments x from begin.x, |dx| + 1 times.
    let line = Line2d::new(Point2d::new(5, 5), Point2d::new(2, 5));
    let pts = line.incremental_draw();
    assert_eq!(xy(&pts), vec![(5, 5), (6, 5), (7, 5), (8, 5)]);
}

#[test]
fn draw_dispatches_by_method() {
    let line = Line2d::new(Point2d::new(1, 2), Point2d::new(9, 5));
    assert_eq!(
        xy(&line.draw(LineDrawMethod::MiddlePoint)),
        xy(&line.middle_point_draw())
    );
    assert_eq!(
        xy(&line.draw(LineDrawMethod::Incremental)),
        xy(&line.incremental_draw())
    );
}

#[test]
fn line_translate_moves_both_endpoints() {
    let mut line = Line2d::new(Point2d::new(1, 2), Point2d::new(3, 4));
    line.translate_x(10);
    assert_eq!((line.beg_point.x, line.beg_point.y), (11, 2));
    assert_eq!((line.end_point.x, line.end_point.y), (13, 4));
    line.translate_y(-2);
    assert_eq!((line.beg_point.x, line.beg_point.y), (11, 0));
    assert_eq!((line.end_point.x, line.end_point.y), (13, 2));
    line.translate(5);
    assert_eq!((line.beg_point.x, line.beg_point.y), (16, 5));
    assert_eq!((line.end_point.x, line.end_point.y), (18, 7));
}
