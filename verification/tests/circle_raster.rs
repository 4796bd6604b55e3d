use toryn::points::Point2d;
use toryn::shapes::Circle2d;

fn xy(pts: &[Point2d]) -> Vec<(i32, i32)> {
    pts.iter().map(|p| (p.x, p.y)).collect()
}

#[test]
fn circle_radius_five_stays_on_ring() {
    let circle = Circle2d::new(Point2d::new(0, 0), 5);
    let pts = circle.draw();
    assert!(!pts.is_empty());
    for p in &pts {
        let rr = (p.x as f64 * p.x as f64 + p.y as f64 * p.y as f64).sqrt();
        let rounded = rr.round() as i32;
        assert!((4..=6).contains(&rounded), "({}, {}) is off the ring", p.x, p.y);
    }
}

#[test]
fn circle_radius_five_symmetry() {
    let circle = Circle2d::new(Point2d::new(0, 0), 5);
    let pts = xy(&circle.draw());
    for &(x, y) in &pts {
        assert!(pts.contains(&(-x, y)));
        assert!(pts.contains(&(x, -y)));
        assert!(pts.contains(&(y, x)));
    }
}

#[test]
fn circle_starts_at_top_of_ring() {
    let circle = Circle2d::new(Point2d::new(0, 0), 7);
    let pts = circle.draw();
    assert_eq!((pts[0].x, pts[0].y), (0, 7));
}

#[test]
fn circle_radius_zero_collapses_to_center() {
    let circle = Circle2d::new(Point2d::new(3, -2), 0);
    let pts = xy(&circle.draw());
    assert_eq!(pts, vec![(3, -2); 8]);
}

#[test]
fn circle_emits_groups_of_eight() {
    let circle = Circle2d::new(Point2d::new(0, 0), 6);
    let pts = circle.draw();
    assert_eq!(pts.len() % 8, 0);
}

#[test]
fn circle_off_center_symmetry_about_origin_point() {
    let circle = Circle2d::new(Point2d::new(10, 20), 3);
    let pts = xy(&circle.draw());
    for &(x, y) in &pts {
        let (dx, dy) = (x - 10, y - 20);
        assert!(dx.abs() <= 3 && dy.abs() <= 3);
        assert!(pts.contains(&(10 - dx, 20 + dy)));
        assert!(pts.contains(&(10 + dx, 20 - dy)));
        assert!(pts.contains(&(10 + dy, 20 + dx)));
    }
}
