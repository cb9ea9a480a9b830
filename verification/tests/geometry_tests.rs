use icfp2023::Point;
use icfp2023::geometry::is_line_circle_intersect;
use icfp2023::intmath::ceil_div;
use icfp2023::intmath::isqrt;

#[test]
fn distance() {
    let p1 = Point::new(1, 2);
    let p2 = Point::new(4, 6);
    assert_eq!(p1.distance(p2), 5);
    assert_eq!(p1.distance_squared(p2), 25);
}

// Radius 5 with tenth-unit offsets, scaled by ten so the configuration
// fits integer coordinates; scaling preserves every strict comparison.
#[test]
fn is_line_circle_intersect_test() {
    let radius = 50;
    let p1 = Point::new(0, 0);
    let p2 = Point::new(100, 0);
    assert!(is_line_circle_intersect(p1, p2, Point::new(50, 0), radius));
    assert!(is_line_circle_intersect(p1, p2, Point::new(50, 49), radius));
    assert!(!is_line_circle_intersect(p1, p2, Point::new(50, 50), radius));
    assert!(!is_line_circle_intersect(p1, p2, Point::new(50, 51), radius));
    assert!(!is_line_circle_intersect(p1, p2, Point::new(150, 0), radius));
    assert!(!is_line_circle_intersect(p1, p2, Point::new(150, 1), radius));

    assert!(is_line_circle_intersect(
        Point::new(0, 0),
        Point::new(50, 50),
        Point::new(0, 0),
        radius
    ));
    assert!(is_line_circle_intersect(
        Point::new(0, 0),
        Point::new(50, 50),
        Point::new(0, 50),
        radius
    ));
    assert!(is_line_circle_intersect(
        Point::new(0, 0),
        Point::new(50, 50),
        Point::new(0, 70),
        radius
    ));
    assert!(!is_line_circle_intersect(
        Point::new(0, 0),
        Point::new(50, 50),
        Point::new(0, 71),
        radius
    ));
}

#[test]
fn isqrt_exact() {
    assert_eq!(isqrt(0), 0);
    assert_eq!(isqrt(1), 1);
    assert_eq!(isqrt(24), 4);
    assert_eq!(isqrt(25), 5);
    assert_eq!(isqrt(26), 5);
    assert_eq!(isqrt(1_000_000_000_000), 1_000_000);
    assert_eq!(isqrt(u64::MAX), 4_294_967_295);
}

#[test]
fn ceil_div_exact() {
    assert_eq!(ceil_div(10, 3), 4);
    assert_eq!(ceil_div(9, 3), 3);
    assert_eq!(ceil_div(-10, 3), -3);
    assert_eq!(ceil_div(-9, 3), -3);
    assert_eq!(ceil_div(0, 7), 0);
    assert_eq!(ceil_div(1, 1_000_000), 1);
    assert_eq!(ceil_div(-1, 1_000_000), 0);
}
