use dot_evolution::geom::{isqrt64, segments_intersect_e, Segment, Vec2};

fn v(x: i64, y: i64) -> Vec2 {
    Vec2 { x, y }
}

#[test]
fn isqrt_exact_values() {
    assert_eq!(isqrt64(0), 0);
    assert_eq!(isqrt64(1), 1);
    assert_eq!(isqrt64(3), 1);
    assert_eq!(isqrt64(4), 2);
    assert_eq!(isqrt64(48), 6);
    assert_eq!(isqrt64(49), 7);
    assert_eq!(isqrt64(1_000_000), 1000);
    assert_eq!(isqrt64(25_000_000), 5000);
    assert_eq!(isqrt64(36_000_000), 6000);
    assert_eq!(isqrt64(u64::MAX), 4_294_967_295);
}

#[test]
fn crossing_segments_intersect() {
    assert!(segments_intersect_e(v(-10, 0), v(10, 0), v(0, -10), v(0, 10)));
    assert!(!segments_intersect_e(v(-10, 0), v(10, 0), v(0, 1), v(0, 10)));
}

#[test]
fn touching_counts_as_intersection() {
    // endpoint on the other segment
    assert!(segments_intersect_e(v(0, -5), v(0, 0), v(-10, 0), v(10, 0)));
    // shared endpoint
    assert!(segments_intersect_e(v(0, 0), v(5, 5), v(0, 0), v(-5, 3)));
}

#[test]
fn collinear_overlap_counts_as_intersection() {
    assert!(segments_intersect_e(v(0, 0), v(10, 0), v(5, 0), v(20, 0)));
    assert!(!segments_intersect_e(v(0, 0), v(10, 0), v(11, 0), v(20, 0)));
}

#[test]
fn parallel_segments_do_not_intersect() {
    assert!(!segments_intersect_e(v(0, 0), v(10, 0), v(0, 1), v(10, 1)));
    let s = Segment { a: v(3, 4), b: v(7, 9) };
    assert!(!segments_intersect_e(v(100, 100), v(200, 200), s.a, s.b));
}
