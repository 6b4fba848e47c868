use thumbnail_matcher::geometry::{median, BoundingRect, Point};

fn rect(left: u32, top: u32, right: u32, bottom: u32) -> BoundingRect {
    BoundingRect { left, top, right, bottom }
}

#[test]
fn width_and_height_are_extent_differences() {
    let r = rect(3, 5, 13, 25);
    assert_eq!(r.width(), 10);
    assert_eq!(r.height(), 20);
    assert_eq!(r.area(), 200);
}

#[test]
fn square_like_within_a_tenth_of_width() {
    assert!(rect(0, 0, 100, 100).is_square_like());
    assert!(rect(0, 0, 100, 109).is_square_like());
    assert!(rect(0, 0, 100, 91).is_square_like());
    // exactly a tenth apart is not under the tolerance
    assert!(!rect(0, 0, 100, 110).is_square_like());
    assert!(!rect(0, 0, 100, 90).is_square_like());
    assert!(!rect(0, 0, 30, 3).is_square_like());
}

#[test]
fn zero_width_is_never_square_like() {
    assert!(!rect(4, 4, 4, 4).is_square_like());
    assert!(!rect(4, 0, 4, 10).is_square_like());
}

#[test]
fn bounding_rect_of_points() {
    let pts = vec![
        Point { x: 5, y: 7 },
        Point { x: 2, y: 9 },
        Point { x: 8, y: 1 },
        Point { x: 4, y: 4 },
    ];
    assert_eq!(BoundingRect::from_points(&pts), rect(2, 1, 8, 9));
}

#[test]
fn bounding_rect_of_single_point_is_degenerate() {
    let r = BoundingRect::from_points(&[Point { x: 6, y: 3 }]);
    assert_eq!(r, rect(6, 3, 6, 3));
    assert_eq!(r.width(), 0);
    assert_eq!(r.height(), 0);
}

#[test]
fn bounding_rect_encloses_every_point() {
    let pts: Vec<Point> = (0..50u32)
        .map(|i| Point { x: (i * 37) % 101, y: (i * 53) % 89 })
        .collect();
    let r = BoundingRect::from_points(&pts);
    assert!(r.left <= r.right && r.top <= r.bottom);
    for p in &pts {
        assert!(r.left <= p.x && p.x <= r.right);
        assert!(r.top <= p.y && p.y <= r.bottom);
    }
    assert!(pts.iter().any(|p| p.x == r.left));
    assert!(pts.iter().any(|p| p.x == r.right));
    assert!(pts.iter().any(|p| p.y == r.top));
    assert!(pts.iter().any(|p| p.y == r.bottom));
}

#[test]
fn median_of_odd_count_is_central_value_doubled() {
    assert_eq!(median(&[9, 1, 5]), 10);
    assert_eq!(median(&[7]), 14);
}

#[test]
fn median_of_even_count_averages_the_central_pair() {
    assert_eq!(median(&[4, 1, 3, 2]), 5);
    assert_eq!(median(&[10, 20]), 30);
}

#[test]
fn median_with_equal_values() {
    assert_eq!(median(&[6, 6, 6, 6]), 12);
    assert_eq!(median(&[u32::MAX, u32::MAX]), 2 * u32::MAX as u64);
}
