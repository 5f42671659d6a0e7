use mistery::geometry::{distance_2d, Point, Rect};

#[test]
fn distance_of_a_three_four_five_triangle() {
    assert_eq!(distance_2d(Point::new(0, 0), Point::new(3, 4)), 5);
    assert_eq!(distance_2d(Point::new(3, 4), Point::new(0, 0)), 5);
}

#[test]
fn distance_rounds_down() {
    assert_eq!(distance_2d(Point::new(0, 0), Point::new(1, 1)), 1);
    assert_eq!(distance_2d(Point::new(0, 0), Point::new(2, 2)), 2);
    assert_eq!(distance_2d(Point::new(5, 5), Point::new(5, 5)), 0);
    assert_eq!(distance_2d(Point::new(0, 0), Point::new(5, 5)), 7);
}

#[test]
fn distance_of_far_points_does_not_overflow() {
    let d = distance_2d(Point::new(0, 0), Point::new(u32::MAX, u32::MAX));
    // sqrt(2) * (2^32 - 1), rounded down.
    assert_eq!(d, 6074000998);
}

#[test]
fn translate_and_checked_translate() {
    let p = Point::new(3, 4);
    assert_eq!(p.translate(-3, 2), Point::new(0, 6));
    assert_eq!(p.checked_translate(-4, 0), None);
    assert_eq!(p.checked_translate(1, -4), Some(Point::new(4, 0)));
    assert_eq!(p.x(), 3);
    assert_eq!(p.y(), 4);
}

#[test]
fn rect_sides_center_and_size() {
    let r = Rect::new(2, 3, 7, 5);
    assert_eq!(r.left(), 2);
    assert_eq!(r.right(), 8);
    assert_eq!(r.bottom(), 3);
    assert_eq!(r.top(), 7);
    assert_eq!(r.width(), 7);
    assert_eq!(r.height(), 5);
    assert_eq!(r.center(), Point::new(5, 5));
}

#[test]
fn rect_intersection_includes_borders() {
    let a = Rect::new(0, 0, 5, 5);
    let b = Rect::new(4, 4, 3, 3);
    let c = Rect::new(5, 0, 3, 3);
    assert!(a.intersects(&b));
    assert!(b.intersects(&a));
    assert!(!a.intersects(&c));
    assert!(!c.intersects(&a));
}
