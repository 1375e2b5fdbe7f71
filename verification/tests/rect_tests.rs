use mortal_wombat::rect::{midway, Rect};

#[test]
fn rect_new_sets_corners() {
    let r = Rect::new(10, 20, 6, 8);
    assert_eq!(r.x1, 10);
    assert_eq!(r.y1, 20);
    assert_eq!(r.x2, 16);
    assert_eq!(r.y2, 28);
}

#[test]
fn rect_center_is_integer_midpoint() {
    assert_eq!(Rect::new(10, 10, 6, 6).center(), (13, 13));
    assert_eq!(Rect::new(0, 0, 7, 9).center(), (3, 4));
    assert_eq!(Rect::new(3, 5, 2, 2).center(), (4, 6));
}

#[test]
fn rect_center_rounds_toward_zero() {
    assert_eq!(Rect::new(-7, -9, 2, 2).center(), (-6, -8));
    assert_eq!(Rect::new(-4, -4, 1, 1).center(), (-3, -3));
    assert_eq!(midway(-3, 0), -1);
    assert_eq!(midway(3, 0), 1);
    assert_eq!(midway(i32::MAX, i32::MAX), i32::MAX);
    assert_eq!(midway(i32::MIN, i32::MIN), i32::MIN);
}

#[test]
fn rect_intersects_overlapping() {
    let a = Rect::new(0, 0, 5, 5);
    let b = Rect::new(3, 3, 5, 5);
    assert!(a.intersects(&b));
    assert!(b.intersects(&a));
}

#[test]
fn rect_intersects_counts_touching_edges() {
    let a = Rect::new(0, 0, 5, 5);
    let right = Rect::new(5, 0, 3, 3);
    let below = Rect::new(0, 5, 3, 3);
    let corner = Rect::new(5, 5, 2, 2);
    assert!(a.intersects(&right));
    assert!(a.intersects(&below));
    assert!(a.intersects(&corner));
}

#[test]
fn rect_intersects_rejects_separate() {
    let a = Rect::new(0, 0, 5, 5);
    assert!(!a.intersects(&Rect::new(6, 0, 3, 3)));
    assert!(!a.intersects(&Rect::new(0, 6, 3, 3)));
    assert!(!Rect::new(6, 6, 1, 1).intersects(&a));
}

#[test]
fn rect_intersects_itself() {
    let a = Rect::new(2, 3, 4, 5);
    assert!(a.intersects(&a));
}
