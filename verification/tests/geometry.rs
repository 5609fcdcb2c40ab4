use lumen::gfx::rect::{empty_rect, max_i32, min_i32, Rect};

#[test]
fn rect_from_size_spans_half_open_range() {
    let r = Rect::from_size(10, 20, 30, 40);
    assert_eq!(r, Rect::new(10, 20, 40, 60));
    assert_eq!(r.area(), 1200);
    assert!(!r.is_empty());
}

#[test]
fn rect_contains_is_half_open() {
    let r = Rect::new(2, 3, 5, 7);
    assert!(r.contains(2, 3));
    assert!(r.contains(4, 6));
    assert!(!r.contains(5, 6));
    assert!(!r.contains(4, 7));
    assert!(!r.contains(1, 3));
}

#[test]
fn rect_degenerate_is_empty() {
    assert!(Rect::new(5, 5, 5, 10).is_empty());
    assert!(Rect::new(5, 5, 10, 4).is_empty());
    assert!(empty_rect().is_empty());
    assert_eq!(empty_rect(), Rect::new(0, 0, 0, 0));
}

#[test]
fn rect_intersect_keeps_common_pixels() {
    let a = Rect::new(0, 0, 10, 10);
    let b = Rect::new(5, -5, 20, 7);
    let i = a.intersect(&b);
    assert_eq!(i, Rect::new(5, 0, 10, 7));
    for x in 0..20usize {
        for y in 0..12usize {
            assert_eq!(i.contains(x, y), a.contains(x, y) && b.contains(x, y));
        }
    }
}

#[test]
fn rect_intersects_only_with_shared_area() {
    let a = Rect::new(0, 0, 10, 10);
    assert!(a.intersects(&Rect::new(9, 9, 12, 12)));
    assert!(!a.intersects(&Rect::new(10, 0, 12, 10)));
    // Only the edges are compared: a zero-width rectangle strictly inside
    // still counts.
    assert!(a.intersects(&Rect::new(3, 3, 3, 8)));
}

#[test]
fn rect_union_ignores_empty_operands() {
    let a = Rect::new(1, 1, 4, 4);
    let e = Rect::new(100, 100, 50, 50);
    assert_eq!(a.union(&e), a);
    assert_eq!(e.union(&a), a);
    assert_eq!(a.union(&Rect::new(10, -2, 12, 3)), Rect::new(1, -2, 12, 4));
}

#[test]
fn rect_union_covers_both() {
    let a = Rect::new(0, 0, 3, 3);
    let b = Rect::new(5, 5, 8, 9);
    let u = a.union(&b);
    for x in 0..10usize {
        for y in 0..10usize {
            if a.contains(x, y) || b.contains(x, y) {
                assert!(u.contains(x, y));
            }
        }
    }
}

#[test]
fn rect_expand_grows_every_side_but_leaves_empty_alone() {
    assert_eq!(Rect::new(10, 10, 20, 30).expand(5), Rect::new(5, 5, 25, 35));
    assert_eq!(Rect::new(10, 10, 20, 30).expand(-2), Rect::new(12, 12, 18, 28));
    let e = Rect::new(10, 10, 10, 30);
    assert_eq!(e.expand(5), e);
}

#[test]
fn rect_translate_moves_pixels() {
    let r = Rect::new(1, 2, 3, 4);
    let t = r.translate(10, -1);
    assert_eq!(t, Rect::new(11, 1, 13, 3));
    assert!(r.contains(2, 3) && t.contains(12, 2));
    let e = Rect::new(3, 3, 1, 1);
    assert_eq!(e.translate(5, 5), e);
}

#[test]
fn min_max_pick_the_extremes() {
    assert_eq!(min_i32(-3, 4), -3);
    assert_eq!(max_i32(-3, 4), 4);
    assert_eq!(min_i32(7, 7), 7);
}
