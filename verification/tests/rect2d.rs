use game_support::{AxisAlignedBoundingBox, Rect2D, Vector2};

fn rect(x0: i32, y0: i32, x1: i32, y1: i32) -> Rect2D {
    Rect2D::new(Vector2::new(x0, y0), Vector2::new(x1, y1))
}

#[test]
fn rectangles_sharing_an_edge_intersect() {
    let a = rect(0, 0, 10, 10);
    let b = rect(10, 2, 20, 8);
    assert!(a.intersect(&b));
    assert!(b.intersect(&a));
    let below = rect(3, 10, 5, 30);
    assert!(a.intersect(&below));
    assert!(below.intersect(&a));
}

#[test]
fn rectangles_sharing_only_a_corner_intersect() {
    let a = rect(0, 0, 10, 10);
    let b = rect(10, 10, 20, 20);
    assert!(a.intersect(&b));
}

#[test]
fn rectangle_intersects_itself() {
    let a = rect(-4, -9, 17, 3);
    assert!(a.intersect(&a));
    let point = rect(5, 5, 5, 5);
    assert!(point.intersect(&point));
}

#[test]
fn separate_rectangles_do_not_intersect() {
    let a = rect(0, 0, 10, 10);
    assert!(!a.intersect(&rect(11, 0, 20, 10)));
    assert!(!a.intersect(&rect(0, 11, 10, 20)));
    assert!(!a.intersect(&rect(-20, 0, -1, 10)));
    assert!(!a.intersect(&rect(0, -20, 10, -1)));
}

#[test]
fn intersect_is_symmetric() {
    let rects = [
        rect(0, 0, 10, 10),
        rect(10, 10, 20, 20),
        rect(-5, -5, 0, 0),
        rect(3, 3, 4, 4),
        rect(11, -3, 12, 40),
        rect(-100, -100, 100, 100),
    ];
    for a in rects.iter() {
        for b in rects.iter() {
            assert_eq!(a.intersect(b), b.intersect(a));
        }
    }
}

#[test]
fn quadrants_split_at_the_centre() {
    let quads = rect(0, 0, 10, 10).quadrants();
    assert_eq!(quads.len(), 4);
    assert_eq!(quads[0], rect(0, 0, 5, 5));
    assert_eq!(quads[1], rect(5, 0, 10, 5));
    assert_eq!(quads[2], rect(0, 5, 5, 10));
    assert_eq!(quads[3], rect(5, 5, 10, 10));
}

#[test]
fn quadrants_round_the_centre_down() {
    let quads = rect(-3, -3, 0, 0).quadrants();
    assert_eq!(quads[0], rect(-3, -3, -2, -2));
    assert_eq!(quads[1], rect(-2, -3, 0, -2));
    assert_eq!(quads[2], rect(-3, -2, -2, 0));
    assert_eq!(quads[3], rect(-2, -2, 0, 0));
    let flat = rect(-7, 1, 4, 2).quadrants();
    assert_eq!(flat[0], rect(-7, 1, -2, 1));
    assert_eq!(flat[3], rect(-2, 1, 4, 2));
}

#[test]
fn quadrants_of_the_widest_rectangle_do_not_overflow() {
    let quads = rect(i32::MIN, i32::MIN, i32::MAX, i32::MAX).quadrants();
    assert_eq!(quads[0], rect(i32::MIN, i32::MIN, -1, -1));
    assert_eq!(quads[3], rect(-1, -1, i32::MAX, i32::MAX));
}

#[test]
fn quadrants_cover_every_point_and_overlap_on_lines_only() {
    let whole = rect(-4, -3, 5, 6);
    let quads = whole.quadrants();
    for x in -6..8 {
        for y in -5..9 {
            let point = rect(x, y, x, y);
            let holders: Vec<usize> = (0..4).filter(|k| quads[*k].intersect(&point)).collect();
            assert_eq!(whole.intersect(&point), !holders.is_empty());
            if holders.len() > 1 {
                assert!(x == 0 || y == 1);
            }
        }
    }
}

#[test]
fn bounding_box_stores_half_extents() {
    let bbox = AxisAlignedBoundingBox::new(16, 10);
    assert_eq!(bbox.half_size, Vector2::new(8, 5));
    let odd = AxisAlignedBoundingBox::new(7, 1);
    assert_eq!(odd.half_size, Vector2::new(3, 0));
}

#[test]
fn bounding_box_is_placed_around_its_position() {
    let bbox = AxisAlignedBoundingBox::new(16, 10);
    assert_eq!(bbox.as_rect(Vector2::new(0, 0)), rect(-8, -5, 8, 5));
    assert_eq!(bbox.as_rect(Vector2::new(10, -20)), rect(2, -25, 18, -15));
}
