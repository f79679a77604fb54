use interface::emitter::{bounding_box, normalize};
use interface::geometry::Point;
use interface::outcome::Defect;

fn pt(x: i64, y: i64) -> Point {
    Point { x, y }
}

#[test]
fn bounding_box_spans_the_extremes() {
    let v = vec![pt(1, 2), pt(5, -3), pt(4, 0)];
    assert_eq!(bounding_box(&v).unwrap(), (1, -3, 5, 2));
}

#[test]
fn bounding_box_of_nothing_is_degenerate() {
    assert_eq!(bounding_box(&Vec::new()), Err(Defect::Bounds));
}

#[test]
fn normalization_spans_exactly_the_target_box() {
    let mut v = vec![pt(0, 0), pt(10, 0), pt(10, 10)];
    normalize(&mut v, 100).unwrap();
    assert_eq!(v, vec![pt(-100, -100), pt(100, -100), pt(100, 100)]);
    assert_eq!(bounding_box(&v).unwrap(), (-100, -100, 100, 100));
}

#[test]
fn normalization_keeps_interior_points_inside() {
    let mut v = vec![pt(0, 0), pt(4, 4), pt(1, 3)];
    normalize(&mut v, 50).unwrap();
    // 2 * 50 * 1 / 4 - 50 = -25 and 2 * 50 * 3 / 4 - 50 = 25.
    assert_eq!(v, vec![pt(-50, -50), pt(50, 50), pt(-25, 25)]);
}

#[test]
fn normalization_rounds_down_on_an_uneven_box() {
    let mut v = vec![pt(0, 0), pt(3, 3), pt(1, 2)];
    normalize(&mut v, 1).unwrap();
    // 2 * 1 * 1 / 3 floors to 0 and 2 * 1 * 2 / 3 floors to 1.
    assert_eq!(v, vec![pt(-1, -1), pt(1, 1), pt(-1, 0)]);
}

#[test]
fn empty_vertex_list_cannot_be_normalized() {
    let mut v: Vec<Point> = Vec::new();
    assert_eq!(normalize(&mut v, 100), Err(Defect::Bounds));
    assert_eq!(v, Vec::<Point>::new());
}

#[test]
fn single_point_has_a_degenerate_box() {
    let mut v = vec![pt(5, 5)];
    assert_eq!(normalize(&mut v, 100), Err(Defect::Bounds));
    assert_eq!(v, vec![pt(5, 5)]);
}

#[test]
fn zero_height_box_is_degenerate() {
    let mut v = vec![pt(0, 7), pt(10, 7)];
    assert_eq!(normalize(&mut v, 100), Err(Defect::Bounds));
    assert_eq!(v, vec![pt(0, 7), pt(10, 7)]);
}
