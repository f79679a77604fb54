use interface::curve::{trace_cubic, trace_linear, trace_quadratic};
use interface::geometry::Point;
use interface::outcome::Defect;

fn pt(x: i64, y: i64) -> Point {
    Point { x, y }
}

#[test]
fn cubic_endpoints_are_interpolated() {
    let v = trace_cubic(pt(0, 0), pt(3, 7), pt(9, 2), pt(10, 10), 7).unwrap();
    assert_eq!(v.len(), 7);
    assert_eq!(v[0], pt(0, 0));
    assert_eq!(v[6], pt(10, 10));
}

#[test]
fn cubic_endpoints_hold_for_negative_coordinates() {
    let v = trace_cubic(pt(-20, 13), pt(0, 0), pt(5, -5), pt(17, -40), 5).unwrap();
    assert_eq!(v[0], pt(-20, 13));
    assert_eq!(v[4], pt(17, -40));
}

#[test]
fn sample_count_is_exact() {
    for n in [2usize, 3, 4, 11, 100] {
        let v = trace_cubic(pt(0, 0), pt(1, 2), pt(3, 4), pt(5, 6), n).unwrap();
        assert_eq!(v.len(), n);
        let w = trace_quadratic(pt(0, 0), pt(1, 2), pt(3, 4), n).unwrap();
        assert_eq!(w.len(), n);
        let u = trace_linear(pt(0, 0), pt(5, 6), n).unwrap();
        assert_eq!(u.len(), n);
    }
}

#[test]
fn two_samples_are_exactly_the_endpoints() {
    let v = trace_cubic(pt(1, 2), pt(50, -3), pt(-4, 90), pt(7, 8), 2).unwrap();
    assert_eq!(v, vec![pt(1, 2), pt(7, 8)]);
}

#[test]
fn cubic_midpoint_matches_the_formula() {
    // B(1/2) of (0,0) (0,10) (10,10) (10,0) is (5, 7.5); the y value
    // rounds down to the integer grid.
    let v = trace_cubic(pt(0, 0), pt(0, 10), pt(10, 10), pt(10, 0), 3).unwrap();
    assert_eq!(v, vec![pt(0, 0), pt(5, 7), pt(10, 0)]);
}

#[test]
fn cubic_midpoint_is_exact_on_a_finer_grid() {
    // The same curve with every coordinate doubled: B(1/2) = (10, 15),
    // representable exactly, so no rounding happens.
    let v = trace_cubic(pt(0, 0), pt(0, 20), pt(20, 20), pt(20, 0), 3).unwrap();
    assert_eq!(v, vec![pt(0, 0), pt(10, 15), pt(20, 0)]);
}

#[test]
fn quadratic_midpoint_matches_the_formula() {
    // B(1/2) of (0,0) (5,10) (10,0) is (5, 5).
    let v = trace_quadratic(pt(0, 0), pt(5, 10), pt(10, 0), 3).unwrap();
    assert_eq!(v, vec![pt(0, 0), pt(5, 5), pt(10, 0)]);
}

#[test]
fn linear_trace_walks_the_segment() {
    let v = trace_linear(pt(0, 0), pt(10, 4), 3).unwrap();
    assert_eq!(v, vec![pt(0, 0), pt(5, 2), pt(10, 4)]);
}

#[test]
fn eleven_samples_of_a_line_are_evenly_spaced() {
    let v = trace_linear(pt(0, 0), pt(100, 0), 11).unwrap();
    for (i, p) in v.iter().enumerate() {
        assert_eq!(*p, pt(10 * i as i64, 0));
    }
}

#[test]
fn fewer_than_two_samples_is_degenerate() {
    assert_eq!(trace_cubic(pt(0, 0), pt(1, 1), pt(2, 2), pt(3, 3), 1), Err(Defect::Samples));
    assert_eq!(trace_cubic(pt(0, 0), pt(1, 1), pt(2, 2), pt(3, 3), 0), Err(Defect::Samples));
    assert_eq!(trace_quadratic(pt(0, 0), pt(1, 1), pt(2, 2), 1), Err(Defect::Samples));
    assert_eq!(trace_linear(pt(0, 0), pt(1, 1), 0), Err(Defect::Samples));
}
