use interface::charstring::{arity, flatten, Operator};
use interface::geometry::Point;
use interface::outcome::Defect;

fn pt(x: i64, y: i64) -> Point {
    Point { x, y }
}

#[test]
fn rlineto_rejects_odd_operand_counts() {
    for n in [1usize, 3, 5, 7, 99] {
        assert!(!arity(Operator::RLineTo, n));
    }
    for n in [0usize, 2, 4, 6, 100] {
        assert!(arity(Operator::RLineTo, n));
    }
}

#[test]
fn rmoveto_requires_exactly_two_operands() {
    assert!(arity(Operator::RMoveTo, 2));
    for n in [0usize, 1, 3, 4, 5, 6] {
        assert!(!arity(Operator::RMoveTo, n));
    }
}

#[test]
fn hvcurveto_accepts_exactly_the_four_modular_classes() {
    for n in [0usize, 1, 4, 5, 8, 9, 12, 13, 16, 17] {
        assert!(arity(Operator::HVCurveTo, n));
        assert!(arity(Operator::VHCurveTo, n));
    }
    for n in [2usize, 3, 6, 7, 10, 11, 14, 15] {
        assert!(!arity(Operator::HVCurveTo, n));
        assert!(!arity(Operator::VHCurveTo, n));
    }
}

#[test]
fn remaining_arity_classes() {
    assert!(arity(Operator::HMoveTo, 1) && !arity(Operator::HMoveTo, 2));
    assert!(arity(Operator::VMoveTo, 1) && !arity(Operator::VMoveTo, 0));
    assert!(arity(Operator::RRCurveTo, 6) && arity(Operator::RRCurveTo, 12));
    assert!(!arity(Operator::RRCurveTo, 8));
    assert!(arity(Operator::HHCurveTo, 4) && arity(Operator::HHCurveTo, 5));
    assert!(!arity(Operator::HHCurveTo, 6) && !arity(Operator::HHCurveTo, 7));
    assert!(arity(Operator::RCurveLine, 8) && arity(Operator::RCurveLine, 14));
    assert!(!arity(Operator::RCurveLine, 6) && !arity(Operator::RCurveLine, 12));
    assert!(arity(Operator::RLineCurve, 6) && arity(Operator::RLineCurve, 8));
    assert!(!arity(Operator::RLineCurve, 4) && !arity(Operator::RLineCurve, 7));
    assert!(arity(Operator::HStem, 2) && !arity(Operator::VStemHM, 3));
}

#[test]
fn bad_arity_is_a_terminal_defect() {
    let prog = vec![(Operator::RMoveTo, vec![1, 2, 3])];
    assert_eq!(flatten(&prog, 11), Err(Defect::Arity));
}

#[test]
fn moves_and_lines_track_the_cursor() {
    let prog = vec![
        (Operator::RMoveTo, vec![5, 5]),
        (Operator::RLineTo, vec![10, 0, 0, 10]),
    ];
    let v = flatten(&prog, 11).unwrap();
    assert_eq!(v, vec![pt(5, 5), pt(15, 5), pt(15, 15)]);
}

#[test]
fn axis_moves_shift_one_coordinate() {
    let prog = vec![
        (Operator::HMoveTo, vec![7]),
        (Operator::VMoveTo, vec![3]),
        (Operator::RLineTo, vec![1, 0]),
    ];
    let v = flatten(&prog, 11).unwrap();
    assert_eq!(v, vec![pt(7, 3), pt(8, 3)]);
}

#[test]
fn hlineto_alternates_axes() {
    let prog = vec![(Operator::RMoveTo, vec![0, 0]), (Operator::HLineTo, vec![10, 5, -4])];
    let v = flatten(&prog, 11).unwrap();
    assert_eq!(v, vec![pt(0, 0), pt(10, 0), pt(10, 5), pt(6, 5)]);
}

#[test]
fn vlineto_starts_on_the_vertical_axis() {
    let prog = vec![(Operator::RMoveTo, vec![0, 0]), (Operator::VLineTo, vec![10, 5])];
    let v = flatten(&prog, 11).unwrap();
    assert_eq!(v, vec![pt(0, 0), pt(0, 10), pt(5, 10)]);
}

#[test]
fn rrcurveto_emits_every_sample() {
    let prog = vec![(Operator::RRCurveTo, vec![0, 10, 10, 0, 10, -10])];
    let v = flatten(&prog, 2).unwrap();
    assert_eq!(v, vec![pt(0, 0), pt(0, 0), pt(20, 0)]);
}

#[test]
fn hvcurveto_bends_horizontal_to_vertical() {
    let prog = vec![(Operator::RMoveTo, vec![0, 0]), (Operator::HVCurveTo, vec![10, 0, 0, 10])];
    let v = flatten(&prog, 2).unwrap();
    assert_eq!(v, vec![pt(0, 0), pt(0, 0), pt(10, 10)]);
}

#[test]
fn hvcurveto_trailing_operand_moves_the_last_endpoint() {
    let prog = vec![
        (Operator::RMoveTo, vec![0, 0]),
        (Operator::HVCurveTo, vec![10, 0, 0, 10, 5]),
    ];
    let v = flatten(&prog, 2).unwrap();
    assert_eq!(v, vec![pt(0, 0), pt(0, 0), pt(15, 10)]);
}

#[test]
fn vhcurveto_bends_vertical_to_horizontal() {
    let prog = vec![(Operator::RMoveTo, vec![0, 0]), (Operator::VHCurveTo, vec![10, 0, 0, 10])];
    let v = flatten(&prog, 2).unwrap();
    assert_eq!(v, vec![pt(0, 0), pt(0, 0), pt(10, 10)]);
}

#[test]
fn hvcurveto_chains_alternate_orientation() {
    // Two groups: the first starts horizontally and ends vertically at
    // (10,10); the second starts vertically and ends horizontally.
    let prog = vec![
        (Operator::RMoveTo, vec![0, 0]),
        (Operator::HVCurveTo, vec![10, 0, 0, 10, 0, 10, 0, 10]),
    ];
    let v = flatten(&prog, 2).unwrap();
    assert_eq!(v, vec![pt(0, 0), pt(0, 0), pt(10, 10), pt(10, 10), pt(30, 10)]);
}

#[test]
fn hhcurveto_leading_operand_lifts_the_first_tangent() {
    let prog = vec![(Operator::HHCurveTo, vec![3, 10, 0, 0, 10])];
    let v = flatten(&prog, 2).unwrap();
    assert_eq!(v, vec![pt(0, 0), pt(0, 0), pt(20, 3)]);
}

#[test]
fn vvcurveto_keeps_tangents_vertical() {
    let prog = vec![(Operator::VVCurveTo, vec![10, 0, 0, 10])];
    let v = flatten(&prog, 2).unwrap();
    assert_eq!(v, vec![pt(0, 0), pt(0, 0), pt(0, 20)]);
}

#[test]
fn rcurveline_closes_with_a_line() {
    let prog = vec![(Operator::RCurveLine, vec![0, 10, 10, 0, 10, -10, 5, 5])];
    let v = flatten(&prog, 2).unwrap();
    assert_eq!(v, vec![pt(0, 0), pt(0, 0), pt(20, 0), pt(25, 5)]);
}

#[test]
fn rlinecurve_closes_with_a_curve() {
    let prog = vec![(Operator::RLineCurve, vec![5, 0, 0, 10, 10, 0, 10, -10])];
    let v = flatten(&prog, 2).unwrap();
    assert_eq!(v, vec![pt(0, 0), pt(5, 0), pt(5, 0), pt(25, 0)]);
}

#[test]
fn hint_operators_are_skipped() {
    let prog = vec![
        (Operator::HStem, vec![0, 20]),
        (Operator::VStemHM, vec![5, 10]),
        (Operator::HintMask, vec![]),
        (Operator::RMoveTo, vec![1, 1]),
        (Operator::RLineTo, vec![1, 0]),
    ];
    let v = flatten(&prog, 11).unwrap();
    assert_eq!(v, vec![pt(1, 1), pt(2, 1)]);
}

#[test]
fn charstring_degenerate_sample_count_fails() {
    let prog = vec![(Operator::RMoveTo, vec![0, 0])];
    assert_eq!(flatten(&prog, 1), Err(Defect::Samples));
}
