use interface::geometry::{Point, COORD_LIMIT};
use interface::outcome::Defect;
use interface::path::{flatten, Command, Positioning};

fn pt(x: i64, y: i64) -> Point {
    Point { x, y }
}

#[test]
fn square_outline_flattens_to_its_corners() {
    // The scenario "M0,0 L10,0 L10,10 Z": the close contributes nothing.
    let cmds = vec![
        Command::MoveTo(Positioning::Absolute, vec![0, 0]),
        Command::LineTo(Positioning::Absolute, vec![10, 0]),
        Command::LineTo(Positioning::Absolute, vec![10, 10]),
        Command::ClosePath,
    ];
    let v = flatten(&cmds, 11).unwrap();
    assert_eq!(v, vec![pt(0, 0), pt(10, 0), pt(10, 10)]);
}

#[test]
fn lone_line_reproduces_exactly_its_endpoints() {
    // A straight line flattens with no interpolation artifacts: the
    // origin anchor and the endpoint, nothing else.
    let cmds = vec![Command::LineTo(Positioning::Absolute, vec![10, 0])];
    let v = flatten(&cmds, 11).unwrap();
    assert_eq!(v, vec![pt(0, 0), pt(10, 0)]);
}

#[test]
fn relative_commands_accumulate() {
    let cmds = vec![
        Command::MoveTo(Positioning::Relative, vec![5, 5]),
        Command::LineTo(Positioning::Relative, vec![5, 0, 0, 5]),
    ];
    let v = flatten(&cmds, 11).unwrap();
    assert_eq!(v, vec![pt(5, 5), pt(10, 5), pt(10, 10)]);
}

#[test]
fn later_move_pairs_supersede_earlier_ones() {
    let cmds = vec![
        Command::MoveTo(Positioning::Absolute, vec![1, 1, 7, 7]),
        Command::LineTo(Positioning::Absolute, vec![8, 8]),
    ];
    let v = flatten(&cmds, 11).unwrap();
    assert_eq!(v, vec![pt(7, 7), pt(8, 8)]);
}

#[test]
fn trailing_partial_operand_group_is_ignored() {
    let cmds = vec![Command::LineTo(Positioning::Absolute, vec![10, 0, 99])];
    let v = flatten(&cmds, 11).unwrap();
    assert_eq!(v, vec![pt(0, 0), pt(10, 0)]);
}

#[test]
fn cubic_curve_emits_every_sample() {
    // C (0,10) (10,10) (10,0) from the origin, three samples: the anchor
    // vertex, then the samples at t = 0, 1/2, 1.
    let cmds = vec![Command::CurveTo(Positioning::Absolute, vec![0, 10, 10, 10, 10, 0])];
    let v = flatten(&cmds, 3).unwrap();
    assert_eq!(v, vec![pt(0, 0), pt(0, 0), pt(5, 7), pt(10, 0)]);
}

#[test]
fn relative_curve_resolves_against_the_cursor() {
    let cmds = vec![
        Command::MoveTo(Positioning::Absolute, vec![100, 100]),
        Command::CurveTo(Positioning::Relative, vec![0, 20, 20, 20, 20, 0]),
    ];
    let v = flatten(&cmds, 3).unwrap();
    assert_eq!(v, vec![pt(100, 100), pt(100, 100), pt(110, 115), pt(120, 100)]);
}

#[test]
fn smooth_curve_reflects_the_recorded_control_point() {
    // After the C command the control point (10,10) is on record; S
    // reflects it about the cursor (10,0) to (10,-10).
    let cmds = vec![
        Command::MoveTo(Positioning::Absolute, vec![0, 0]),
        Command::CurveTo(Positioning::Absolute, vec![0, 10, 10, 10, 10, 0]),
        Command::SmoothCurveTo(Positioning::Absolute, vec![20, 0, 20, 10]),
    ];
    let v = flatten(&cmds, 2).unwrap();
    assert_eq!(v, vec![pt(0, 0), pt(0, 0), pt(10, 0), pt(10, 0), pt(20, 10)]);
}

#[test]
fn relative_smooth_curve_resolves_against_the_cursor() {
    let cmds = vec![
        Command::MoveTo(Positioning::Absolute, vec![0, 0]),
        Command::CurveTo(Positioning::Absolute, vec![0, 10, 10, 10, 10, 0]),
        Command::SmoothCurveTo(Positioning::Relative, vec![10, 0, 10, 10]),
    ];
    let v = flatten(&cmds, 2).unwrap();
    assert_eq!(v, vec![pt(0, 0), pt(0, 0), pt(10, 0), pt(10, 0), pt(20, 10)]);
}

#[test]
fn smooth_curve_without_precedent_fails() {
    let cmds = vec![
        Command::MoveTo(Positioning::Absolute, vec![0, 0]),
        Command::SmoothCurveTo(Positioning::Absolute, vec![1, 2, 3, 4]),
    ];
    assert_eq!(flatten(&cmds, 11), Err(Defect::Reflection));
}

#[test]
fn degenerate_sample_count_fails() {
    let cmds = vec![Command::LineTo(Positioning::Absolute, vec![10, 0])];
    assert_eq!(flatten(&cmds, 1), Err(Defect::Samples));
    assert_eq!(flatten(&cmds, 0), Err(Defect::Samples));
}

#[test]
fn operand_beyond_the_coordinate_range_fails() {
    let cmds = vec![Command::LineTo(Positioning::Absolute, vec![COORD_LIMIT + 1, 0])];
    assert_eq!(flatten(&cmds, 11), Err(Defect::Range));
}

#[test]
fn relative_step_leaving_the_coordinate_range_fails() {
    let cmds = vec![
        Command::MoveTo(Positioning::Absolute, vec![COORD_LIMIT, 0]),
        Command::LineTo(Positioning::Relative, vec![1, 0]),
    ];
    assert_eq!(flatten(&cmds, 11), Err(Defect::Range));
}

#[test]
fn empty_command_list_flattens_to_nothing() {
    let v = flatten(&Vec::new(), 11).unwrap();
    assert_eq!(v, Vec::<Point>::new());
}
