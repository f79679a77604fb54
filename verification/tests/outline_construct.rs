use interface::geometry::Point;
use interface::outcome::Defect;
use interface::outline::{construct, Contour, Outline, Segment};

fn pt(x: i64, y: i64) -> Point {
    Point { x, y }
}

#[test]
fn a_contour_opens_at_its_offset() {
    let outline = Outline {
        contours: vec![Contour { offset_x: 5, offset_y: 5, segments: vec![Segment::Linear(10, 0)] }],
    };
    let v = construct(&outline, 2).unwrap();
    assert_eq!(v, vec![pt(5, 5), pt(15, 5)]);
}

#[test]
fn linear_segments_are_sampled_along_the_line() {
    let outline = Outline {
        contours: vec![Contour { offset_x: 0, offset_y: 0, segments: vec![Segment::Linear(10, 0)] }],
    };
    let v = construct(&outline, 11).unwrap();
    assert_eq!(v.len(), 11);
    for (i, p) in v.iter().enumerate() {
        assert_eq!(*p, pt(i as i64, 0));
    }
}

#[test]
fn cubic_segment_matches_the_formula() {
    // Deltas building the control polygon (0,0) (0,10) (10,10) (10,0);
    // the contour anchor plays the first sample's part.
    let outline = Outline {
        contours: vec![
            Contour {
                offset_x: 0,
                offset_y: 0,
                segments: vec![Segment::Cubic(0, 10, 10, 0, 0, -10)],
            },
        ],
    };
    let v = construct(&outline, 3).unwrap();
    assert_eq!(v, vec![pt(0, 0), pt(5, 7), pt(10, 0)]);
}

#[test]
fn quadratic_segment_matches_the_formula() {
    let outline = Outline {
        contours: vec![
            Contour {
                offset_x: 0,
                offset_y: 0,
                segments: vec![Segment::Quadratic(5, 10, 5, -10)],
            },
        ],
    };
    let v = construct(&outline, 3).unwrap();
    assert_eq!(v, vec![pt(0, 0), pt(5, 5), pt(10, 0)]);
}

#[test]
fn contour_offsets_accumulate_across_contours() {
    let outline = Outline {
        contours: vec![
            Contour { offset_x: 10, offset_y: 0, segments: vec![Segment::Linear(2, 2)] },
            Contour { offset_x: 10, offset_y: 0, segments: vec![Segment::Linear(3, 3)] },
        ],
    };
    let v = construct(&outline, 2).unwrap();
    // The second contour starts at (12, 2) + (10, 0).
    assert_eq!(v, vec![pt(10, 0), pt(12, 2), pt(22, 2), pt(25, 5)]);
}

#[test]
fn constructed_glyph_normalizes_into_the_target_box() {
    // The glyph pipeline end to end: flatten the outline, then rescale
    // it so the bounding box spans the clip-space square exactly.
    let outline = Outline {
        contours: vec![
            Contour {
                offset_x: 0,
                offset_y: 0,
                segments: vec![Segment::Linear(40, 0), Segment::Linear(0, 20)],
            },
        ],
    };
    let mut v = construct(&outline, 2).unwrap();
    assert_eq!(v, vec![pt(0, 0), pt(40, 0), pt(40, 20)]);
    interface::emitter::normalize(&mut v, 10).unwrap();
    assert_eq!(v, vec![pt(-10, -10), pt(10, -10), pt(10, 10)]);
}

#[test]
fn empty_outline_flattens_to_nothing() {
    let outline = Outline { contours: Vec::new() };
    let v = construct(&outline, 11).unwrap();
    assert_eq!(v, Vec::<Point>::new());
}

#[test]
fn outline_degenerate_sample_count_fails() {
    let outline = Outline { contours: Vec::new() };
    assert_eq!(construct(&outline, 1), Err(Defect::Samples));
}
