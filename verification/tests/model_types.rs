use interface::error::Error;
use interface::event::Event;
use interface::figure::{Figure, Scene, Topology};
use interface::geometry::{reflect, Point};

fn pt(x: i64, y: i64) -> Point {
    Point { x, y }
}

#[test]
fn reflection_mirrors_through_the_cursor() {
    let r = reflect(pt(5, 3), pt(2, 1));
    assert_eq!(r, pt(8, 5));
    // The cursor sits midway between the control point and its mirror,
    // and the three points are collinear.
    assert_eq!(r.x - 5, 5 - 2);
    assert_eq!(r.y - 3, 3 - 1);
    assert_eq!((5 - 2) * (r.y - 1), (3 - 1) * (r.x - 2));
}

#[test]
fn reflection_of_the_cursor_itself_stays_put() {
    assert_eq!(reflect(pt(4, -7), pt(4, -7)), pt(4, -7));
}

#[test]
fn figure_keeps_what_it_was_built_from() {
    let f = Figure::new(vec![pt(1, 2), pt(3, 4)], Topology::LineStrip);
    assert_eq!(*f.vertices(), vec![pt(1, 2), pt(3, 4)]);
    assert_eq!(f.topology(), Topology::LineStrip);
}

#[test]
fn scene_renders_in_append_order() {
    let mut scene = Scene::new();
    assert_eq!(scene.len(), 0);
    scene.append(Figure::new(vec![pt(0, 0)], Topology::LineStrip));
    scene.append(Figure::new(vec![pt(9, 9)], Topology::TriangleStrip));
    assert_eq!(scene.len(), 2);
    assert_eq!(*scene.get(0).vertices(), vec![pt(0, 0)]);
    assert_eq!(scene.get(1).topology(), Topology::TriangleStrip);
}

#[test]
fn error_keeps_its_message() {
    let e = Error::new("cannot create a window");
    assert_eq!(e.message(), "cannot create a window");
}

#[test]
fn outcome_error_carries_its_text() {
    let e = interface::outcome::Error(String::from("failed to create a vertex buffer"));
    assert_eq!(e.0, "failed to create a vertex buffer");
}

#[test]
fn events_are_distinguishable() {
    assert_eq!(Event::LeftMouseDown, Event::LeftMouseDown);
    assert_ne!(Event::WindowClosed, Event::WindowResized);
}
