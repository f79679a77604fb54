//! Points in the fixed-point coordinate plane, the representable range,
//! and the control-point reflection used by smooth curve commands.

use vstd::prelude::*;

verus! {

/// Magnitude bound on every coordinate mantissa the library works with.
/// Keeping coordinates within it lets every intermediate product of the
/// curve evaluator and the normalizer fit comfortably in machine integers.
pub const COORD_LIMIT: i64 = 0x8000_0000;

/// A point: a pair of fixed-point coordinate mantissas.
#[derive(Clone, Copy, Debug, PartialEq, Eq, Structural)]
pub struct Point {
    pub x: i64,
    pub y: i64,
}

/// Whether a single coordinate mantissa is within the representable range.
pub open spec fn coord_in_range(c: int) -> bool {
    -(COORD_LIMIT as int) <= c <= COORD_LIMIT as int
}

/// Whether both coordinates of a point are within the representable range.
pub open spec fn point_in_range(p: Point) -> bool {
    coord_in_range(p.x as int) && coord_in_range(p.y as int)
}

impl Point {
    /// Build a point from its coordinate mantissas.
    pub fn new(x: i64, y: i64) -> (r: Point)
        ensures
            r.x == x,
            r.y == y,
    {
        Point { x, y }
    }
}

/// The reflection of coordinate `p` about coordinate `c`: the value as far
/// beyond `c` as `p` lies before it.
pub open spec fn spec_reflect(c: int, p: int) -> int {
    2 * c - p
}

/// Reflect the previous control point `p` about the cursor `c`, giving the
/// implied first control point of a smooth curve.
pub fn reflect(c: Point, p: Point) -> (r: Point)
    requires
        point_in_range(c),
        point_in_range(p),
    ensures
        r.x == spec_reflect(c.x as int, p.x as int),
        r.y == spec_reflect(c.y as int, p.y as int),
{
    Point { x: 2 * c.x - p.x, y: 2 * c.y - p.y }
}

/// The reflection law: `r = 2c - p` places `c` exactly midway between `p`
/// and `r`, and the three points are collinear.
pub proof fn lemma_reflection_midpoint(c: Point, p: Point, r: Point)
    requires
        r.x == spec_reflect(c.x as int, p.x as int),
        r.y == spec_reflect(c.y as int, p.y as int),
    ensures
        p.x + r.x == 2 * c.x,
        p.y + r.y == 2 * c.y,
        r.x - c.x == c.x - p.x,
        r.y - c.y == c.y - p.y,
        (c.x - p.x) * (r.y - p.y) == (c.y - p.y) * (r.x - p.x),
{
    assert((c.x - p.x) * (r.y - p.y) == (c.y - p.y) * (r.x - p.x)) by (nonlinear_arith)
        requires
            r.x == 2 * c.x - p.x,
            r.y == 2 * c.y - p.y,
    ;
}

}
