//! The outline flattener: a glyph outline as contours of relative
//! segments, flattened into one vertex list.
//!
//! The cursor starts at the origin and persists across contours. Each
//! contour first shifts the cursor by its offset and emits the resulting
//! position as the contour's first vertex; every segment is then sampled
//! by the curve evaluator with the cursor as its start point, and all its
//! samples but the first — the cursor itself, already emitted — are
//! appended.

use vstd::prelude::*;

use crate::curve::{
    cubic_chain, cubic_points, lemma_concat_assoc, lemma_extend_keeps, lemma_points_view_concat,
    lemma_points_view_skip, linear_chain, linear_points, point_view, points_view, quadratic_chain,
    quadratic_points, MAX_SAMPLES,
};
use crate::geometry::{point_in_range, Point};
use crate::outcome::Defect;
use crate::path::{resolve, resolve_coord};

verus! {

/// One outline segment, as offsets from the current cursor: each control
/// point is relative to the one before it.
#[derive(Clone, Copy, Debug, PartialEq, Eq, Structural)]
pub enum Segment {
    Linear(i64, i64),
    Quadratic(i64, i64, i64, i64),
    Cubic(i64, i64, i64, i64, i64, i64),
}

/// One contour: an offset from the previous contour's end, then segments.
pub struct Contour {
    pub offset_x: i64,
    pub offset_y: i64,
    pub segments: Vec<Segment>,
}

/// A glyph outline: its contours, in drawing order.
pub struct Outline {
    pub contours: Vec<Contour>,
}

/// Interpret the segments from index `k` on, the cursor at `pos`.
pub open spec fn run_segments(segs: Seq<Segment>, k: int, pos: (int, int), samples: int) -> Result<
    ((int, int), Seq<(int, int)>),
    Defect,
>
    decreases segs.len() - k,
{
    if k < 0 || k >= segs.len() {
        Ok((pos, Seq::<(int, int)>::empty()))
    } else {
        match segs[k] {
            Segment::Linear(dx, dy) => match resolve_coord(pos.0, dx as int, true) {
                Err(d) => Err(d),
                Ok(bx) => match resolve_coord(pos.1, dy as int, true) {
                    Err(d) => Err(d),
                    Ok(by) => match run_segments(segs, k + 1, (bx, by), samples) {
                        Err(d) => Err(d),
                        Ok((pf, rest)) => Ok(
                            (pf, linear_chain(pos, (bx, by), samples).skip(1) + rest),
                        ),
                    },
                },
            },
            Segment::Quadratic(bx0, by0, cx0, cy0) => match resolve_coord(pos.0, bx0 as int, true) {
                Err(d) => Err(d),
                Ok(bx) => match resolve_coord(pos.1, by0 as int, true) {
                    Err(d) => Err(d),
                    Ok(by) => match resolve_coord(bx, cx0 as int, true) {
                        Err(d) => Err(d),
                        Ok(cx) => match resolve_coord(by, cy0 as int, true) {
                            Err(d) => Err(d),
                            Ok(cy) => match run_segments(segs, k + 1, (cx, cy), samples) {
                                Err(d) => Err(d),
                                Ok((pf, rest)) => Ok(
                                    (
                                        pf,
                                        quadratic_chain(pos, (bx, by), (cx, cy), samples).skip(1)
                                            + rest,
                                    ),
                                ),
                            },
                        },
                    },
                },
            },
            Segment::Cubic(bx0, by0, cx0, cy0, ex0, ey0) => match resolve_coord(
                pos.0,
                bx0 as int,
                true,
            ) {
                Err(d) => Err(d),
                Ok(bx) => match resolve_coord(pos.1, by0 as int, true) {
                    Err(d) => Err(d),
                    Ok(by) => match resolve_coord(bx, cx0 as int, true) {
                        Err(d) => Err(d),
                        Ok(cx) => match resolve_coord(by, cy0 as int, true) {
                            Err(d) => Err(d),
                            Ok(cy) => match resolve_coord(cx, ex0 as int, true) {
                                Err(d) => Err(d),
                                Ok(ex) => match resolve_coord(cy, ey0 as int, true) {
                                    Err(d) => Err(d),
                                    Ok(ey) => match run_segments(segs, k + 1, (ex, ey), samples) {
                                        Err(d) => Err(d),
                                        Ok((pf, rest)) => Ok(
                                            (
                                                pf,
                                                cubic_chain(
                                                    pos,
                                                    (bx, by),
                                                    (cx, cy),
                                                    (ex, ey),
                                                    samples,
                                                ).skip(1) + rest,
                                            ),
                                        ),
                                    },
                                },
                            },
                        },
                    },
                },
            },
        }
    }
}

/// Interpret the contours from index `k` on, the cursor at `pos`.
pub open spec fn run_contours(cs: Seq<Contour>, k: int, pos: (int, int), samples: int) -> Result<
    ((int, int), Seq<(int, int)>),
    Defect,
>
    decreases cs.len() - k,
{
    if k < 0 || k >= cs.len() {
        Ok((pos, Seq::<(int, int)>::empty()))
    } else {
        match resolve_coord(pos.0, cs[k].offset_x as int, true) {
            Err(d) => Err(d),
            Ok(ax) => match resolve_coord(pos.1, cs[k].offset_y as int, true) {
                Err(d) => Err(d),
                Ok(ay) => match run_segments(cs[k].segments@, 0, (ax, ay), samples) {
                    Err(d) => Err(d),
                    Ok((p2, sout)) => match run_contours(cs, k + 1, p2, samples) {
                        Err(d) => Err(d),
                        Ok((pf, rout)) => Ok((pf, (seq![(ax, ay)] + sout) + rout)),
                    },
                },
            },
        }
    }
}

/// The vertices a whole outline flattens to, starting at the origin.
/// Fewer than two samples per segment is degenerate and refused up front.
pub open spec fn construct_spec(cs: Seq<Contour>, samples: int) -> Result<Seq<(int, int)>, Defect> {
    if samples < 2 {
        Err(Defect::Samples)
    } else {
        match run_contours(cs, 0, (0, 0), samples) {
            Err(d) => Err(d),
            Ok((pf, out)) => Ok(out),
        }
    }
}

/// Append every sample of a traced segment but the first.
fn emit_tail(pts: &Vec<Point>, out: &mut Vec<Point>)
    requires
        pts@.len() >= 1,
    ensures
        final(out)@ == old(out)@ + pts@.skip(1),
{
    proof {
        assert(out@ =~= out@ + pts@.subrange(1, 1));
    }
    let mut idx: usize = 1;
    while idx < pts.len()
        invariant
            1 <= idx <= pts@.len(),
            out@ == old(out)@ + pts@.subrange(1, idx as int),
        decreases pts.len() - idx,
    {
        let p = pts[idx];
        out.push(p);
        proof {
            assert((old(out)@ + pts@.subrange(1, idx as int)).push(pts@[idx as int]) =~= old(out)@
                + pts@.subrange(1, idx as int + 1));
        }
        idx = idx + 1;
    }
    proof {
        assert(old(out)@ + pts@.subrange(1, pts@.len() as int) =~= old(out)@ + pts@.skip(1));
    }
}

/// Interpret one contour's segments, appending the samples they emit.
#[verifier::rlimit(100)]
fn do_segments(segs: &Vec<Segment>, cur: Point, out: &mut Vec<Point>, samples: usize) -> (r: Result<
    Point,
    Defect,
>)
    requires
        point_in_range(cur),
        2 <= samples <= MAX_SAMPLES,
        forall|j: int| 0 <= j < old(out)@.len() ==> point_in_range(#[trigger] old(out)@[j]),
    ensures
        forall|j: int| 0 <= j < final(out)@.len() ==> point_in_range(#[trigger] final(out)@[j]),
        match r {
            Ok(c2) => {
                &&& point_in_range(c2)
                &&& final(out)@.len() >= old(out)@.len()
                &&& final(out)@.subrange(0, old(out)@.len() as int) == old(out)@
                &&& run_segments(segs@, 0, point_view(cur), samples as int) == Ok::<_, Defect>(
                    (point_view(c2), points_view(final(out)@.skip(old(out)@.len() as int))),
                )
            },
            Err(d) => run_segments(segs@, 0, point_view(cur), samples as int) == Err::<
                ((int, int), Seq<(int, int)>),
                Defect,
            >(d),
        },
{
    let ghost base = out@.len() as int;
    let mut c = cur;
    proof {
        assert(out@.skip(base) =~= Seq::<Point>::empty());
        assert(points_view(out@.skip(base)) =~= Seq::<(int, int)>::empty());
        match run_segments(segs@, 0, point_view(cur), samples as int) {
            Ok((pf, rest)) => {
                assert(points_view(out@.skip(base)) + rest =~= rest);
            },
            Err(d) => {},
        }
    }
    let mut k: usize = 0;
    while k < segs.len()
        invariant
            point_in_range(c),
            k <= segs@.len(),
            2 <= samples <= MAX_SAMPLES,
            base == old(out)@.len(),
            0 <= base <= out@.len(),
            out@.subrange(0, base) == old(out)@,
            forall|j: int| 0 <= j < out@.len() ==> point_in_range(#[trigger] out@[j]),
            match run_segments(segs@, k as int, point_view(c), samples as int) {
                Ok((pf, rest)) => run_segments(segs@, 0, point_view(cur), samples as int) == Ok::<
                    _,
                    Defect,
                >((pf, points_view(out@.skip(base)) + rest)),
                Err(d) => run_segments(segs@, 0, point_view(cur), samples as int) == Err::<
                    ((int, int), Seq<(int, int)>),
                    Defect,
                >(d),
            },
        decreases segs.len() - k,
    {
        let sg = segs[k];
        let ghost pre = out@;
        let next = match sg {
            Segment::Linear(dx, dy) => {
                let bx = match resolve(c.x, dx, true) {
                    Ok(v) => v,
                    Err(d) => {
                        return Err(d);
                    },
                };
                let by = match resolve(c.y, dy, true) {
                    Ok(v) => v,
                    Err(d) => {
                        return Err(d);
                    },
                };
                let b = Point { x: bx, y: by };
                let pts = linear_points(c, b, samples);
                emit_tail(&pts, out);
                proof {
                    lemma_points_view_skip(pts@, 1);
                    lemma_extend_keeps(pre, pts@.skip(1), base);
                    lemma_points_view_concat(pre.skip(base), pts@.skip(1));
                    assert(pre.subrange(0, base) =~= out@.subrange(0, base));
                    match run_segments(segs@, (k + 1) as int, point_view(b), samples as int) {
                        Ok((pf, rest)) => {
                            lemma_concat_assoc(
                                points_view(pre.skip(base)),
                                linear_chain(point_view(c), point_view(b), samples as int).skip(1),
                                rest,
                            );
                        },
                        Err(d) => {},
                    }
                }
                b
            },
            Segment::Quadratic(d1x, d1y, d2x, d2y) => {
                let bx = match resolve(c.x, d1x, true) {
                    Ok(v) => v,
                    Err(d) => {
                        return Err(d);
                    },
                };
                let by = match resolve(c.y, d1y, true) {
                    Ok(v) => v,
                    Err(d) => {
                        return Err(d);
                    },
                };
                let cx = match resolve(bx, d2x, true) {
                    Ok(v) => v,
                    Err(d) => {
                        return Err(d);
                    },
                };
                let cy = match resolve(by, d2y, true) {
                    Ok(v) => v,
                    Err(d) => {
                        return Err(d);
                    },
                };
                let b = Point { x: bx, y: by };
                let e = Point { x: cx, y: cy };
                let pts = quadratic_points(c, b, e, samples);
                emit_tail(&pts, out);
                proof {
                    lemma_points_view_skip(pts@, 1);
                    lemma_extend_keeps(pre, pts@.skip(1), base);
                    lemma_points_view_concat(pre.skip(base), pts@.skip(1));
                    assert(pre.subrange(0, base) =~= out@.subrange(0, base));
                    match run_segments(segs@, (k + 1) as int, point_view(e), samples as int) {
                        Ok((pf, rest)) => {
                            lemma_concat_assoc(
                                points_view(pre.skip(base)),
                                quadratic_chain(
                                    point_view(c),
                                    point_view(b),
                                    point_view(e),
                                    samples as int,
                                ).skip(1),
                                rest,
                            );
                        },
                        Err(d) => {},
                    }
                }
                e
            },
            Segment::Cubic(d1x, d1y, d2x, d2y, d3x, d3y) => {
                let bx = match resolve(c.x, d1x, true) {
                    Ok(v) => v,
                    Err(d) => {
                        return Err(d);
                    },
                };
                let by = match resolve(c.y, d1y, true) {
                    Ok(v) => v,
                    Err(d) => {
                        return Err(d);
                    },
                };
                let cx = match resolve(bx, d2x, true) {
                    Ok(v) => v,
                    Err(d) => {
                        return Err(d);
                    },
                };
                let cy = match resolve(by, d2y, true) {
                    Ok(v) => v,
                    Err(d) => {
                        return Err(d);
                    },
                };
                let ex = match resolve(cx, d3x, true) {
                    Ok(v) => v,
                    Err(d) => {
                        return Err(d);
                    },
                };
                let ey = match resolve(cy, d3y, true) {
                    Ok(v) => v,
                    Err(d) => {
                        return Err(d);
                    },
                };
                let b = Point { x: bx, y: by };
                let m = Point { x: cx, y: cy };
                let e = Point { x: ex, y: ey };
                let pts = cubic_points(c, b, m, e, samples);
                emit_tail(&pts, out);
                proof {
                    lemma_points_view_skip(pts@, 1);
                    lemma_extend_keeps(pre, pts@.skip(1), base);
                    lemma_points_view_concat(pre.skip(base), pts@.skip(1));
                    assert(pre.subrange(0, base) =~= out@.subrange(0, base));
                    match run_segments(segs@, (k + 1) as int, point_view(e), samples as int) {
                        Ok((pf, rest)) => {
                            lemma_concat_assoc(
                                points_view(pre.skip(base)),
                                cubic_chain(
                                    point_view(c),
                                    point_view(b),
                                    point_view(m),
                                    point_view(e),
                                    samples as int,
                                ).skip(1),
                                rest,
                            );
                        },
                        Err(d) => {},
                    }
                }
                e
            },
        };
        c = next;
        k = k + 1;
    }
    Ok(c)
}

/// Flatten a whole outline into vertices, starting at the origin. The
/// result is exactly what the mathematical interpretation of the contours
/// prescribes: `Ok` with every emitted vertex in order, or the first
/// defect a contour runs into.
pub fn construct(outline: &Outline, samples: usize) -> (r: Result<Vec<Point>, Defect>)
    requires
        samples <= MAX_SAMPLES,
    ensures
        match r {
            Ok(v) => construct_spec(outline.contours@, samples as int) == Ok::<_, Defect>(
                points_view(v@),
            ) && (forall|j: int| 0 <= j < v@.len() ==> point_in_range(#[trigger] v@[j])),
            Err(d) => construct_spec(outline.contours@, samples as int) == Err::<
                Seq<(int, int)>,
                Defect,
            >(d),
        },
{
    let ghost cs = outline.contours@;
    if samples < 2 {
        return Err(Defect::Samples);
    }
    let mut out: Vec<Point> = Vec::new();
    let mut c = Point { x: 0, y: 0 };
    proof {
        assert(out@.skip(0) =~= out@);
        match run_contours(cs, 0, (0, 0), samples as int) {
            Ok((pf, rest)) => {
                assert(points_view(out@) + rest =~= rest);
            },
            Err(d) => {},
        }
    }
    let mut i: usize = 0;
    while i < outline.contours.len()
        invariant
            i <= cs.len(),
            cs == outline.contours@,
            2 <= samples <= MAX_SAMPLES,
            point_in_range(c),
            forall|j: int| 0 <= j < out@.len() ==> point_in_range(#[trigger] out@[j]),
            match run_contours(cs, i as int, point_view(c), samples as int) {
                Ok((pf, rest)) => run_contours(cs, 0, (0, 0), samples as int) == Ok::<
                    _,
                    Defect,
                >((pf, points_view(out@) + rest)),
                Err(d) => run_contours(cs, 0, (0, 0), samples as int) == Err::<
                    ((int, int), Seq<(int, int)>),
                    Defect,
                >(d),
            },
        decreases outline.contours.len() - i,
    {
        let ghost pre = out@;
        let ghost stp = point_view(c);
        let ct = &outline.contours[i];
        let ax = match resolve(c.x, ct.offset_x, true) {
            Ok(v) => v,
            Err(d) => {
                return Err(d);
            },
        };
        let ay = match resolve(c.y, ct.offset_y, true) {
            Ok(v) => v,
            Err(d) => {
                return Err(d);
            },
        };
        let a = Point { x: ax, y: ay };
        out.push(a);
        let ghost mid = out@;
        let c2 = match do_segments(&ct.segments, a, &mut out, samples) {
            Ok(v) => v,
            Err(d) => {
                return Err(d);
            },
        };
        proof {
            let sout = points_view(out@.skip(mid.len() as int));
            assert(run_segments(ct.segments@, 0, point_view(a), samples as int) == Ok::<
                _,
                Defect,
            >((point_view(c2), sout)));
            assert(out@.subrange(0, mid.len() as int) =~= mid);
            let emitted = points_view(out@.skip(pre.len() as int));
            assert(emitted =~= seq![(ax as int, ay as int)] + sout) by {
                assert(mid[pre.len() as int] == a);
                assert(out@[pre.len() as int] == mid[pre.len() as int]) by {
                    assert(out@.subrange(0, mid.len() as int)[pre.len() as int] == out@[pre.len()
                        as int]);
                }
                assert(out@.skip(pre.len() as int) =~= seq![a] + out@.skip(mid.len() as int));
                lemma_points_view_concat(seq![a], out@.skip(mid.len() as int));
                assert(points_view(seq![a]) =~= seq![(ax as int, ay as int)]);
            }
            assert(points_view(out@) =~= points_view(pre) + emitted) by {
                assert(out@.subrange(0, pre.len() as int) =~= pre);
                assert(out@ =~= out@.subrange(0, pre.len() as int) + out@.skip(pre.len() as int));
                lemma_points_view_concat(out@.subrange(0, pre.len() as int), out@.skip(
                    pre.len() as int,
                ));
            }
            match run_contours(cs, (i + 1) as int, point_view(c2), samples as int) {
                Ok((pf, rest)) => {
                    lemma_concat_assoc(points_view(pre), emitted, rest);
                },
                Err(d) => {},
            }
        }
        c = c2;
        i = i + 1;
    }
    proof {
        assert(points_view(out@) + Seq::<(int, int)>::empty() =~= points_view(out@));
    }
    Ok(out)
}

}
