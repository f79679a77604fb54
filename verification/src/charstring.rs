//! The charstring operator interpreter: PostScript Type 2 drawing
//! operators over the same cursor-tracking machine as the path
//! interpreter, with operand-count validation first.
//!
//! Every operand is a relative offset. Before an operator is interpreted
//! its operand count is held to the operator's arity classes; a count in
//! no class is an `Arity` defect. Move operators shift the cursor and
//! open a new subpath; line operators emit each endpoint; curve operators
//! emit every sample of each cubic. The horizontal/vertical variants
//! alternate which axis the written operand applies to, with an optional
//! leading (for `HHCurveTo`/`VVCurveTo`) or trailing (for
//! `HVCurveTo`/`VHCurveTo`) operand for the other axis. Hint operators
//! are recognized and skipped without touching the cursor.

use vstd::arithmetic::div_mod::lemma_mod_mod;
use vstd::prelude::*;

use crate::curve::{
    cubic_chain, cubic_points, lemma_concat_assoc, lemma_extend_keeps, lemma_points_view_concat,
    lemma_push_is_concat, points_view, MAX_SAMPLES,
};
use crate::geometry::{point_in_range, Point};
use crate::outcome::Defect;
use crate::path::{
    anchor, cursor_view, do_line, do_move, opened, ops_view, path_step, resolve, resolve_coord,
    start_state, state_in_range, with_anchor, CommandModel, Cursor, PathState,
};

verus! {

/// A Type 2 charstring operator.
#[derive(Clone, Copy, Debug, PartialEq, Eq, Structural)]
pub enum Operator {
    RMoveTo,
    HMoveTo,
    VMoveTo,
    RLineTo,
    HLineTo,
    VLineTo,
    RRCurveTo,
    HHCurveTo,
    VVCurveTo,
    HVCurveTo,
    VHCurveTo,
    RCurveLine,
    RLineCurve,
    HStem,
    VStem,
    HStemHM,
    VStemHM,
    HintMask,
    CntrMask,
}

/// Whether `n` operands satisfy an arity class of `op`.
///
/// Moves take their exact counts; chained operators take any number of
/// whole groups, the alternating curve chains allowing one odd operand
/// for the other axis; `RCurveLine` ends in a line pair and `RLineCurve`
/// in a six-operand curve; stems take hint pairs and masks anything.
pub open spec fn arity_ok(op: Operator, n: int) -> bool {
    match op {
        Operator::RMoveTo => n == 2,
        Operator::HMoveTo => n == 1,
        Operator::VMoveTo => n == 1,
        Operator::RLineTo => n % 2 == 0,
        Operator::HLineTo => true,
        Operator::VLineTo => true,
        Operator::RRCurveTo => n % 6 == 0,
        Operator::HHCurveTo => n % 4 == 0 || n % 4 == 1,
        Operator::VVCurveTo => n % 4 == 0 || n % 4 == 1,
        Operator::HVCurveTo => n % 4 == 0 || n % 4 == 1,
        Operator::VHCurveTo => n % 4 == 0 || n % 4 == 1,
        Operator::RCurveLine => n % 6 == 2,
        Operator::RLineCurve => n % 2 == 0 && n >= 6,
        Operator::HStem => n % 2 == 0,
        Operator::VStem => n % 2 == 0,
        Operator::HStemHM => n % 2 == 0,
        Operator::VStemHM => n % 2 == 0,
        Operator::HintMask => true,
        Operator::CntrMask => true,
    }
}

/// Validate an operand count against an operator's arity classes.
pub fn arity(op: Operator, n: usize) -> (b: bool)
    ensures
        b == arity_ok(op, n as int),
{
    match op {
        Operator::RMoveTo => n == 2,
        Operator::HMoveTo => n == 1,
        Operator::VMoveTo => n == 1,
        Operator::RLineTo => n % 2 == 0,
        Operator::HLineTo => true,
        Operator::VLineTo => true,
        Operator::RRCurveTo => n % 6 == 0,
        Operator::HHCurveTo => n % 4 <= 1,
        Operator::VVCurveTo => n % 4 <= 1,
        Operator::HVCurveTo => n % 4 <= 1,
        Operator::VHCurveTo => n % 4 <= 1,
        Operator::RCurveLine => n % 6 == 2,
        Operator::RLineCurve => n % 2 == 0 && n >= 6,
        Operator::HStem => n % 2 == 0,
        Operator::VStem => n % 2 == 0,
        Operator::HStemHM => n % 2 == 0,
        Operator::VStemHM => n % 2 == 0,
        Operator::HintMask => true,
        Operator::CntrMask => true,
    }
}

/// The arity rules spelled out: an odd count fails `RLineTo`, any count
/// but two fails `RMoveTo`, and the counts `8k`, `8k + 1`, `8k + 4` and
/// `8k + 5` are exactly the ones `HVCurveTo` (and `VHCurveTo`) accept.
pub proof fn lemma_arity_rules(n: int)
    requires
        0 <= n,
    ensures
        arity_ok(Operator::RLineTo, n) <==> n % 2 == 0,
        arity_ok(Operator::RMoveTo, n) <==> n == 2,
        arity_ok(Operator::HVCurveTo, n) <==> (n % 8 == 0 || n % 8 == 1 || n % 8 == 4 || n % 8
            == 5),
        arity_ok(Operator::VHCurveTo, n) <==> (n % 8 == 0 || n % 8 == 1 || n % 8 == 4 || n % 8
            == 5),
{
    lemma_mod_mod(n, 4, 2);
    assert(4 * 2 == 8);
    assert(0 <= n % 8 < 8);
    assert((n % 8) % 4 == n % 4);
}

/// Consume alternating single-axis line operands from index `k` on:
/// horizontal first when `horiz`, emitting each endpoint.
pub open spec fn run_axis_line(ops: Seq<int>, k: int, horiz: bool, st: PathState) -> Result<
    (PathState, Seq<(int, int)>),
    Defect,
>
    decreases ops.len() - k,
{
    if k < 0 || k + 1 > ops.len() {
        Ok((st, Seq::<(int, int)>::empty()))
    } else {
        let cur = if horiz {
            st.x
        } else {
            st.y
        };
        match resolve_coord(cur, ops[k], true) {
            Err(d) => Err(d),
            Ok(nv) => {
                let st1 = if horiz {
                    PathState { x: nv, y: st.y, control: st.control, fresh: st.fresh }
                } else {
                    PathState { x: st.x, y: nv, control: st.control, fresh: st.fresh }
                };
                match run_axis_line(ops, k + 1, !horiz, st1) {
                    Err(d) => Err(d),
                    Ok((st2, out)) => Ok((st2, seq![(st1.x, st1.y)] + out)),
                }
            },
        }
    }
}

/// Consume cumulative curve groups of six offsets from index `k` on:
/// each control point is an offset from the point before it.
pub open spec fn run_rcurve(ops: Seq<int>, k: int, st: PathState, samples: int) -> Result<
    (PathState, Seq<(int, int)>),
    Defect,
>
    decreases ops.len() - k,
{
    if k < 0 || k + 6 > ops.len() {
        Ok((st, Seq::<(int, int)>::empty()))
    } else {
        match resolve_coord(st.x, ops[k], true) {
            Err(d) => Err(d),
            Ok(x1) => match resolve_coord(st.y, ops[k + 1], true) {
                Err(d) => Err(d),
                Ok(y1) => match resolve_coord(x1, ops[k + 2], true) {
                    Err(d) => Err(d),
                    Ok(x2) => match resolve_coord(y1, ops[k + 3], true) {
                        Err(d) => Err(d),
                        Ok(y2) => match resolve_coord(x2, ops[k + 4], true) {
                            Err(d) => Err(d),
                            Ok(ex) => match resolve_coord(y2, ops[k + 5], true) {
                                Err(d) => Err(d),
                                Ok(ey) => {
                                    let pts = cubic_chain(
                                        (st.x, st.y),
                                        (x1, y1),
                                        (x2, y2),
                                        (ex, ey),
                                        samples,
                                    );
                                    match run_rcurve(
                                        ops,
                                        k + 6,
                                        PathState {
                                            x: ex,
                                            y: ey,
                                            control: st.control,
                                            fresh: st.fresh,
                                        },
                                        samples,
                                    ) {
                                        Err(d) => Err(d),
                                        Ok((st2, out)) => Ok((st2, pts + out)),
                                    }
                                },
                            },
                        },
                    },
                },
            },
        }
    }
}

/// Consume horizontal (or, with `horiz` false, vertical) curve groups
/// from index `k` on: each group's tangents lie on one axis, with `ex1`
/// carrying the other-axis offset of the first tangent — the written
/// leading operand for the first group, zero afterwards.
pub open spec fn run_hh(ops: Seq<int>, k: int, horiz: bool, ex1: int, st: PathState, samples: int)
    -> Result<(PathState, Seq<(int, int)>), Defect>
    decreases ops.len() - k,
{
    if k < 0 || k + 4 > ops.len() {
        Ok((st, Seq::<(int, int)>::empty()))
    } else {
        let a = if horiz {
            (ops[k], ex1)
        } else {
            (ex1, ops[k])
        };
        let e = if horiz {
            (ops[k + 3], 0int)
        } else {
            (0int, ops[k + 3])
        };
        match resolve_coord(st.x, a.0, true) {
            Err(d) => Err(d),
            Ok(x1) => match resolve_coord(st.y, a.1, true) {
                Err(d) => Err(d),
                Ok(y1) => match resolve_coord(x1, ops[k + 1], true) {
                    Err(d) => Err(d),
                    Ok(x2) => match resolve_coord(y1, ops[k + 2], true) {
                        Err(d) => Err(d),
                        Ok(y2) => match resolve_coord(x2, e.0, true) {
                            Err(d) => Err(d),
                            Ok(ex) => match resolve_coord(y2, e.1, true) {
                                Err(d) => Err(d),
                                Ok(ey) => {
                                    let pts = cubic_chain(
                                        (st.x, st.y),
                                        (x1, y1),
                                        (x2, y2),
                                        (ex, ey),
                                        samples,
                                    );
                                    match run_hh(
                                        ops,
                                        k + 4,
                                        horiz,
                                        0,
                                        PathState {
                                            x: ex,
                                            y: ey,
                                            control: st.control,
                                            fresh: st.fresh,
                                        },
                                        samples,
                                    ) {
                                        Err(d) => Err(d),
                                        Ok((st2, out)) => Ok((st2, pts + out)),
                                    }
                                },
                            },
                        },
                    },
                },
            },
        }
    }
}

/// Consume alternating curve groups from index `k` on: the first tangent
/// of each group lies on one axis and the final tangent on the other,
/// alternating group by group, a single trailing operand giving the last
/// endpoint's other-axis offset.
pub open spec fn run_hv(ops: Seq<int>, k: int, horiz: bool, st: PathState, samples: int) -> Result<
    (PathState, Seq<(int, int)>),
    Defect,
>
    decreases ops.len() - k,
{
    if k < 0 || k + 4 > ops.len() {
        Ok((st, Seq::<(int, int)>::empty()))
    } else {
        let ext = if k + 5 == ops.len() {
            ops[k + 4]
        } else {
            0int
        };
        let a = if horiz {
            (ops[k], 0int)
        } else {
            (0int, ops[k])
        };
        let e = if horiz {
            (ext, ops[k + 3])
        } else {
            (ops[k + 3], ext)
        };
        match resolve_coord(st.x, a.0, true) {
            Err(d) => Err(d),
            Ok(x1) => match resolve_coord(st.y, a.1, true) {
                Err(d) => Err(d),
                Ok(y1) => match resolve_coord(x1, ops[k + 1], true) {
                    Err(d) => Err(d),
                    Ok(x2) => match resolve_coord(y1, ops[k + 2], true) {
                        Err(d) => Err(d),
                        Ok(y2) => match resolve_coord(x2, e.0, true) {
                            Err(d) => Err(d),
                            Ok(ex) => match resolve_coord(y2, e.1, true) {
                                Err(d) => Err(d),
                                Ok(ey) => {
                                    let pts = cubic_chain(
                                        (st.x, st.y),
                                        (x1, y1),
                                        (x2, y2),
                                        (ex, ey),
                                        samples,
                                    );
                                    match run_hv(
                                        ops,
                                        k + 4,
                                        !horiz,
                                        PathState {
                                            x: ex,
                                            y: ey,
                                            control: st.control,
                                            fresh: st.fresh,
                                        },
                                        samples,
                                    ) {
                                        Err(d) => Err(d),
                                        Ok((st2, out)) => Ok((st2, pts + out)),
                                    }
                                },
                            },
                        },
                    },
                },
            },
        }
    }
}

/// Consume curve groups from index `k` on until exactly one coordinate
/// pair remains, which draws a closing line.
pub open spec fn run_curveline(ops: Seq<int>, k: int, st: PathState, samples: int) -> Result<
    (PathState, Seq<(int, int)>),
    Defect,
>
    decreases ops.len() - k,
{
    if k < 0 || k + 2 > ops.len() {
        Ok((st, Seq::<(int, int)>::empty()))
    } else if k + 8 > ops.len() {
        match resolve_coord(st.x, ops[k], true) {
            Err(d) => Err(d),
            Ok(nx) => match resolve_coord(st.y, ops[k + 1], true) {
                Err(d) => Err(d),
                Ok(ny) => Ok(
                    (
                        PathState { x: nx, y: ny, control: st.control, fresh: st.fresh },
                        seq![(nx, ny)],
                    ),
                ),
            },
        }
    } else {
        match resolve_coord(st.x, ops[k], true) {
            Err(d) => Err(d),
            Ok(x1) => match resolve_coord(st.y, ops[k + 1], true) {
                Err(d) => Err(d),
                Ok(y1) => match resolve_coord(x1, ops[k + 2], true) {
                    Err(d) => Err(d),
                    Ok(x2) => match resolve_coord(y1, ops[k + 3], true) {
                        Err(d) => Err(d),
                        Ok(y2) => match resolve_coord(x2, ops[k + 4], true) {
                            Err(d) => Err(d),
                            Ok(ex) => match resolve_coord(y2, ops[k + 5], true) {
                                Err(d) => Err(d),
                                Ok(ey) => {
                                    let pts = cubic_chain(
                                        (st.x, st.y),
                                        (x1, y1),
                                        (x2, y2),
                                        (ex, ey),
                                        samples,
                                    );
                                    match run_curveline(
                                        ops,
                                        k + 6,
                                        PathState {
                                            x: ex,
                                            y: ey,
                                            control: st.control,
                                            fresh: st.fresh,
                                        },
                                        samples,
                                    ) {
                                        Err(d) => Err(d),
                                        Ok((st2, out)) => Ok((st2, pts + out)),
                                    }
                                },
                            },
                        },
                    },
                },
            },
        }
    }
}

/// Consume line pairs from index `k` on until exactly six operands
/// remain, which draw a closing curve.
pub open spec fn run_linecurve(ops: Seq<int>, k: int, st: PathState, samples: int) -> Result<
    (PathState, Seq<(int, int)>),
    Defect,
>
    decreases ops.len() - k,
{
    if k < 0 || k + 6 > ops.len() {
        Ok((st, Seq::<(int, int)>::empty()))
    } else if k + 8 > ops.len() {
        match resolve_coord(st.x, ops[k], true) {
            Err(d) => Err(d),
            Ok(x1) => match resolve_coord(st.y, ops[k + 1], true) {
                Err(d) => Err(d),
                Ok(y1) => match resolve_coord(x1, ops[k + 2], true) {
                    Err(d) => Err(d),
                    Ok(x2) => match resolve_coord(y1, ops[k + 3], true) {
                        Err(d) => Err(d),
                        Ok(y2) => match resolve_coord(x2, ops[k + 4], true) {
                            Err(d) => Err(d),
                            Ok(ex) => match resolve_coord(y2, ops[k + 5], true) {
                                Err(d) => Err(d),
                                Ok(ey) => Ok(
                                    (
                                        PathState {
                                            x: ex,
                                            y: ey,
                                            control: st.control,
                                            fresh: st.fresh,
                                        },
                                        cubic_chain((st.x, st.y), (x1, y1), (x2, y2), (ex, ey), samples),
                                    ),
                                ),
                            },
                        },
                    },
                },
            },
        }
    } else {
        match resolve_coord(st.x, ops[k], true) {
            Err(d) => Err(d),
            Ok(nx) => match resolve_coord(st.y, ops[k + 1], true) {
                Err(d) => Err(d),
                Ok(ny) => match run_linecurve(
                    ops,
                    k + 2,
                    PathState { x: nx, y: ny, control: st.control, fresh: st.fresh },
                    samples,
                ) {
                    Err(d) => Err(d),
                    Ok((st2, out)) => Ok((st2, seq![(nx, ny)] + out)),
                },
            },
        }
    }
}

/// Interpret one operator with its operands from state `st`: validate the
/// operand count, then apply the operator's drawing rule.
pub open spec fn op_step(op: Operator, ops: Seq<int>, st: PathState, samples: int) -> Result<
    (PathState, Seq<(int, int)>),
    Defect,
> {
    if !arity_ok(op, ops.len() as int) {
        Err(Defect::Arity)
    } else {
        match op {
            Operator::RMoveTo => path_step(CommandModel::Move(true, ops), st, samples),
            Operator::HMoveTo => match resolve_coord(st.x, ops[0], true) {
                Err(d) => Err(d),
                Ok(nx) => Ok(
                    (
                        PathState { x: nx, y: st.y, control: st.control, fresh: true },
                        Seq::<(int, int)>::empty(),
                    ),
                ),
            },
            Operator::VMoveTo => match resolve_coord(st.y, ops[0], true) {
                Err(d) => Err(d),
                Ok(ny) => Ok(
                    (
                        PathState { x: st.x, y: ny, control: st.control, fresh: true },
                        Seq::<(int, int)>::empty(),
                    ),
                ),
            },
            Operator::RLineTo => path_step(CommandModel::Line(true, ops), st, samples),
            Operator::HLineTo => with_anchor(st, run_axis_line(ops, 0, true, opened(st))),
            Operator::VLineTo => with_anchor(st, run_axis_line(ops, 0, false, opened(st))),
            Operator::RRCurveTo => with_anchor(st, run_rcurve(ops, 0, opened(st), samples)),
            Operator::HHCurveTo => {
                let lead = if ops.len() % 4 == 1 {
                    1int
                } else {
                    0int
                };
                let ex1 = if ops.len() % 4 == 1 {
                    ops[0]
                } else {
                    0int
                };
                with_anchor(st, run_hh(ops, lead, true, ex1, opened(st), samples))
            },
            Operator::VVCurveTo => {
                let lead = if ops.len() % 4 == 1 {
                    1int
                } else {
                    0int
                };
                let ex1 = if ops.len() % 4 == 1 {
                    ops[0]
                } else {
                    0int
                };
                with_anchor(st, run_hh(ops, lead, false, ex1, opened(st), samples))
            },
            Operator::HVCurveTo => with_anchor(st, run_hv(ops, 0, true, opened(st), samples)),
            Operator::VHCurveTo => with_anchor(st, run_hv(ops, 0, false, opened(st), samples)),
            Operator::RCurveLine => with_anchor(st, run_curveline(ops, 0, opened(st), samples)),
            Operator::RLineCurve => with_anchor(st, run_linecurve(ops, 0, opened(st), samples)),
            _ => Ok((st, Seq::<(int, int)>::empty())),
        }
    }
}

/// A program as its mathematical content: operators with operand values.
pub open spec fn program_view(s: Seq<(Operator, Vec<i64>)>) -> Seq<(Operator, Seq<int>)> {
    s.map_values(|pr: (Operator, Vec<i64>)| (pr.0, ops_view(pr.1@)))
}

/// Interpret the program's operators from index `k` on.
pub open spec fn run_program(
    prog: Seq<(Operator, Seq<int>)>,
    k: int,
    st: PathState,
    samples: int,
) -> Result<(PathState, Seq<(int, int)>), Defect>
    decreases prog.len() - k,
{
    if k < 0 || k >= prog.len() {
        Ok((st, Seq::<(int, int)>::empty()))
    } else {
        match op_step(prog[k].0, prog[k].1, st, samples) {
            Err(d) => Err(d),
            Ok((st1, out1)) => match run_program(prog, k + 1, st1, samples) {
                Err(d) => Err(d),
                Ok((st2, out2)) => Ok((st2, out1 + out2)),
            },
        }
    }
}

/// The vertices a whole charstring program flattens to, starting at the
/// origin. Fewer than two samples per curve is degenerate and refused up
/// front.
pub open spec fn flatten_spec(prog: Seq<(Operator, Seq<int>)>, samples: int) -> Result<
    Seq<(int, int)>,
    Defect,
> {
    if samples < 2 {
        Err(Defect::Samples)
    } else {
        match run_program(prog, 0, start_state(), samples) {
            Err(d) => Err(d),
            Ok((st, out)) => Ok(out),
        }
    }
}


/// Interpret one alternating-axis line operator, appending the vertices
/// it emits.
fn do_axis_line(
    ops: &Vec<i64>,
    horiz: bool,
    cur: Cursor,
    out: &mut Vec<Point>,
) -> (r: Result<Cursor, Defect>)
    requires
        state_in_range(cursor_view(cur)),
        forall|j: int| 0 <= j < old(out)@.len() ==> point_in_range(#[trigger] old(out)@[j]),
    ensures
        forall|j: int| 0 <= j < final(out)@.len() ==> point_in_range(#[trigger] final(out)@[j]),
        match r {
            Ok(c2) => {
                &&& state_in_range(cursor_view(c2))
                &&& final(out)@.len() >= old(out)@.len()
                &&& final(out)@.subrange(0, old(out)@.len() as int) == old(out)@
                &&& with_anchor(
                    cursor_view(cur),
                    run_axis_line(ops_view(ops@), 0, horiz, opened(cursor_view(cur))),
                ) == Ok::<_, Defect>(
                    (cursor_view(c2), points_view(final(out)@.skip(old(out)@.len() as int))),
                )
            },
            Err(d) => with_anchor(
                cursor_view(cur),
                run_axis_line(ops_view(ops@), 0, horiz, opened(cursor_view(cur))),
            ) == Err::<(PathState, Seq<(int, int)>), Defect>(d),
        },
{
    let ghost st0 = cursor_view(cur);
    let ghost opsv = ops_view(ops@);
    let ghost base0 = out@.len() as int;
    let mut c = cur;
    if c.fresh {
        out.push(Point { x: c.x, y: c.y });
        c = Cursor { x: c.x, y: c.y, control: c.control, fresh: false };
        proof {
            lemma_push_is_concat(old(out)@, Point { x: cur.x, y: cur.y });
            lemma_extend_keeps(old(out)@, seq![Point { x: cur.x, y: cur.y }], base0);
        }
    }
    let ghost base = out@.len() as int;
    let mut h = horiz;
    proof {
        assert(cursor_view(c) == opened(st0));
        assert(points_view(out@.subrange(base0, base)) =~= anchor(st0));
        assert(out@.skip(base) =~= Seq::<Point>::empty());
        assert(points_view(out@.skip(base)) =~= Seq::<(int, int)>::empty());
        match run_axis_line(opsv, 0, horiz, opened(st0)) {
            Ok((stf, rest)) => {
                assert(points_view(out@.skip(base)) + rest =~= rest);
            },
            Err(d) => {},
        }
    }
    let mut k: usize = 0;
    while k < ops.len()
        invariant
            state_in_range(cursor_view(c)),
            k <= ops.len(),
            st0 == cursor_view(cur),
            opsv == ops_view(ops@),
            opsv.len() == ops@.len(),
            c.control == cur.control,
            c.fresh == false,
            base0 == old(out)@.len(),
            0 <= base0 <= base <= out@.len(),
            out@.subrange(0, base0) == old(out)@,
            points_view(out@.subrange(base0, base)) == anchor(st0),
            forall|j: int| 0 <= j < out@.len() ==> point_in_range(#[trigger] out@[j]),
            match run_axis_line(opsv, k as int, h, cursor_view(c)) {
                Ok((stf, rest)) => run_axis_line(opsv, 0, horiz, opened(st0)) == Ok::<
                    _,
                    Defect,
                >((stf, points_view(out@.skip(base)) + rest)),
                Err(d) => run_axis_line(opsv, 0, horiz, opened(st0)) == Err::<
                    (PathState, Seq<(int, int)>),
                    Defect,
                >(d),
            },
        decreases ops.len() - k,
    {
        let axis_cur = if h {
            c.x
        } else {
            c.y
        };
        let nv = match resolve(axis_cur, ops[k], true) {
            Ok(v) => v,
            Err(d) => {
                return Err(d);
            },
        };
        let c1 = if h {
            Cursor { x: nv, y: c.y, control: c.control, fresh: false }
        } else {
            Cursor { x: c.x, y: nv, control: c.control, fresh: false }
        };
        let ghost pre = out@;
        let p = Point { x: c1.x, y: c1.y };
        out.push(p);
        proof {
            lemma_push_is_concat(pre, p);
            lemma_extend_keeps(pre, seq![p], base0);
            lemma_extend_keeps(pre, seq![p], base);
            assert(pre.subrange(base0, base) =~= out@.subrange(base0, base));
            lemma_points_view_concat(pre.skip(base), seq![p]);
            match run_axis_line(opsv, (k + 1) as int, !h, cursor_view(c1)) {
                Ok((stf, rest)) => {
                    lemma_concat_assoc(
                        points_view(pre.skip(base)),
                        seq![(c1.x as int, c1.y as int)],
                        rest,
                    );
                },
                Err(d) => {},
            }
        }
        c = c1;
        h = !h;
        k = k + 1;
    }
    proof {
        lemma_points_view_concat(out@.subrange(base0, base), out@.skip(base));
        assert(out@.skip(base0) =~= out@.subrange(base0, base) + out@.skip(base));
        assert(anchor(st0) + (points_view(out@.skip(base)) + Seq::<(int, int)>::empty())
            =~= points_view(out@.skip(base0)));
        assert(out@.subrange(0, base0) =~= old(out)@);
    }
    Ok(c)
}


/// Interpret one single-axis-tangent curve operator (`HHCurveTo` or,
/// with `horiz` false, `VVCurveTo`), appending every curve sample.
fn do_hh(
    ops: &Vec<i64>,
    horiz: bool,
    cur: Cursor,
    out: &mut Vec<Point>,
    samples: usize,
) -> (r: Result<Cursor, Defect>)
    requires
        state_in_range(cursor_view(cur)),
        2 <= samples <= MAX_SAMPLES,
        forall|j: int| 0 <= j < old(out)@.len() ==> point_in_range(#[trigger] old(out)@[j]),
    ensures
        forall|j: int| 0 <= j < final(out)@.len() ==> point_in_range(#[trigger] final(out)@[j]),
        match r {
            Ok(c2) => {
                &&& state_in_range(cursor_view(c2))
                &&& final(out)@.len() >= old(out)@.len()
                &&& final(out)@.subrange(0, old(out)@.len() as int) == old(out)@
                &&& with_anchor(
                    cursor_view(cur),
                    run_hh(
                        ops_view(ops@),
                        if ops_view(ops@).len() % 4 == 1 { 1int } else { 0int },
                        horiz,
                        if ops_view(ops@).len() % 4 == 1 { ops_view(ops@)[0] } else { 0int },
                        opened(cursor_view(cur)),
                        samples as int,
                    ),
                ) == Ok::<_, Defect>(
                    (cursor_view(c2), points_view(final(out)@.skip(old(out)@.len() as int))),
                )
            },
            Err(d) => with_anchor(
                cursor_view(cur),
                run_hh(
                    ops_view(ops@),
                    if ops_view(ops@).len() % 4 == 1 { 1int } else { 0int },
                    horiz,
                    if ops_view(ops@).len() % 4 == 1 { ops_view(ops@)[0] } else { 0int },
                    opened(cursor_view(cur)),
                    samples as int,
                ),
            ) == Err::<(PathState, Seq<(int, int)>), Defect>(d),
        },
{
    let ghost st0 = cursor_view(cur);
    let ghost opsv = ops_view(ops@);
    let ghost lead: int = if opsv.len() % 4 == 1 { 1 } else { 0 };
    let ghost ex1: int = if opsv.len() % 4 == 1 { opsv[0] } else { 0 };
    let ghost base0 = out@.len() as int;
    let mut c = cur;
    if c.fresh {
        out.push(Point { x: c.x, y: c.y });
        c = Cursor { x: c.x, y: c.y, control: c.control, fresh: false };
        proof {
            lemma_push_is_concat(old(out)@, Point { x: cur.x, y: cur.y });
            lemma_extend_keeps(old(out)@, seq![Point { x: cur.x, y: cur.y }], base0);
        }
    }
    let ghost base = out@.len() as int;
    let mut k: usize = 0;
    let mut ex: i64 = 0;
    if ops.len() % 4 == 1 {
        k = 1;
        ex = ops[0];
    }
    proof {
        assert(cursor_view(c) == opened(st0));
        assert(points_view(out@.subrange(base0, base)) =~= anchor(st0));
        assert(out@.skip(base) =~= Seq::<Point>::empty());
        assert(points_view(out@.skip(base)) =~= Seq::<(int, int)>::empty());
        assert(k as int == lead && ex as int == ex1);
        match run_hh(opsv, lead, horiz, ex1, opened(st0), samples as int) {
            Ok((stf, rest)) => {
                assert(points_view(out@.skip(base)) + rest =~= rest);
            },
            Err(d) => {},
        }
    }
    while ops.len() >= 4 && k <= ops.len() - 4
        invariant
            state_in_range(cursor_view(c)),
            k <= ops.len() + 1,
            2 <= samples <= MAX_SAMPLES,
            st0 == cursor_view(cur),
            opsv == ops_view(ops@),
            opsv.len() == ops@.len(),
            lead == (if opsv.len() % 4 == 1 { 1int } else { 0int }),
            ex1 == (if opsv.len() % 4 == 1 { opsv[0] } else { 0int }),
            c.fresh == false,
            base0 == old(out)@.len(),
            0 <= base0 <= base <= out@.len(),
            out@.subrange(0, base0) == old(out)@,
            points_view(out@.subrange(base0, base)) == anchor(st0),
            forall|j: int| 0 <= j < out@.len() ==> point_in_range(#[trigger] out@[j]),
            match run_hh(opsv, k as int, horiz, ex as int, cursor_view(c), samples as int) {
                Ok((stf, rest)) => run_hh(opsv, lead, horiz, ex1, opened(st0), samples as int)
                    == Ok::<_, Defect>((stf, points_view(out@.skip(base)) + rest)),
                Err(d) => run_hh(opsv, lead, horiz, ex1, opened(st0), samples as int) == Err::<
                    (PathState, Seq<(int, int)>),
                    Defect,
                >(d),
            },
        decreases ops.len() - k,
    {
        let ax = if horiz {
            ops[k]
        } else {
            ex
        };
        let ay = if horiz {
            ex
        } else {
            ops[k]
        };
        let x1 = match resolve(c.x, ax, true) {
            Ok(v) => v,
            Err(d) => {
                return Err(d);
            },
        };
        let y1 = match resolve(c.y, ay, true) {
            Ok(v) => v,
            Err(d) => {
                return Err(d);
            },
        };
        let x2 = match resolve(x1, ops[k + 1], true) {
            Ok(v) => v,
            Err(d) => {
                return Err(d);
            },
        };
        let y2 = match resolve(y1, ops[k + 2], true) {
            Ok(v) => v,
            Err(d) => {
                return Err(d);
            },
        };
        let ea = if horiz {
            ops[k + 3]
        } else {
            0
        };
        let eb = if horiz {
            0
        } else {
            ops[k + 3]
        };
        let nx = match resolve(x2, ea, true) {
            Ok(v) => v,
            Err(d) => {
                return Err(d);
            },
        };
        let ny = match resolve(y2, eb, true) {
            Ok(v) => v,
            Err(d) => {
                return Err(d);
            },
        };
        let ghost pre = out@;
        let mut pts = cubic_points(
            Point { x: c.x, y: c.y },
            Point { x: x1, y: y1 },
            Point { x: x2, y: y2 },
            Point { x: nx, y: ny },
            samples,
        );
        let ghost ptsv = pts@;
        out.append(&mut pts);
        proof {
            lemma_extend_keeps(pre, ptsv, base0);
            lemma_extend_keeps(pre, ptsv, base);
            assert(pre.subrange(base0, base) =~= out@.subrange(base0, base));
            lemma_points_view_concat(pre.skip(base), ptsv);
            match run_hh(opsv, (k + 4) as int, horiz, 0, cursor_view(
                Cursor { x: nx, y: ny, control: c.control, fresh: false },
            ), samples as int) {
                Ok((stf, rest)) => {
                    lemma_concat_assoc(points_view(pre.skip(base)), points_view(ptsv), rest);
                },
                Err(d) => {},
            }
        }
        c = Cursor { x: nx, y: ny, control: c.control, fresh: false };
        ex = 0;
        k = k + 4;
    }
    proof {
        lemma_points_view_concat(out@.subrange(base0, base), out@.skip(base));
        assert(out@.skip(base0) =~= out@.subrange(base0, base) + out@.skip(base));
        assert(anchor(st0) + (points_view(out@.skip(base)) + Seq::<(int, int)>::empty())
            =~= points_view(out@.skip(base0)));
        assert(out@.subrange(0, base0) =~= old(out)@);
    }
    Ok(c)
}

/// Interpret one alternating-tangent curve operator (`HVCurveTo` or,
/// with `horiz` false, `VHCurveTo`), appending every curve sample.
fn do_hv(
    ops: &Vec<i64>,
    horiz: bool,
    cur: Cursor,
    out: &mut Vec<Point>,
    samples: usize,
) -> (r: Result<Cursor, Defect>)
    requires
        state_in_range(cursor_view(cur)),
        2 <= samples <= MAX_SAMPLES,
        forall|j: int| 0 <= j < old(out)@.len() ==> point_in_range(#[trigger] old(out)@[j]),
    ensures
        forall|j: int| 0 <= j < final(out)@.len() ==> point_in_range(#[trigger] final(out)@[j]),
        match r {
            Ok(c2) => {
                &&& state_in_range(cursor_view(c2))
                &&& final(out)@.len() >= old(out)@.len()
                &&& final(out)@.subrange(0, old(out)@.len() as int) == old(out)@
                &&& with_anchor(
                    cursor_view(cur),
                    run_hv(ops_view(ops@), 0, horiz, opened(cursor_view(cur)), samples as int),
                ) == Ok::<_, Defect>(
                    (cursor_view(c2), points_view(final(out)@.skip(old(out)@.len() as int))),
                )
            },
            Err(d) => with_anchor(
                cursor_view(cur),
                run_hv(ops_view(ops@), 0, horiz, opened(cursor_view(cur)), samples as int),
            ) == Err::<(PathState, Seq<(int, int)>), Defect>(d),
        },
{
    let ghost st0 = cursor_view(cur);
    let ghost opsv = ops_view(ops@);
    let ghost base0 = out@.len() as int;
    let mut c = cur;
    if c.fresh {
        out.push(Point { x: c.x, y: c.y });
        c = Cursor { x: c.x, y: c.y, control: c.control, fresh: false };
        proof {
            lemma_push_is_concat(old(out)@, Point { x: cur.x, y: cur.y });
            lemma_extend_keeps(old(out)@, seq![Point { x: cur.x, y: cur.y }], base0);
        }
    }
    let ghost base = out@.len() as int;
    let mut h = horiz;
    proof {
        assert(cursor_view(c) == opened(st0));
        assert(points_view(out@.subrange(base0, base)) =~= anchor(st0));
        assert(out@.skip(base) =~= Seq::<Point>::empty());
        assert(points_view(out@.skip(base)) =~= Seq::<(int, int)>::empty());
        match run_hv(opsv, 0, horiz, opened(st0), samples as int) {
            Ok((stf, rest)) => {
                assert(points_view(out@.skip(base)) + rest =~= rest);
            },
            Err(d) => {},
        }
    }
    let mut k: usize = 0;
    while ops.len() >= 4 && k <= ops.len() - 4
        invariant
            state_in_range(cursor_view(c)),
            k <= ops.len(),
            2 <= samples <= MAX_SAMPLES,
            st0 == cursor_view(cur),
            opsv == ops_view(ops@),
            opsv.len() == ops@.len(),
            c.fresh == false,
            base0 == old(out)@.len(),
            0 <= base0 <= base <= out@.len(),
            out@.subrange(0, base0) == old(out)@,
            points_view(out@.subrange(base0, base)) == anchor(st0),
            forall|j: int| 0 <= j < out@.len() ==> point_in_range(#[trigger] out@[j]),
            match run_hv(opsv, k as int, h, cursor_view(c), samples as int) {
                Ok((stf, rest)) => run_hv(opsv, 0, horiz, opened(st0), samples as int) == Ok::<
                    _,
                    Defect,
                >((stf, points_view(out@.skip(base)) + rest)),
                Err(d) => run_hv(opsv, 0, horiz, opened(st0), samples as int) == Err::<
                    (PathState, Seq<(int, int)>),
                    Defect,
                >(d),
            },
        decreases ops.len() - k,
    {
        let ext = if ops.len() - k == 5 {
            ops[k + 4]
        } else {
            0
        };
        let ax = if h {
            ops[k]
        } else {
            0
        };
        let ay = if h {
            0
        } else {
            ops[k]
        };
        let x1 = match resolve(c.x, ax, true) {
            Ok(v) => v,
            Err(d) => {
                return Err(d);
            },
        };
        let y1 = match resolve(c.y, ay, true) {
            Ok(v) => v,
            Err(d) => {
                return Err(d);
            },
        };
        let x2 = match resolve(x1, ops[k + 1], true) {
            Ok(v) => v,
            Err(d) => {
                return Err(d);
            },
        };
        let y2 = match resolve(y1, ops[k + 2], true) {
            Ok(v) => v,
            Err(d) => {
                return Err(d);
            },
        };
        let ea = if h {
            ext
        } else {
            ops[k + 3]
        };
        let eb = if h {
            ops[k + 3]
        } else {
            ext
        };
        let nx = match resolve(x2, ea, true) {
            Ok(v) => v,
            Err(d) => {
                return Err(d);
            },
        };
        let ny = match resolve(y2, eb, true) {
            Ok(v) => v,
            Err(d) => {
                return Err(d);
            },
        };
        let ghost pre = out@;
        let mut pts = cubic_points(
            Point { x: c.x, y: c.y },
            Point { x: x1, y: y1 },
            Point { x: x2, y: y2 },
            Point { x: nx, y: ny },
            samples,
        );
        let ghost ptsv = pts@;
        out.append(&mut pts);
        proof {
            lemma_extend_keeps(pre, ptsv, base0);
            lemma_extend_keeps(pre, ptsv, base);
            assert(pre.subrange(base0, base) =~= out@.subrange(base0, base));
            lemma_points_view_concat(pre.skip(base), ptsv);
            match run_hv(opsv, (k + 4) as int, !h, cursor_view(
                Cursor { x: nx, y: ny, control: c.control, fresh: false },
            ), samples as int) {
                Ok((stf, rest)) => {
                    lemma_concat_assoc(points_view(pre.skip(base)), points_view(ptsv), rest);
                },
                Err(d) => {},
            }
        }
        c = Cursor { x: nx, y: ny, control: c.control, fresh: false };
        h = !h;
        k = k + 4;
    }
    proof {
        lemma_points_view_concat(out@.subrange(base0, base), out@.skip(base));
        assert(out@.skip(base0) =~= out@.subrange(base0, base) + out@.skip(base));
        assert(anchor(st0) + (points_view(out@.skip(base)) + Seq::<(int, int)>::empty())
            =~= points_view(out@.skip(base0)));
        assert(out@.subrange(0, base0) =~= old(out)@);
    }
    Ok(c)
}


/// Interpret one `RRCurveTo` operator, appending every curve sample.
fn do_rcurve(
    ops: &Vec<i64>,
    cur: Cursor,
    out: &mut Vec<Point>,
    samples: usize,
) -> (r: Result<Cursor, Defect>)
    requires
        state_in_range(cursor_view(cur)),
        2 <= samples <= MAX_SAMPLES,
        forall|j: int| 0 <= j < old(out)@.len() ==> point_in_range(#[trigger] old(out)@[j]),
    ensures
        forall|j: int| 0 <= j < final(out)@.len() ==> point_in_range(#[trigger] final(out)@[j]),
        match r {
            Ok(c2) => {
                &&& state_in_range(cursor_view(c2))
                &&& final(out)@.len() >= old(out)@.len()
                &&& final(out)@.subrange(0, old(out)@.len() as int) == old(out)@
                &&& with_anchor(
                    cursor_view(cur),
                    run_rcurve(ops_view(ops@), 0, opened(cursor_view(cur)), samples as int),
                ) == Ok::<_, Defect>(
                    (cursor_view(c2), points_view(final(out)@.skip(old(out)@.len() as int))),
                )
            },
            Err(d) => with_anchor(
                cursor_view(cur),
                run_rcurve(ops_view(ops@), 0, opened(cursor_view(cur)), samples as int),
            ) == Err::<(PathState, Seq<(int, int)>), Defect>(d),
        },
{
    let ghost st0 = cursor_view(cur);
    let ghost opsv = ops_view(ops@);
    let ghost base0 = out@.len() as int;
    let mut c = cur;
    if c.fresh {
        out.push(Point { x: c.x, y: c.y });
        c = Cursor { x: c.x, y: c.y, control: c.control, fresh: false };
        proof {
            lemma_push_is_concat(old(out)@, Point { x: cur.x, y: cur.y });
            lemma_extend_keeps(old(out)@, seq![Point { x: cur.x, y: cur.y }], base0);
        }
    }
    let ghost base = out@.len() as int;
    proof {
        assert(cursor_view(c) == opened(st0));
        assert(points_view(out@.subrange(base0, base)) =~= anchor(st0));
        assert(out@.skip(base) =~= Seq::<Point>::empty());
        assert(points_view(out@.skip(base)) =~= Seq::<(int, int)>::empty());
        match run_rcurve(opsv, 0, opened(st0), samples as int) {
            Ok((stf, rest)) => {
                assert(points_view(out@.skip(base)) + rest =~= rest);
            },
            Err(d) => {},
        }
    }
    let mut k: usize = 0;
    while ops.len() >= 6 && k <= ops.len() - 6
        invariant
            state_in_range(cursor_view(c)),
            k <= ops.len(),
            2 <= samples <= MAX_SAMPLES,
            st0 == cursor_view(cur),
            opsv == ops_view(ops@),
            opsv.len() == ops@.len(),
            c.fresh == false,
            base0 == old(out)@.len(),
            0 <= base0 <= base <= out@.len(),
            out@.subrange(0, base0) == old(out)@,
            points_view(out@.subrange(base0, base)) == anchor(st0),
            forall|j: int| 0 <= j < out@.len() ==> point_in_range(#[trigger] out@[j]),
            match run_rcurve(opsv, k as int, cursor_view(c), samples as int) {
                Ok((stf, rest)) => run_rcurve(opsv, 0, opened(st0), samples as int) == Ok::<
                    _,
                    Defect,
                >((stf, points_view(out@.skip(base)) + rest)),
                Err(d) => run_rcurve(opsv, 0, opened(st0), samples as int) == Err::<
                    (PathState, Seq<(int, int)>),
                    Defect,
                >(d),
            },
        decreases ops.len() - k,
    {
        let x1 = match resolve(c.x, ops[k], true) {
            Ok(v) => v,
            Err(d) => {
                return Err(d);
            },
        };
        let y1 = match resolve(c.y, ops[k + 1], true) {
            Ok(v) => v,
            Err(d) => {
                return Err(d);
            },
        };
        let x2 = match resolve(x1, ops[k + 2], true) {
            Ok(v) => v,
            Err(d) => {
                return Err(d);
            },
        };
        let y2 = match resolve(y1, ops[k + 3], true) {
            Ok(v) => v,
            Err(d) => {
                return Err(d);
            },
        };
        let nx = match resolve(x2, ops[k + 4], true) {
            Ok(v) => v,
            Err(d) => {
                return Err(d);
            },
        };
        let ny = match resolve(y2, ops[k + 5], true) {
            Ok(v) => v,
            Err(d) => {
                return Err(d);
            },
        };
        let ghost pre = out@;
        let mut pts = cubic_points(
            Point { x: c.x, y: c.y },
            Point { x: x1, y: y1 },
            Point { x: x2, y: y2 },
            Point { x: nx, y: ny },
            samples,
        );
        let ghost ptsv = pts@;
        out.append(&mut pts);
        proof {
            lemma_extend_keeps(pre, ptsv, base0);
            lemma_extend_keeps(pre, ptsv, base);
            assert(pre.subrange(base0, base) =~= out@.subrange(base0, base));
            lemma_points_view_concat(pre.skip(base), ptsv);
            match run_rcurve(opsv, (k + 6) as int, cursor_view(
                Cursor { x: nx, y: ny, control: c.control, fresh: false },
            ), samples as int) {
                Ok((stf, rest)) => {
                    lemma_concat_assoc(points_view(pre.skip(base)), points_view(ptsv), rest);
                },
                Err(d) => {},
            }
        }
        c = Cursor { x: nx, y: ny, control: c.control, fresh: false };
        k = k + 6;
    }
    proof {
        lemma_points_view_concat(out@.subrange(base0, base), out@.skip(base));
        assert(out@.skip(base0) =~= out@.subrange(base0, base) + out@.skip(base));
        assert(anchor(st0) + (points_view(out@.skip(base)) + Seq::<(int, int)>::empty())
            =~= points_view(out@.skip(base0)));
        assert(out@.subrange(0, base0) =~= old(out)@);
    }
    Ok(c)
}

/// Interpret one `RCurveLine` operator: curve groups, then one line.
fn do_curveline(
    ops: &Vec<i64>,
    cur: Cursor,
    out: &mut Vec<Point>,
    samples: usize,
) -> (r: Result<Cursor, Defect>)
    requires
        state_in_range(cursor_view(cur)),
        2 <= samples <= MAX_SAMPLES,
        forall|j: int| 0 <= j < old(out)@.len() ==> point_in_range(#[trigger] old(out)@[j]),
    ensures
        forall|j: int| 0 <= j < final(out)@.len() ==> point_in_range(#[trigger] final(out)@[j]),
        match r {
            Ok(c2) => {
                &&& state_in_range(cursor_view(c2))
                &&& final(out)@.len() >= old(out)@.len()
                &&& final(out)@.subrange(0, old(out)@.len() as int) == old(out)@
                &&& with_anchor(
                    cursor_view(cur),
                    run_curveline(ops_view(ops@), 0, opened(cursor_view(cur)), samples as int),
                ) == Ok::<_, Defect>(
                    (cursor_view(c2), points_view(final(out)@.skip(old(out)@.len() as int))),
                )
            },
            Err(d) => with_anchor(
                cursor_view(cur),
                run_curveline(ops_view(ops@), 0, opened(cursor_view(cur)), samples as int),
            ) == Err::<(PathState, Seq<(int, int)>), Defect>(d),
        },
{
    let ghost st0 = cursor_view(cur);
    let ghost opsv = ops_view(ops@);
    let ghost base0 = out@.len() as int;
    let mut c = cur;
    if c.fresh {
        out.push(Point { x: c.x, y: c.y });
        c = Cursor { x: c.x, y: c.y, control: c.control, fresh: false };
        proof {
            lemma_push_is_concat(old(out)@, Point { x: cur.x, y: cur.y });
            lemma_extend_keeps(old(out)@, seq![Point { x: cur.x, y: cur.y }], base0);
        }
    }
    let ghost base = out@.len() as int;
    proof {
        assert(cursor_view(c) == opened(st0));
        assert(points_view(out@.subrange(base0, base)) =~= anchor(st0));
        assert(out@.skip(base) =~= Seq::<Point>::empty());
        assert(points_view(out@.skip(base)) =~= Seq::<(int, int)>::empty());
        match run_curveline(opsv, 0, opened(st0), samples as int) {
            Ok((stf, rest)) => {
                assert(points_view(out@.skip(base)) + rest =~= rest);
            },
            Err(d) => {},
        }
    }
    let mut k: usize = 0;
    while ops.len() >= 8 && k <= ops.len() - 8
        invariant
            state_in_range(cursor_view(c)),
            k <= ops.len(),
            2 <= samples <= MAX_SAMPLES,
            st0 == cursor_view(cur),
            opsv == ops_view(ops@),
            opsv.len() == ops@.len(),
            c.fresh == false,
            base0 == old(out)@.len(),
            0 <= base0 <= base <= out@.len(),
            out@.subrange(0, base0) == old(out)@,
            points_view(out@.subrange(base0, base)) == anchor(st0),
            forall|j: int| 0 <= j < out@.len() ==> point_in_range(#[trigger] out@[j]),
            match run_curveline(opsv, k as int, cursor_view(c), samples as int) {
                Ok((stf, rest)) => run_curveline(opsv, 0, opened(st0), samples as int) == Ok::<
                    _,
                    Defect,
                >((stf, points_view(out@.skip(base)) + rest)),
                Err(d) => run_curveline(opsv, 0, opened(st0), samples as int) == Err::<
                    (PathState, Seq<(int, int)>),
                    Defect,
                >(d),
            },
        decreases ops.len() - k,
    {
        let x1 = match resolve(c.x, ops[k], true) {
            Ok(v) => v,
            Err(d) => {
                return Err(d);
            },
        };
        let y1 = match resolve(c.y, ops[k + 1], true) {
            Ok(v) => v,
            Err(d) => {
                return Err(d);
            },
        };
        let x2 = match resolve(x1, ops[k + 2], true) {
            Ok(v) => v,
            Err(d) => {
                return Err(d);
            },
        };
        let y2 = match resolve(y1, ops[k + 3], true) {
            Ok(v) => v,
            Err(d) => {
                return Err(d);
            },
        };
        let nx = match resolve(x2, ops[k + 4], true) {
            Ok(v) => v,
            Err(d) => {
                return Err(d);
            },
        };
        let ny = match resolve(y2, ops[k + 5], true) {
            Ok(v) => v,
            Err(d) => {
                return Err(d);
            },
        };
        let ghost pre = out@;
        let mut pts = cubic_points(
            Point { x: c.x, y: c.y },
            Point { x: x1, y: y1 },
            Point { x: x2, y: y2 },
            Point { x: nx, y: ny },
            samples,
        );
        let ghost ptsv = pts@;
        out.append(&mut pts);
        proof {
            lemma_extend_keeps(pre, ptsv, base0);
            lemma_extend_keeps(pre, ptsv, base);
            assert(pre.subrange(base0, base) =~= out@.subrange(base0, base));
            lemma_points_view_concat(pre.skip(base), ptsv);
            match run_curveline(opsv, (k + 6) as int, cursor_view(
                Cursor { x: nx, y: ny, control: c.control, fresh: false },
            ), samples as int) {
                Ok((stf, rest)) => {
                    lemma_concat_assoc(points_view(pre.skip(base)), points_view(ptsv), rest);
                },
                Err(d) => {},
            }
        }
        c = Cursor { x: nx, y: ny, control: c.control, fresh: false };
        k = k + 6;
    }
    if ops.len() >= 2 && k <= ops.len() - 2 {
        let nx = match resolve(c.x, ops[k], true) {
            Ok(v) => v,
            Err(d) => {
                return Err(d);
            },
        };
        let ny = match resolve(c.y, ops[k + 1], true) {
            Ok(v) => v,
            Err(d) => {
                return Err(d);
            },
        };
        let ghost pre = out@;
        let p = Point { x: nx, y: ny };
        out.push(p);
        proof {
            lemma_push_is_concat(pre, p);
            lemma_extend_keeps(pre, seq![p], base0);
            lemma_extend_keeps(pre, seq![p], base);
            assert(pre.subrange(base0, base) =~= out@.subrange(base0, base));
            lemma_points_view_concat(pre.skip(base), seq![p]);
        }
        c = Cursor { x: nx, y: ny, control: c.control, fresh: false };
    }
    proof {
        lemma_points_view_concat(out@.subrange(base0, base), out@.skip(base));
        assert(out@.skip(base0) =~= out@.subrange(base0, base) + out@.skip(base));
        match run_curveline(opsv, 0, opened(st0), samples as int) {
            Ok((stf, rest)) => {
                assert(anchor(st0) + (points_view(out@.skip(base))) =~= points_view(
                    out@.skip(base0),
                ));
                assert(points_view(out@.skip(base)) + Seq::<(int, int)>::empty() =~= points_view(
                    out@.skip(base),
                ));
            },
            Err(d) => {},
        }
        assert(out@.subrange(0, base0) =~= old(out)@);
    }
    Ok(c)
}


/// Interpret one `RLineCurve` operator: line pairs, then one curve.
#[verifier::rlimit(50)]
fn do_linecurve(
    ops: &Vec<i64>,
    cur: Cursor,
    out: &mut Vec<Point>,
    samples: usize,
) -> (r: Result<Cursor, Defect>)
    requires
        state_in_range(cursor_view(cur)),
        2 <= samples <= MAX_SAMPLES,
        forall|j: int| 0 <= j < old(out)@.len() ==> point_in_range(#[trigger] old(out)@[j]),
    ensures
        forall|j: int| 0 <= j < final(out)@.len() ==> point_in_range(#[trigger] final(out)@[j]),
        match r {
            Ok(c2) => {
                &&& state_in_range(cursor_view(c2))
                &&& final(out)@.len() >= old(out)@.len()
                &&& final(out)@.subrange(0, old(out)@.len() as int) == old(out)@
                &&& with_anchor(
                    cursor_view(cur),
                    run_linecurve(ops_view(ops@), 0, opened(cursor_view(cur)), samples as int),
                ) == Ok::<_, Defect>(
                    (cursor_view(c2), points_view(final(out)@.skip(old(out)@.len() as int))),
                )
            },
            Err(d) => with_anchor(
                cursor_view(cur),
                run_linecurve(ops_view(ops@), 0, opened(cursor_view(cur)), samples as int),
            ) == Err::<(PathState, Seq<(int, int)>), Defect>(d),
        },
{
    let ghost st0 = cursor_view(cur);
    let ghost opsv = ops_view(ops@);
    let ghost base0 = out@.len() as int;
    let mut c = cur;
    if c.fresh {
        out.push(Point { x: c.x, y: c.y });
        c = Cursor { x: c.x, y: c.y, control: c.control, fresh: false };
        proof {
            lemma_push_is_concat(old(out)@, Point { x: cur.x, y: cur.y });
            lemma_extend_keeps(old(out)@, seq![Point { x: cur.x, y: cur.y }], base0);
        }
    }
    let ghost base = out@.len() as int;
    proof {
        assert(cursor_view(c) == opened(st0));
        assert(points_view(out@.subrange(base0, base)) =~= anchor(st0));
        assert(out@.skip(base) =~= Seq::<Point>::empty());
        assert(points_view(out@.skip(base)) =~= Seq::<(int, int)>::empty());
        match run_linecurve(opsv, 0, opened(st0), samples as int) {
            Ok((stf, rest)) => {
                assert(points_view(out@.skip(base)) + rest =~= rest);
            },
            Err(d) => {},
        }
    }
    let mut k: usize = 0;
    while ops.len() >= 8 && k <= ops.len() - 8
        invariant
            state_in_range(cursor_view(c)),
            k <= ops.len(),
            2 <= samples <= MAX_SAMPLES,
            st0 == cursor_view(cur),
            opsv == ops_view(ops@),
            opsv.len() == ops@.len(),
            c.fresh == false,
            base0 == old(out)@.len(),
            0 <= base0 <= base <= out@.len(),
            out@.subrange(0, base0) == old(out)@,
            points_view(out@.subrange(base0, base)) == anchor(st0),
            forall|j: int| 0 <= j < out@.len() ==> point_in_range(#[trigger] out@[j]),
            match run_linecurve(opsv, k as int, cursor_view(c), samples as int) {
                Ok((stf, rest)) => run_linecurve(opsv, 0, opened(st0), samples as int) == Ok::<
                    _,
                    Defect,
                >((stf, points_view(out@.skip(base)) + rest)),
                Err(d) => run_linecurve(opsv, 0, opened(st0), samples as int) == Err::<
                    (PathState, Seq<(int, int)>),
                    Defect,
                >(d),
            },
        decreases ops.len() - k,
    {
        let nx = match resolve(c.x, ops[k], true) {
            Ok(v) => v,
            Err(d) => {
                return Err(d);
            },
        };
        let ny = match resolve(c.y, ops[k + 1], true) {
            Ok(v) => v,
            Err(d) => {
                return Err(d);
            },
        };
        let ghost pre = out@;
        let p = Point { x: nx, y: ny };
        out.push(p);
        proof {
            lemma_push_is_concat(pre, p);
            lemma_extend_keeps(pre, seq![p], base0);
            lemma_extend_keeps(pre, seq![p], base);
            assert(pre.subrange(base0, base) =~= out@.subrange(base0, base));
            lemma_points_view_concat(pre.skip(base), seq![p]);
            match run_linecurve(opsv, (k + 2) as int, cursor_view(
                Cursor { x: nx, y: ny, control: c.control, fresh: false },
            ), samples as int) {
                Ok((stf, rest)) => {
                    lemma_concat_assoc(
                        points_view(pre.skip(base)),
                        seq![(nx as int, ny as int)],
                        rest,
                    );
                },
                Err(d) => {},
            }
        }
        c = Cursor { x: nx, y: ny, control: c.control, fresh: false };
        k = k + 2;
    }
    if ops.len() >= 6 && k <= ops.len() - 6 {
        let x1 = match resolve(c.x, ops[k], true) {
            Ok(v) => v,
            Err(d) => {
                return Err(d);
            },
        };
        let y1 = match resolve(c.y, ops[k + 1], true) {
            Ok(v) => v,
            Err(d) => {
                return Err(d);
            },
        };
        let x2 = match resolve(x1, ops[k + 2], true) {
            Ok(v) => v,
            Err(d) => {
                return Err(d);
            },
        };
        let y2 = match resolve(y1, ops[k + 3], true) {
            Ok(v) => v,
            Err(d) => {
                return Err(d);
            },
        };
        let nx = match resolve(x2, ops[k + 4], true) {
            Ok(v) => v,
            Err(d) => {
                return Err(d);
            },
        };
        let ny = match resolve(y2, ops[k + 5], true) {
            Ok(v) => v,
            Err(d) => {
                return Err(d);
            },
        };
        let ghost pre = out@;
        let mut pts = cubic_points(
            Point { x: c.x, y: c.y },
            Point { x: x1, y: y1 },
            Point { x: x2, y: y2 },
            Point { x: nx, y: ny },
            samples,
        );
        let ghost ptsv = pts@;
        out.append(&mut pts);
        proof {
            lemma_extend_keeps(pre, ptsv, base0);
            lemma_extend_keeps(pre, ptsv, base);
            assert(pre.subrange(base0, base) =~= out@.subrange(base0, base));
            lemma_points_view_concat(pre.skip(base), ptsv);
        }
        c = Cursor { x: nx, y: ny, control: c.control, fresh: false };
    }
    proof {
        lemma_points_view_concat(out@.subrange(base0, base), out@.skip(base));
        assert(out@.skip(base0) =~= out@.subrange(base0, base) + out@.skip(base));
        match run_linecurve(opsv, 0, opened(st0), samples as int) {
            Ok((stf, rest)) => {
                assert(anchor(st0) + (points_view(out@.skip(base))) =~= points_view(
                    out@.skip(base0),
                ));
                assert(points_view(out@.skip(base)) + Seq::<(int, int)>::empty() =~= points_view(
                    out@.skip(base),
                ));
            },
            Err(d) => {},
        }
        assert(out@.subrange(0, base0) =~= old(out)@);
    }
    Ok(c)
}


/// Flatten a whole charstring program into vertices, starting at the
/// origin. The result is exactly what the mathematical interpretation of
/// the program prescribes: `Ok` with every emitted vertex in order, or
/// the first defect — a bad operand count among them — the program runs
/// into.
#[verifier::rlimit(100)]
pub fn flatten(prog: &Vec<(Operator, Vec<i64>)>, samples: usize) -> (r: Result<Vec<Point>, Defect>)
    requires
        samples <= MAX_SAMPLES,
    ensures
        match r {
            Ok(v) => flatten_spec(program_view(prog@), samples as int) == Ok::<_, Defect>(
                points_view(v@),
            ) && (forall|j: int| 0 <= j < v@.len() ==> point_in_range(#[trigger] v@[j])),
            Err(d) => flatten_spec(program_view(prog@), samples as int) == Err::<
                Seq<(int, int)>,
                Defect,
            >(d),
        },
{
    let ghost pv = program_view(prog@);
    if samples < 2 {
        return Err(Defect::Samples);
    }
    let mut out: Vec<Point> = Vec::new();
    let mut c = Cursor { x: 0, y: 0, control: None, fresh: true };
    proof {
        assert(cursor_view(c) == start_state());
        assert(out@.skip(0) =~= out@);
        match run_program(pv, 0, start_state(), samples as int) {
            Ok((stf, rest)) => {
                assert(points_view(out@) + rest =~= rest);
            },
            Err(d) => {},
        }
    }
    let mut i: usize = 0;
    while i < prog.len()
        invariant
            i <= prog.len(),
            2 <= samples <= MAX_SAMPLES,
            pv == program_view(prog@),
            pv.len() == prog@.len(),
            state_in_range(cursor_view(c)),
            forall|j: int| 0 <= j < out@.len() ==> point_in_range(#[trigger] out@[j]),
            match run_program(pv, i as int, cursor_view(c), samples as int) {
                Ok((stf, rest)) => run_program(pv, 0, start_state(), samples as int) == Ok::<
                    _,
                    Defect,
                >((stf, points_view(out@) + rest)),
                Err(d) => run_program(pv, 0, start_state(), samples as int) == Err::<
                    (PathState, Seq<(int, int)>),
                    Defect,
                >(d),
            },
        decreases prog.len() - i,
    {
        let ghost pre = out@;
        let ghost stp = cursor_view(c);
        let pr = &prog[i];
        let op = pr.0;
        let ops = &pr.1;
        proof {
            assert(pv[i as int] == (op, ops_view(ops@)));
        }
        if !arity(op, ops.len()) {
            proof {
                assert(op_step(op, ops_view(ops@), stp, samples as int) == Err::<
                    (PathState, Seq<(int, int)>),
                    Defect,
                >(Defect::Arity));
            }
            return Err(Defect::Arity);
        }
        let step = match op {
            Operator::RMoveTo => do_move(ops, true, c, Ghost(samples as int)),
            Operator::HMoveTo => {
                match resolve(c.x, ops[0], true) {
                    Ok(nv) => Ok(Cursor { x: nv, y: c.y, control: c.control, fresh: true }),
                    Err(d) => Err(d),
                }
            },
            Operator::VMoveTo => {
                match resolve(c.y, ops[0], true) {
                    Ok(nv) => Ok(Cursor { x: c.x, y: nv, control: c.control, fresh: true }),
                    Err(d) => Err(d),
                }
            },
            Operator::RLineTo => do_line(ops, true, c, &mut out, Ghost(samples as int)),
            Operator::HLineTo => do_axis_line(ops, true, c, &mut out),
            Operator::VLineTo => do_axis_line(ops, false, c, &mut out),
            Operator::RRCurveTo => do_rcurve(ops, c, &mut out, samples),
            Operator::HHCurveTo => do_hh(ops, true, c, &mut out, samples),
            Operator::VVCurveTo => do_hh(ops, false, c, &mut out, samples),
            Operator::HVCurveTo => do_hv(ops, true, c, &mut out, samples),
            Operator::VHCurveTo => do_hv(ops, false, c, &mut out, samples),
            Operator::RCurveLine => do_curveline(ops, c, &mut out, samples),
            Operator::RLineCurve => do_linecurve(ops, c, &mut out, samples),
            Operator::HStem => Ok(c),
            Operator::VStem => Ok(c),
            Operator::HStemHM => Ok(c),
            Operator::VStemHM => Ok(c),
            Operator::HintMask => Ok(c),
            Operator::CntrMask => Ok(c),
        };
        c = match step {
            Ok(c2) => c2,
            Err(d) => {
                proof {
                    assert(op_step(op, ops_view(ops@), stp, samples as int) == Err::<
                        (PathState, Seq<(int, int)>),
                        Defect,
                    >(d));
                }
                return Err(d);
            },
        };
        proof {
            let emitted = points_view(out@.skip(pre.len() as int));
            assert(op_step(op, ops_view(ops@), stp, samples as int) == Ok::<_, Defect>(
                (cursor_view(c), emitted),
            )) by {
                match op {
                    Operator::RMoveTo | Operator::HMoveTo | Operator::VMoveTo | Operator::HStem
                        | Operator::VStem | Operator::HStemHM | Operator::VStemHM
                        | Operator::HintMask | Operator::CntrMask => {
                        assert(out@.skip(pre.len() as int) =~= Seq::<Point>::empty());
                        assert(emitted =~= Seq::<(int, int)>::empty());
                    },
                    _ => {},
                }
            }
            assert(points_view(out@) =~= points_view(pre) + emitted) by {
                assert(out@.subrange(0, pre.len() as int) =~= pre);
                assert(out@ =~= out@.subrange(0, pre.len() as int) + out@.skip(pre.len() as int));
                lemma_points_view_concat(out@.subrange(0, pre.len() as int), out@.skip(
                    pre.len() as int,
                ));
            }
            match run_program(pv, (i + 1) as int, cursor_view(c), samples as int) {
                Ok((stf, rest)) => {
                    lemma_concat_assoc(points_view(pre), emitted, rest);
                },
                Err(d) => {},
            }
        }
        i = i + 1;
    }
    proof {
        assert(points_view(out@) + Seq::<(int, int)>::empty() =~= points_view(out@));
    }
    Ok(out)
}

} // verus!
