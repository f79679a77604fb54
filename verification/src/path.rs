//! The path command interpreter: walks a sequence of SVG-style drawing
//! commands, tracks the cursor and the last explicit control point, and
//! flattens every segment into vertices.
//!
//! The interpreter starts at the origin with no control point on record.
//! A move updates the cursor and marks the start of a new subpath; the
//! next drawing command then first emits the cursor as the subpath's
//! anchor vertex. Lines emit their endpoints; curves emit every sample the
//! curve evaluator produces, including the one at the cursor. A smooth
//! curve reflects the previously recorded control point about the cursor
//! and fails if none was ever recorded. Operand lists are consumed in
//! fixed-size groups; a trailing partial group is ignored.

use vstd::prelude::*;

use crate::curve::{
    cubic_chain, cubic_points, lemma_concat_assoc, lemma_extend_keeps, lemma_points_view_concat,
    lemma_push_is_concat, points_view, MAX_SAMPLES,
};
use crate::geometry::{coord_in_range, point_in_range, spec_reflect, Point, COORD_LIMIT};
use crate::outcome::Defect;

verus! {

/// Whether a command's coordinates are taken as they stand or are offsets
/// from the cursor.
#[derive(Clone, Copy, Debug, PartialEq, Eq, Structural)]
pub enum Positioning {
    Absolute,
    Relative,
}

/// A path drawing command with its flat operand list.
#[derive(Debug)]
pub enum Command {
    MoveTo(Positioning, Vec<i64>),
    LineTo(Positioning, Vec<i64>),
    CurveTo(Positioning, Vec<i64>),
    SmoothCurveTo(Positioning, Vec<i64>),
    ClosePath,
}

/// A command as its mathematical content: relative flag and operands.
pub ghost enum CommandModel {
    Move(bool, Seq<int>),
    Line(bool, Seq<int>),
    Curve(bool, Seq<int>),
    Smooth(bool, Seq<int>),
    Close,
}

/// The interpreter state: cursor, recorded control point, and whether the
/// next drawing command opens a new subpath.
pub ghost struct PathState {
    pub x: int,
    pub y: int,
    pub control: Option<(int, int)>,
    pub fresh: bool,
}

/// An operand list as a sequence of mathematical integers.
pub open spec fn ops_view(s: Seq<i64>) -> Seq<int> {
    s.map_values(|o: i64| o as int)
}

/// A command as its model.
pub open spec fn command_view(c: Command) -> CommandModel {
    match c {
        Command::MoveTo(p, v) => CommandModel::Move(p is Relative, ops_view(v@)),
        Command::LineTo(p, v) => CommandModel::Line(p is Relative, ops_view(v@)),
        Command::CurveTo(p, v) => CommandModel::Curve(p is Relative, ops_view(v@)),
        Command::SmoothCurveTo(p, v) => CommandModel::Smooth(p is Relative, ops_view(v@)),
        Command::ClosePath => CommandModel::Close,
    }
}

/// A command list as its model.
pub open spec fn commands_view(s: Seq<Command>) -> Seq<CommandModel> {
    s.map_values(|c: Command| command_view(c))
}

/// The state every path starts in: the origin, nothing to reflect, and a
/// subpath about to open.
pub open spec fn start_state() -> PathState {
    PathState { x: 0, y: 0, control: None, fresh: true }
}

/// Whether the cursor and any recorded control point are representable.
pub open spec fn state_in_range(st: PathState) -> bool {
    &&& coord_in_range(st.x)
    &&& coord_in_range(st.y)
    &&& match st.control {
        Some(c) => coord_in_range(c.0) && coord_in_range(c.1),
        None => true,
    }
}

/// Resolve one operand against the cursor coordinate: absolute operands
/// stand for themselves, relative ones are offsets. An operand or a
/// result outside the representable range is a `Range` defect.
pub open spec fn resolve_coord(cur: int, op: int, relative: bool) -> Result<int, Defect> {
    if !coord_in_range(op) {
        Err(Defect::Range)
    } else {
        let v = if relative {
            cur + op
        } else {
            op
        };
        if !coord_in_range(v) {
            Err(Defect::Range)
        } else {
            Ok(v)
        }
    }
}

/// The anchor vertex a drawing command emits when it opens a subpath.
pub open spec fn anchor(st: PathState) -> Seq<(int, int)> {
    if st.fresh {
        seq![(st.x, st.y)]
    } else {
        Seq::<(int, int)>::empty()
    }
}

/// The same state with the subpath marked open.
pub open spec fn opened(st: PathState) -> PathState {
    PathState { x: st.x, y: st.y, control: st.control, fresh: false }
}

/// Consume move operand pairs from index `k` on, updating the cursor.
pub open spec fn run_move(ops: Seq<int>, k: int, relative: bool, st: PathState) -> Result<
    PathState,
    Defect,
>
    decreases ops.len() - k,
{
    if k < 0 || k + 2 > ops.len() {
        Ok(st)
    } else {
        match resolve_coord(st.x, ops[k], relative) {
            Err(d) => Err(d),
            Ok(nx) => match resolve_coord(st.y, ops[k + 1], relative) {
                Err(d) => Err(d),
                Ok(ny) => run_move(
                    ops,
                    k + 2,
                    relative,
                    PathState { x: nx, y: ny, control: st.control, fresh: st.fresh },
                ),
            },
        }
    }
}

/// Consume line operand pairs from index `k` on, emitting each endpoint.
pub open spec fn run_line(ops: Seq<int>, k: int, relative: bool, st: PathState) -> Result<
    (PathState, Seq<(int, int)>),
    Defect,
>
    decreases ops.len() - k,
{
    if k < 0 || k + 2 > ops.len() {
        Ok((st, Seq::<(int, int)>::empty()))
    } else {
        match resolve_coord(st.x, ops[k], relative) {
            Err(d) => Err(d),
            Ok(nx) => match resolve_coord(st.y, ops[k + 1], relative) {
                Err(d) => Err(d),
                Ok(ny) => match run_line(
                    ops,
                    k + 2,
                    relative,
                    PathState { x: nx, y: ny, control: st.control, fresh: st.fresh },
                ) {
                    Err(d) => Err(d),
                    Ok((st2, out)) => Ok((st2, seq![(nx, ny)] + out)),
                },
            },
        }
    }
}

/// Consume cubic curve operand six-tuples from index `k` on: two control
/// points and an endpoint each, sampled by the curve evaluator. The
/// second control point is recorded for smooth curves.
pub open spec fn run_curve(ops: Seq<int>, k: int, relative: bool, st: PathState, samples: int)
    -> Result<(PathState, Seq<(int, int)>), Defect>
    decreases ops.len() - k,
{
    if k < 0 || k + 6 > ops.len() {
        Ok((st, Seq::<(int, int)>::empty()))
    } else {
        match resolve_coord(st.x, ops[k], relative) {
            Err(d) => Err(d),
            Ok(x1) => match resolve_coord(st.y, ops[k + 1], relative) {
                Err(d) => Err(d),
                Ok(y1) => match resolve_coord(st.x, ops[k + 2], relative) {
                    Err(d) => Err(d),
                    Ok(x2) => match resolve_coord(st.y, ops[k + 3], relative) {
                        Err(d) => Err(d),
                        Ok(y2) => match resolve_coord(st.x, ops[k + 4], relative) {
                            Err(d) => Err(d),
                            Ok(ex) => match resolve_coord(st.y, ops[k + 5], relative) {
                                Err(d) => Err(d),
                                Ok(ey) => {
                                    let pts = cubic_chain(
                                        (st.x, st.y),
                                        (x1, y1),
                                        (x2, y2),
                                        (ex, ey),
                                        samples,
                                    );
                                    match run_curve(
                                        ops,
                                        k + 6,
                                        relative,
                                        PathState {
                                            x: ex,
                                            y: ey,
                                            control: Some((x2, y2)),
                                            fresh: st.fresh,
                                        },
                                        samples,
                                    ) {
                                        Err(d) => Err(d),
                                        Ok((st2, out)) => Ok((st2, pts + out)),
                                    }
                                },
                            },
                        },
                    },
                },
            },
        }
    }
}

/// Consume smooth curve operand four-tuples from index `k` on. The first
/// control point is the recorded one reflected about the cursor; with
/// none recorded the command is a `Reflection` defect.
pub open spec fn run_smooth(ops: Seq<int>, k: int, relative: bool, st: PathState, samples: int)
    -> Result<(PathState, Seq<(int, int)>), Defect>
    decreases ops.len() - k,
{
    if k < 0 || k + 4 > ops.len() {
        Ok((st, Seq::<(int, int)>::empty()))
    } else {
        match st.control {
            None => Err(Defect::Reflection),
            Some(pc) => {
                let rx = spec_reflect(st.x, pc.0);
                let ry = spec_reflect(st.y, pc.1);
                if !coord_in_range(rx) || !coord_in_range(ry) {
                    Err(Defect::Range)
                } else {
                    match resolve_coord(st.x, ops[k], relative) {
                        Err(d) => Err(d),
                        Ok(x2) => match resolve_coord(st.y, ops[k + 1], relative) {
                            Err(d) => Err(d),
                            Ok(y2) => match resolve_coord(st.x, ops[k + 2], relative) {
                                Err(d) => Err(d),
                                Ok(ex) => match resolve_coord(st.y, ops[k + 3], relative) {
                                    Err(d) => Err(d),
                                    Ok(ey) => {
                                        let pts = cubic_chain(
                                            (st.x, st.y),
                                            (rx, ry),
                                            (x2, y2),
                                            (ex, ey),
                                            samples,
                                        );
                                        match run_smooth(
                                            ops,
                                            k + 4,
                                            relative,
                                            PathState {
                                                x: ex,
                                                y: ey,
                                                control: Some((x2, y2)),
                                                fresh: st.fresh,
                                            },
                                            samples,
                                        ) {
                                            Err(d) => Err(d),
                                            Ok((st2, out)) => Ok((st2, pts + out)),
                                        }
                                    },
                                },
                            },
                        },
                    }
                }
            },
        }
    }
}

/// Prefix a drawing command's output with the subpath anchor, if one is
/// owed.
pub open spec fn with_anchor(st: PathState, r: Result<(PathState, Seq<(int, int)>), Defect>)
    -> Result<(PathState, Seq<(int, int)>), Defect> {
    match r {
        Err(d) => Err(d),
        Ok((st2, out)) => Ok((st2, anchor(st) + out)),
    }
}

/// Interpret one command from state `st`.
pub open spec fn path_step(c: CommandModel, st: PathState, samples: int) -> Result<
    (PathState, Seq<(int, int)>),
    Defect,
> {
    match c {
        CommandModel::Move(rel, ops) => match run_move(ops, 0, rel, st) {
            Err(d) => Err(d),
            Ok(st1) => Ok(
                (
                    PathState { x: st1.x, y: st1.y, control: st1.control, fresh: true },
                    Seq::<(int, int)>::empty(),
                ),
            ),
        },
        CommandModel::Line(rel, ops) => with_anchor(st, run_line(ops, 0, rel, opened(st))),
        CommandModel::Curve(rel, ops) => with_anchor(
            st,
            run_curve(ops, 0, rel, opened(st), samples),
        ),
        CommandModel::Smooth(rel, ops) => with_anchor(
            st,
            run_smooth(ops, 0, rel, opened(st), samples),
        ),
        CommandModel::Close => Ok((st, Seq::<(int, int)>::empty())),
    }
}

/// Interpret the commands from index `k` on.
pub open spec fn run_path(cmds: Seq<CommandModel>, k: int, st: PathState, samples: int) -> Result<
    (PathState, Seq<(int, int)>),
    Defect,
>
    decreases cmds.len() - k,
{
    if k < 0 || k >= cmds.len() {
        Ok((st, Seq::<(int, int)>::empty()))
    } else {
        match path_step(cmds[k], st, samples) {
            Err(d) => Err(d),
            Ok((st1, out1)) => match run_path(cmds, k + 1, st1, samples) {
                Err(d) => Err(d),
                Ok((st2, out2)) => Ok((st2, out1 + out2)),
            },
        }
    }
}

/// The vertices a whole command list flattens to, starting at the origin.
/// Fewer than two samples per curve is degenerate and refused up front.
pub open spec fn flatten_spec(cmds: Seq<CommandModel>, samples: int) -> Result<
    Seq<(int, int)>,
    Defect,
> {
    if samples < 2 {
        Err(Defect::Samples)
    } else {
        match run_path(cmds, 0, start_state(), samples) {
            Err(d) => Err(d),
            Ok((st, out)) => Ok(out),
        }
    }
}

/// The interpreter's running state, as the machine holds it.
pub struct Cursor {
    pub x: i64,
    pub y: i64,
    pub control: Option<Point>,
    pub fresh: bool,
}

/// The machine state as its model.
pub open spec fn cursor_view(c: Cursor) -> PathState {
    PathState {
        x: c.x as int,
        y: c.y as int,
        control: match c.control {
            Some(p) => Some((p.x as int, p.y as int)),
            None => None,
        },
        fresh: c.fresh,
    }
}

/// Resolve one operand against a cursor coordinate, exactly as
/// `resolve_coord` reads.
pub(crate) fn resolve(cur: i64, op: i64, relative: bool) -> (r: Result<i64, Defect>)
    requires
        coord_in_range(cur as int),
    ensures
        match r {
            Ok(v) => resolve_coord(cur as int, op as int, relative) == Ok::<int, Defect>(v as int)
                && coord_in_range(v as int),
            Err(d) => resolve_coord(cur as int, op as int, relative) == Err::<int, Defect>(d),
        },
{
    if op < -COORD_LIMIT || op > COORD_LIMIT {
        Err(Defect::Range)
    } else {
        let v = if relative {
            cur + op
        } else {
            op
        };
        if v < -COORD_LIMIT || v > COORD_LIMIT {
            Err(Defect::Range)
        } else {
            Ok(v)
        }
    }
}

/// Interpret one move command.
pub(crate) fn do_move(ops: &Vec<i64>, relative: bool, cur: Cursor, Ghost(samples): Ghost<int>) -> (r: Result<
    Cursor,
    Defect,
>)
    requires
        state_in_range(cursor_view(cur)),
    ensures
        match r {
            Ok(c2) => state_in_range(cursor_view(c2)) && path_step(
                CommandModel::Move(relative, ops_view(ops@)),
                cursor_view(cur),
                samples,
            ) == Ok::<_, Defect>((cursor_view(c2), Seq::<(int, int)>::empty())),
            Err(d) => path_step(
                CommandModel::Move(relative, ops_view(ops@)),
                cursor_view(cur),
                samples,
            ) == Err::<(PathState, Seq<(int, int)>), Defect>(d),
        },
{
    let ghost opsv = ops_view(ops@);
    let mut c = cur;
    let mut k: usize = 0;
    while k < ops.len() && k + 1 < ops.len()
        invariant
            state_in_range(cursor_view(c)),
            k <= ops.len(),
            opsv == ops_view(ops@),
            opsv.len() == ops@.len(),
            c.control == cur.control,
            c.fresh == cur.fresh,
            run_move(opsv, 0, relative, cursor_view(cur)) == run_move(
                opsv,
                k as int,
                relative,
                cursor_view(c),
            ),
        decreases ops.len() - k,
    {
        let nx = match resolve(c.x, ops[k], relative) {
            Ok(v) => v,
            Err(d) => {
                return Err(d);
            },
        };
        let ny = match resolve(c.y, ops[k + 1], relative) {
            Ok(v) => v,
            Err(d) => {
                return Err(d);
            },
        };
        c = Cursor { x: nx, y: ny, control: c.control, fresh: c.fresh };
        k = k + 2;
    }
    Ok(Cursor { x: c.x, y: c.y, control: c.control, fresh: true })
}

/// Interpret one line command, appending the vertices it emits.
pub(crate) fn do_line(
    ops: &Vec<i64>,
    relative: bool,
    cur: Cursor,
    out: &mut Vec<Point>,
    Ghost(samples): Ghost<int>,
) -> (r: Result<Cursor, Defect>)
    requires
        state_in_range(cursor_view(cur)),
        forall|j: int| 0 <= j < old(out)@.len() ==> point_in_range(#[trigger] old(out)@[j]),
    ensures
        forall|j: int| 0 <= j < final(out)@.len() ==> point_in_range(#[trigger] final(out)@[j]),
        match r {
            Ok(c2) => {
                &&& state_in_range(cursor_view(c2))
                &&& final(out)@.len() >= old(out)@.len()
                &&& final(out)@.subrange(0, old(out)@.len() as int) == old(out)@
                &&& path_step(
                    CommandModel::Line(relative, ops_view(ops@)),
                    cursor_view(cur),
                    samples,
                ) == Ok::<_, Defect>(
                    (cursor_view(c2), points_view(final(out)@.skip(old(out)@.len() as int))),
                )
            },
            Err(d) => path_step(
                CommandModel::Line(relative, ops_view(ops@)),
                cursor_view(cur),
                samples,
            ) == Err::<(PathState, Seq<(int, int)>), Defect>(d),
        },
{
    let ghost st0 = cursor_view(cur);
    let ghost opsv = ops_view(ops@);
    let ghost base0 = out@.len() as int;
    let mut c = cur;
    if c.fresh {
        out.push(Point { x: c.x, y: c.y });
        c = Cursor { x: c.x, y: c.y, control: c.control, fresh: false };
        proof {
            lemma_push_is_concat(old(out)@, Point { x: cur.x, y: cur.y });
            lemma_extend_keeps(old(out)@, seq![Point { x: cur.x, y: cur.y }], base0);
        }
    }
    let ghost base = out@.len() as int;
    proof {
        assert(cursor_view(c) == opened(st0));
        assert(points_view(out@.subrange(base0, base)) =~= anchor(st0));
        assert(out@.skip(base) =~= Seq::<Point>::empty());
        assert(points_view(out@.skip(base)) =~= Seq::<(int, int)>::empty());
        match run_line(opsv, 0, relative, opened(st0)) {
            Ok((stf, rest)) => {
                assert(points_view(out@.skip(base)) + rest =~= rest);
            },
            Err(d) => {},
        }
    }
    let mut k: usize = 0;
    while k < ops.len() && k + 1 < ops.len()
        invariant
            state_in_range(cursor_view(c)),
            k <= ops.len(),
            st0 == cursor_view(cur),
            opsv == ops_view(ops@),
            opsv.len() == ops@.len(),
            c.control == cur.control,
            c.fresh == false,
            base0 == old(out)@.len(),
            0 <= base0 <= base <= out@.len(),
            out@.subrange(0, base0) == old(out)@,
            points_view(out@.subrange(base0, base)) == anchor(st0),
            forall|j: int| 0 <= j < out@.len() ==> point_in_range(#[trigger] out@[j]),
            match run_line(opsv, k as int, relative, cursor_view(c)) {
                Ok((stf, rest)) => run_line(opsv, 0, relative, opened(st0)) == Ok::<
                    _,
                    Defect,
                >((stf, points_view(out@.skip(base)) + rest)),
                Err(d) => run_line(opsv, 0, relative, opened(st0)) == Err::<
                    (PathState, Seq<(int, int)>),
                    Defect,
                >(d),
            },
        decreases ops.len() - k,
    {
        let nx = match resolve(c.x, ops[k], relative) {
            Ok(v) => v,
            Err(d) => {
                return Err(d);
            },
        };
        let ny = match resolve(c.y, ops[k + 1], relative) {
            Ok(v) => v,
            Err(d) => {
                return Err(d);
            },
        };
        let ghost pre = out@;
        let p = Point { x: nx, y: ny };
        out.push(p);
        proof {
            lemma_push_is_concat(pre, p);
            lemma_extend_keeps(pre, seq![p], base0);
            lemma_extend_keeps(pre, seq![p], base);
            assert(pre.subrange(base0, base) =~= out@.subrange(base0, base));
            lemma_points_view_concat(pre.skip(base), seq![p]);
            match run_line(opsv, (k + 2) as int, relative, cursor_view(
                Cursor { x: nx, y: ny, control: c.control, fresh: false },
            )) {
                Ok((stf, rest)) => {
                    lemma_concat_assoc(
                        points_view(pre.skip(base)),
                        seq![(nx as int, ny as int)],
                        rest,
                    );
                },
                Err(d) => {},
            }
        }
        c = Cursor { x: nx, y: ny, control: c.control, fresh: false };
        k = k + 2;
    }
    proof {
        lemma_points_view_concat(out@.subrange(base0, base), out@.skip(base));
        assert(out@.skip(base0) =~= out@.subrange(base0, base) + out@.skip(base));
        assert(anchor(st0) + (points_view(out@.skip(base)) + Seq::<(int, int)>::empty())
            =~= points_view(out@.skip(base0)));
        assert(out@.subrange(0, base0) =~= old(out)@);
    }
    Ok(c)
}

/// Interpret one cubic curve command, appending every curve sample.
pub(crate) fn do_curve(
    ops: &Vec<i64>,
    relative: bool,
    cur: Cursor,
    out: &mut Vec<Point>,
    samples: usize,
) -> (r: Result<Cursor, Defect>)
    requires
        state_in_range(cursor_view(cur)),
        2 <= samples <= MAX_SAMPLES,
        forall|j: int| 0 <= j < old(out)@.len() ==> point_in_range(#[trigger] old(out)@[j]),
    ensures
        forall|j: int| 0 <= j < final(out)@.len() ==> point_in_range(#[trigger] final(out)@[j]),
        match r {
            Ok(c2) => {
                &&& state_in_range(cursor_view(c2))
                &&& final(out)@.len() >= old(out)@.len()
                &&& final(out)@.subrange(0, old(out)@.len() as int) == old(out)@
                &&& path_step(
                    CommandModel::Curve(relative, ops_view(ops@)),
                    cursor_view(cur),
                    samples as int,
                ) == Ok::<_, Defect>(
                    (cursor_view(c2), points_view(final(out)@.skip(old(out)@.len() as int))),
                )
            },
            Err(d) => path_step(
                CommandModel::Curve(relative, ops_view(ops@)),
                cursor_view(cur),
                samples as int,
            ) == Err::<(PathState, Seq<(int, int)>), Defect>(d),
        },
{
    let ghost st0 = cursor_view(cur);
    let ghost opsv = ops_view(ops@);
    let ghost base0 = out@.len() as int;
    let mut c = cur;
    if c.fresh {
        out.push(Point { x: c.x, y: c.y });
        c = Cursor { x: c.x, y: c.y, control: c.control, fresh: false };
        proof {
            lemma_push_is_concat(old(out)@, Point { x: cur.x, y: cur.y });
            lemma_extend_keeps(old(out)@, seq![Point { x: cur.x, y: cur.y }], base0);
        }
    }
    let ghost base = out@.len() as int;
    proof {
        assert(cursor_view(c) == opened(st0));
        assert(points_view(out@.subrange(base0, base)) =~= anchor(st0));
        assert(out@.skip(base) =~= Seq::<Point>::empty());
        assert(points_view(out@.skip(base)) =~= Seq::<(int, int)>::empty());
        match run_curve(opsv, 0, relative, opened(st0), samples as int) {
            Ok((stf, rest)) => {
                assert(points_view(out@.skip(base)) + rest =~= rest);
            },
            Err(d) => {},
        }
    }
    let mut k: usize = 0;
    while ops.len() >= 6 && k <= ops.len() - 6
        invariant
            state_in_range(cursor_view(c)),
            k <= ops.len(),
            2 <= samples <= MAX_SAMPLES,
            st0 == cursor_view(cur),
            opsv == ops_view(ops@),
            opsv.len() == ops@.len(),
            c.fresh == false,
            base0 == old(out)@.len(),
            0 <= base0 <= base <= out@.len(),
            out@.subrange(0, base0) == old(out)@,
            points_view(out@.subrange(base0, base)) == anchor(st0),
            forall|j: int| 0 <= j < out@.len() ==> point_in_range(#[trigger] out@[j]),
            match run_curve(opsv, k as int, relative, cursor_view(c), samples as int) {
                Ok((stf, rest)) => run_curve(opsv, 0, relative, opened(st0), samples as int)
                    == Ok::<_, Defect>((stf, points_view(out@.skip(base)) + rest)),
                Err(d) => run_curve(opsv, 0, relative, opened(st0), samples as int) == Err::<
                    (PathState, Seq<(int, int)>),
                    Defect,
                >(d),
            },
        decreases ops.len() - k,
    {
        let x1 = match resolve(c.x, ops[k], relative) {
            Ok(v) => v,
            Err(d) => {
                return Err(d);
            },
        };
        let y1 = match resolve(c.y, ops[k + 1], relative) {
            Ok(v) => v,
            Err(d) => {
                return Err(d);
            },
        };
        let x2 = match resolve(c.x, ops[k + 2], relative) {
            Ok(v) => v,
            Err(d) => {
                return Err(d);
            },
        };
        let y2 = match resolve(c.y, ops[k + 3], relative) {
            Ok(v) => v,
            Err(d) => {
                return Err(d);
            },
        };
        let ex = match resolve(c.x, ops[k + 4], relative) {
            Ok(v) => v,
            Err(d) => {
                return Err(d);
            },
        };
        let ey = match resolve(c.y, ops[k + 5], relative) {
            Ok(v) => v,
            Err(d) => {
                return Err(d);
            },
        };
        let ghost pre = out@;
        let mut pts = cubic_points(
            Point { x: c.x, y: c.y },
            Point { x: x1, y: y1 },
            Point { x: x2, y: y2 },
            Point { x: ex, y: ey },
            samples,
        );
        let ghost ptsv = pts@;
        out.append(&mut pts);
        proof {
            lemma_extend_keeps(pre, ptsv, base0);
            lemma_extend_keeps(pre, ptsv, base);
            assert(pre.subrange(base0, base) =~= out@.subrange(base0, base));
            lemma_points_view_concat(pre.skip(base), ptsv);
            match run_curve(opsv, (k + 6) as int, relative, cursor_view(
                Cursor { x: ex, y: ey, control: Some(Point { x: x2, y: y2 }), fresh: false },
            ), samples as int) {
                Ok((stf, rest)) => {
                    lemma_concat_assoc(points_view(pre.skip(base)), points_view(ptsv), rest);
                },
                Err(d) => {},
            }
        }
        c = Cursor { x: ex, y: ey, control: Some(Point { x: x2, y: y2 }), fresh: false };
        k = k + 6;
    }
    proof {
        lemma_points_view_concat(out@.subrange(base0, base), out@.skip(base));
        assert(out@.skip(base0) =~= out@.subrange(base0, base) + out@.skip(base));
        assert(anchor(st0) + (points_view(out@.skip(base)) + Seq::<(int, int)>::empty())
            =~= points_view(out@.skip(base0)));
        assert(out@.subrange(0, base0) =~= old(out)@);
    }
    Ok(c)
}

/// Interpret one smooth curve command: the reflected control point stands
/// in for the absent first control point of each curve.
pub(crate) fn do_smooth(
    ops: &Vec<i64>,
    relative: bool,
    cur: Cursor,
    out: &mut Vec<Point>,
    samples: usize,
) -> (r: Result<Cursor, Defect>)
    requires
        state_in_range(cursor_view(cur)),
        2 <= samples <= MAX_SAMPLES,
        forall|j: int| 0 <= j < old(out)@.len() ==> point_in_range(#[trigger] old(out)@[j]),
    ensures
        forall|j: int| 0 <= j < final(out)@.len() ==> point_in_range(#[trigger] final(out)@[j]),
        match r {
            Ok(c2) => {
                &&& state_in_range(cursor_view(c2))
                &&& final(out)@.len() >= old(out)@.len()
                &&& final(out)@.subrange(0, old(out)@.len() as int) == old(out)@
                &&& path_step(
                    CommandModel::Smooth(relative, ops_view(ops@)),
                    cursor_view(cur),
                    samples as int,
                ) == Ok::<_, Defect>(
                    (cursor_view(c2), points_view(final(out)@.skip(old(out)@.len() as int))),
                )
            },
            Err(d) => path_step(
                CommandModel::Smooth(relative, ops_view(ops@)),
                cursor_view(cur),
                samples as int,
            ) == Err::<(PathState, Seq<(int, int)>), Defect>(d),
        },
{
    let ghost st0 = cursor_view(cur);
    let ghost opsv = ops_view(ops@);
    let ghost base0 = out@.len() as int;
    let mut c = cur;
    if c.fresh {
        out.push(Point { x: c.x, y: c.y });
        c = Cursor { x: c.x, y: c.y, control: c.control, fresh: false };
        proof {
            lemma_push_is_concat(old(out)@, Point { x: cur.x, y: cur.y });
            lemma_extend_keeps(old(out)@, seq![Point { x: cur.x, y: cur.y }], base0);
        }
    }
    let ghost base = out@.len() as int;
    proof {
        assert(cursor_view(c) == opened(st0));
        assert(points_view(out@.subrange(base0, base)) =~= anchor(st0));
        assert(out@.skip(base) =~= Seq::<Point>::empty());
        assert(points_view(out@.skip(base)) =~= Seq::<(int, int)>::empty());
        match run_smooth(opsv, 0, relative, opened(st0), samples as int) {
            Ok((stf, rest)) => {
                assert(points_view(out@.skip(base)) + rest =~= rest);
            },
            Err(d) => {},
        }
    }
    let mut k: usize = 0;
    while ops.len() >= 4 && k <= ops.len() - 4
        invariant
            state_in_range(cursor_view(c)),
            k <= ops.len(),
            2 <= samples <= MAX_SAMPLES,
            st0 == cursor_view(cur),
            opsv == ops_view(ops@),
            opsv.len() == ops@.len(),
            c.fresh == false,
            base0 == old(out)@.len(),
            0 <= base0 <= base <= out@.len(),
            out@.subrange(0, base0) == old(out)@,
            points_view(out@.subrange(base0, base)) == anchor(st0),
            forall|j: int| 0 <= j < out@.len() ==> point_in_range(#[trigger] out@[j]),
            match run_smooth(opsv, k as int, relative, cursor_view(c), samples as int) {
                Ok((stf, rest)) => run_smooth(opsv, 0, relative, opened(st0), samples as int)
                    == Ok::<_, Defect>((stf, points_view(out@.skip(base)) + rest)),
                Err(d) => run_smooth(opsv, 0, relative, opened(st0), samples as int) == Err::<
                    (PathState, Seq<(int, int)>),
                    Defect,
                >(d),
            },
        decreases ops.len() - k,
    {
        let pc = match c.control {
            Some(p) => p,
            None => {
                return Err(Defect::Reflection);
            },
        };
        let rx = 2 * c.x - pc.x;
        let ry = 2 * c.y - pc.y;
        if rx < -COORD_LIMIT || rx > COORD_LIMIT || ry < -COORD_LIMIT || ry > COORD_LIMIT {
            return Err(Defect::Range);
        }
        let x2 = match resolve(c.x, ops[k], relative) {
            Ok(v) => v,
            Err(d) => {
                return Err(d);
            },
        };
        let y2 = match resolve(c.y, ops[k + 1], relative) {
            Ok(v) => v,
            Err(d) => {
                return Err(d);
            },
        };
        let ex = match resolve(c.x, ops[k + 2], relative) {
            Ok(v) => v,
            Err(d) => {
                return Err(d);
            },
        };
        let ey = match resolve(c.y, ops[k + 3], relative) {
            Ok(v) => v,
            Err(d) => {
                return Err(d);
            },
        };
        let ghost pre = out@;
        let mut pts = cubic_points(
            Point { x: c.x, y: c.y },
            Point { x: rx, y: ry },
            Point { x: x2, y: y2 },
            Point { x: ex, y: ey },
            samples,
        );
        let ghost ptsv = pts@;
        out.append(&mut pts);
        proof {
            lemma_extend_keeps(pre, ptsv, base0);
            lemma_extend_keeps(pre, ptsv, base);
            assert(pre.subrange(base0, base) =~= out@.subrange(base0, base));
            lemma_points_view_concat(pre.skip(base), ptsv);
            match run_smooth(opsv, (k + 4) as int, relative, cursor_view(
                Cursor { x: ex, y: ey, control: Some(Point { x: x2, y: y2 }), fresh: false },
            ), samples as int) {
                Ok((stf, rest)) => {
                    lemma_concat_assoc(points_view(pre.skip(base)), points_view(ptsv), rest);
                },
                Err(d) => {},
            }
        }
        c = Cursor { x: ex, y: ey, control: Some(Point { x: x2, y: y2 }), fresh: false };
        k = k + 4;
    }
    proof {
        lemma_points_view_concat(out@.subrange(base0, base), out@.skip(base));
        assert(out@.skip(base0) =~= out@.subrange(base0, base) + out@.skip(base));
        assert(anchor(st0) + (points_view(out@.skip(base)) + Seq::<(int, int)>::empty())
            =~= points_view(out@.skip(base0)));
        assert(out@.subrange(0, base0) =~= old(out)@);
    }
    Ok(c)
}


/// Flatten a whole command list into vertices, starting at the origin.
/// The result is exactly what the mathematical interpretation of the
/// commands prescribes: `Ok` with every emitted vertex in order, or the
/// first defect the commands run into.
pub fn flatten(cmds: &Vec<Command>, samples: usize) -> (r: Result<Vec<Point>, Defect>)
    requires
        samples <= MAX_SAMPLES,
    ensures
        match r {
            Ok(v) => flatten_spec(commands_view(cmds@), samples as int) == Ok::<_, Defect>(
                points_view(v@),
            ) && (forall|j: int| 0 <= j < v@.len() ==> point_in_range(#[trigger] v@[j])),
            Err(d) => flatten_spec(commands_view(cmds@), samples as int) == Err::<
                Seq<(int, int)>,
                Defect,
            >(d),
        },
{
    let ghost cv = commands_view(cmds@);
    if samples < 2 {
        return Err(Defect::Samples);
    }
    let mut out: Vec<Point> = Vec::new();
    let mut c = Cursor { x: 0, y: 0, control: None, fresh: true };
    proof {
        assert(cursor_view(c) == start_state());
        assert(out@.skip(0) =~= out@);
        match run_path(cv, 0, start_state(), samples as int) {
            Ok((stf, rest)) => {
                assert(points_view(out@) + rest =~= rest);
            },
            Err(d) => {},
        }
    }
    let mut i: usize = 0;
    while i < cmds.len()
        invariant
            i <= cmds.len(),
            2 <= samples <= MAX_SAMPLES,
            cv == commands_view(cmds@),
            cv.len() == cmds@.len(),
            state_in_range(cursor_view(c)),
            forall|j: int| 0 <= j < out@.len() ==> point_in_range(#[trigger] out@[j]),
            match run_path(cv, i as int, cursor_view(c), samples as int) {
                Ok((stf, rest)) => run_path(cv, 0, start_state(), samples as int) == Ok::<
                    _,
                    Defect,
                >((stf, points_view(out@) + rest)),
                Err(d) => run_path(cv, 0, start_state(), samples as int) == Err::<
                    (PathState, Seq<(int, int)>),
                    Defect,
                >(d),
            },
        decreases cmds.len() - i,
    {
        let ghost pre = out@;
        let ghost stp = cursor_view(c);
        proof {
            assert(cv[i as int] == command_view(cmds@[i as int]));
        }
        let step = match &cmds[i] {
            Command::MoveTo(p, ops) => {
                let rel = match *p {
                    Positioning::Relative => true,
                    Positioning::Absolute => false,
                };
                let st = do_move(ops, rel, c, Ghost(samples as int));
                proof {
                    assert(cv[i as int] == CommandModel::Move(rel, ops_view(ops@)));
                }
                st
            },
            Command::LineTo(p, ops) => {
                let rel = match *p {
                    Positioning::Relative => true,
                    Positioning::Absolute => false,
                };
                let st = do_line(ops, rel, c, &mut out, Ghost(samples as int));
                proof {
                    assert(cv[i as int] == CommandModel::Line(rel, ops_view(ops@)));
                }
                st
            },
            Command::CurveTo(p, ops) => {
                let rel = match *p {
                    Positioning::Relative => true,
                    Positioning::Absolute => false,
                };
                let st = do_curve(ops, rel, c, &mut out, samples);
                proof {
                    assert(cv[i as int] == CommandModel::Curve(rel, ops_view(ops@)));
                }
                st
            },
            Command::SmoothCurveTo(p, ops) => {
                let rel = match *p {
                    Positioning::Relative => true,
                    Positioning::Absolute => false,
                };
                let st = do_smooth(ops, rel, c, &mut out, samples);
                proof {
                    assert(cv[i as int] == CommandModel::Smooth(rel, ops_view(ops@)));
                }
                st
            },
            Command::ClosePath => Ok(c),
        };
        c = match step {
            Ok(c2) => c2,
            Err(d) => {
                proof {
                    assert(path_step(cv[i as int], stp, samples as int) == Err::<
                        (PathState, Seq<(int, int)>),
                        Defect,
                    >(d));
                }
                return Err(d);
            },
        };
        proof {
            let emitted = points_view(out@.skip(pre.len() as int));
            assert(path_step(cv[i as int], stp, samples as int) == Ok::<_, Defect>(
                (cursor_view(c), emitted),
            )) by {
                if cmds@[i as int] is ClosePath || cmds@[i as int] is MoveTo {
                    assert(out@.skip(pre.len() as int) =~= Seq::<Point>::empty());
                    assert(emitted =~= Seq::<(int, int)>::empty());
                }
            }
            assert(points_view(out@) =~= points_view(pre) + emitted) by {
                assert(out@.subrange(0, pre.len() as int) =~= pre);
                assert(out@ =~= out@.subrange(0, pre.len() as int) + out@.skip(
                    pre.len() as int,
                ));
                lemma_points_view_concat(out@.subrange(0, pre.len() as int), out@.skip(
                    pre.len() as int,
                ));
            }
            match run_path(cv, (i + 1) as int, cursor_view(c), samples as int) {
                Ok((stf, rest)) => {
                    lemma_concat_assoc(points_view(pre), emitted, rest);
                },
                Err(d) => {},
            }
        }
        i = i + 1;
    }
    proof {
        assert(points_view(out@) + Seq::<(int, int)>::empty() =~= points_view(out@));
    }
    Ok(out)
}


/// Round trip for a straight line: flattening a single absolute `LineTo`
/// with one coordinate pair reproduces exactly the two endpoints — the
/// origin anchor and the line's end — with no interpolation artifacts.
pub proof fn lemma_line_round_trip(cmd: CommandModel, a: int, b: int, samples: int)
    requires
        cmd == CommandModel::Line(false, seq![a, b]),
        coord_in_range(a),
        coord_in_range(b),
        2 <= samples,
    ensures
        flatten_spec(seq![cmd], samples) == Ok::<Seq<(int, int)>, Defect>(seq![(0, 0), (a, b)]),
{
    let ops = seq![a, b];
    let st0 = start_state();
    let st1 = opened(st0);
    let st2 = PathState { x: a, y: b, control: None, fresh: false };
    assert(resolve_coord(0, a, false) == Ok::<int, Defect>(a));
    assert(resolve_coord(0, b, false) == Ok::<int, Defect>(b));
    assert(run_line(ops, 2, false, st2) == Ok::<(PathState, Seq<(int, int)>), Defect>(
        (st2, Seq::<(int, int)>::empty()),
    ));
    assert(run_line(ops, 0, false, st1) == Ok::<(PathState, Seq<(int, int)>), Defect>(
        (st2, seq![(a, b)] + Seq::<(int, int)>::empty()),
    ));
    assert(anchor(st0) =~= seq![(0int, 0int)]);
    assert(path_step(cmd, st0, samples) == Ok::<(PathState, Seq<(int, int)>), Defect>(
        (st2, anchor(st0) + (seq![(a, b)] + Seq::<(int, int)>::empty())),
    ));
    assert(anchor(st0) + (seq![(a, b)] + Seq::<(int, int)>::empty()) =~= seq![(0int, 0int), (a, b)]);
    assert(run_path(seq![cmd], 1, st2, samples) == Ok::<(PathState, Seq<(int, int)>), Defect>(
        (st2, Seq::<(int, int)>::empty()),
    ));
    assert(seq![cmd][0] == cmd);
    assert(run_path(seq![cmd], 0, st0, samples) == Ok::<(PathState, Seq<(int, int)>), Defect>(
        (st2, seq![(0int, 0int), (a, b)] + Seq::<(int, int)>::empty()),
    ));
    assert(seq![(0int, 0int), (a, b)] + Seq::<(int, int)>::empty() =~= seq![(0int, 0int), (a, b)]);
    assert(flatten_spec(seq![cmd], samples) == Ok::<Seq<(int, int)>, Defect>(
        seq![(0int, 0int), (a, b)],
    ));
}

} // verus!
