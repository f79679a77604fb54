//! The curve evaluator: sampling linear, quadratic and cubic Bezier
//! segments at evenly spaced parameters.
//!
//! A segment sampled with `n` points is evaluated at `t = i / (n - 1)` for
//! `i` in `0 .. n`. Each coordinate of a sample is the Bernstein-basis
//! weighted sum of the control coordinates, divided (rounding toward
//! negative infinity) by `(n - 1)` raised to the curve's degree; so the
//! samples are exact rational curve points rounded down to the caller's
//! fixed-point grid, and the first and last samples are the endpoints
//! themselves, exactly.

use vstd::arithmetic::div_mod::{
    lemma_div_is_ordered, lemma_div_multiples_vanish, lemma_hoist_over_denominator,
};
use vstd::arithmetic::mul::{lemma_mul_is_commutative, lemma_mul_is_distributive_add};
use vstd::prelude::*;

use crate::geometry::{coord_in_range, point_in_range, Point, COORD_LIMIT};
use crate::outcome::Defect;

verus! {

/// Most samples a single segment may be asked for. Together with
/// `COORD_LIMIT` it keeps every Bernstein numerator within machine range.
pub const MAX_SAMPLES: usize = 1048576;

/// A point as a pair of mathematical coordinates.
pub open spec fn point_view(p: Point) -> (int, int) {
    (p.x as int, p.y as int)
}

/// A vertex list as a sequence of pairs of mathematical coordinates.
pub open spec fn points_view(s: Seq<Point>) -> Seq<(int, int)> {
    s.map_values(|p: Point| (p.x as int, p.y as int))
}

/// The linear Bernstein numerator over weights `c` and `t` (with `c + t`
/// equal to the parameter denominator).
pub open spec fn bez1_num(p0: int, p1: int, c: int, t: int) -> int {
    c * p0 + t * p1
}

/// The quadratic Bernstein numerator.
pub open spec fn bez2_num(p0: int, p1: int, p2: int, c: int, t: int) -> int {
    (c * c) * p0 + 2 * (c * t) * p1 + (t * t) * p2
}

/// The cubic Bernstein numerator.
pub open spec fn bez3_num(p0: int, p1: int, p2: int, p3: int, c: int, t: int) -> int {
    (c * c) * c * p0 + 3 * ((c * c) * t) * p1 + 3 * (c * (t * t)) * p2 + (t * t) * t * p3
}

/// One coordinate of the `i`-th of `d + 1` samples of a linear segment.
pub open spec fn linear_sample(p0: int, p1: int, i: int, d: int) -> int {
    bez1_num(p0, p1, d - i, i) / d
}

/// One coordinate of the `i`-th of `d + 1` samples of a quadratic segment.
pub open spec fn quadratic_sample(p0: int, p1: int, p2: int, i: int, d: int) -> int {
    bez2_num(p0, p1, p2, d - i, i) / (d * d)
}

/// One coordinate of the `i`-th of `d + 1` samples of a cubic segment.
pub open spec fn cubic_sample(p0: int, p1: int, p2: int, p3: int, i: int, d: int) -> int {
    bez3_num(p0, p1, p2, p3, d - i, i) / ((d * d) * d)
}

/// All `n` samples of a linear segment from `a` to `b`.
pub open spec fn linear_chain(a: (int, int), b: (int, int), n: int) -> Seq<(int, int)> {
    Seq::new(
        n as nat,
        |i: int| (linear_sample(a.0, b.0, i, n - 1), linear_sample(a.1, b.1, i, n - 1)),
    )
}

/// All `n` samples of a quadratic segment from `a` over `b` to `c`.
pub open spec fn quadratic_chain(a: (int, int), b: (int, int), c: (int, int), n: int) -> Seq<
    (int, int),
> {
    Seq::new(
        n as nat,
        |i: int|
            (
                quadratic_sample(a.0, b.0, c.0, i, n - 1),
                quadratic_sample(a.1, b.1, c.1, i, n - 1),
            ),
    )
}

/// All `n` samples of a cubic segment from `a` over `b` and `c` to `e`.
pub open spec fn cubic_chain(a: (int, int), b: (int, int), c: (int, int), e: (int, int), n: int)
    -> Seq<(int, int)> {
    Seq::new(
        n as nat,
        |i: int|
            (
                cubic_sample(a.0, b.0, c.0, e.0, i, n - 1),
                cubic_sample(a.1, b.1, c.1, e.1, i, n - 1),
            ),
    )
}

/// `points_view` distributes over concatenation.
pub(crate) proof fn lemma_points_view_concat(a: Seq<Point>, b: Seq<Point>)
    ensures
        points_view(a + b) == points_view(a) + points_view(b),
{
    assert(points_view(a + b) =~= points_view(a) + points_view(b));
}

/// `points_view` commutes with `skip`.
pub(crate) proof fn lemma_points_view_skip(s: Seq<Point>, n: int)
    requires
        0 <= n <= s.len(),
    ensures
        points_view(s.skip(n)) == points_view(s).skip(n),
{
    assert(points_view(s.skip(n)) =~= points_view(s).skip(n));
}

/// Appending to a vertex list moves its appendix across `skip` and
/// leaves any prefix untouched.
pub(crate) proof fn lemma_extend_keeps(s: Seq<Point>, t: Seq<Point>, n: int)
    requires
        0 <= n <= s.len(),
    ensures
        (s + t).skip(n) == s.skip(n) + t,
        (s + t).subrange(0, n) == s.subrange(0, n),
{
    assert((s + t).skip(n) =~= s.skip(n) + t);
    assert((s + t).subrange(0, n) =~= s.subrange(0, n));
}

/// Pushing one vertex is appending a singleton.
pub(crate) proof fn lemma_push_is_concat(s: Seq<Point>, p: Point)
    ensures
        s.push(p) == s + seq![p],
        points_view(seq![p]) == seq![(p.x as int, p.y as int)],
{
    assert(s.push(p) =~= s + seq![p]);
    assert(points_view(seq![p]) =~= seq![(p.x as int, p.y as int)]);
}

/// Sequence concatenation is associative.
pub(crate) proof fn lemma_concat_assoc(a: Seq<(int, int)>, b: Seq<(int, int)>, c: Seq<(int, int)>)
    ensures
        (a + b) + c == a + (b + c),
{
    assert((a + b) + c =~= a + (b + c));
}

/// Bounds on the weight monomials, shaped exactly as the evaluators
/// compute them, so each machine multiplication is known not to overflow.
proof fn lemma_weight_bounds(c: int, t: int, d: int)
    by (nonlinear_arith)
    requires
        0 <= c <= d,
        0 <= t <= d,
        1 <= d <= 1048576,
    ensures
        c * c <= 0x10000000000,
        t * t <= 0x10000000000,
        c * t <= 0x10000000000,
        (c * c) * c <= 0x1000000000000000,
        (c * c) * t <= 0x1000000000000000,
        c * (t * t) <= 0x1000000000000000,
        (t * t) * t <= 0x1000000000000000,
        d * d <= 0x10000000000,
        (d * d) * d <= 0x1000000000000000,
        1 <= d * d,
        1 <= (d * d) * d,
{
}

/// A product of values within known nonnegative bounds is within the
/// product of the bounds.
pub(crate) proof fn lemma_mul_le(a: int, b: int, x: int, y: int)
    by (nonlinear_arith)
    requires
        0 <= a <= x,
        0 <= b <= y,
    ensures
        a * b <= x * y,
{
}

/// The cubic Bernstein weights partition the cubed denominator.
proof fn lemma_bez3_partition(c: int, t: int, d: int)
    by (nonlinear_arith)
    requires
        c == d - t,
    ensures
        (c * c) * c + 3 * ((c * c) * t) + 3 * (c * (t * t)) + (t * t) * t == (d * d) * d,
{
}

/// The quadratic Bernstein weights partition the squared denominator.
proof fn lemma_bez2_partition(c: int, t: int, d: int)
    by (nonlinear_arith)
    requires
        c == d - t,
    ensures
        c * c + 2 * (c * t) + t * t == d * d,
{
}

/// Shifting every control coordinate by `l` shifts a weighted sum by `l`
/// times the weight total.
proof fn lemma_weighted_shift(
    w0: int,
    w1: int,
    w2: int,
    w3: int,
    p0: int,
    p1: int,
    p2: int,
    p3: int,
    l: int,
    s: int,
)
    requires
        s == w0 + w1 + w2 + w3,
    ensures
        w0 * (p0 + l) + w1 * (p1 + l) + w2 * (p2 + l) + w3 * (p3 + l) == w0 * p0 + w1 * p1 + w2
            * p2 + w3 * p3 + l * s,
{
    lemma_mul_is_distributive_add(w0, p0, l);
    lemma_mul_is_distributive_add(w1, p1, l);
    lemma_mul_is_distributive_add(w2, p2, l);
    lemma_mul_is_distributive_add(w3, p3, l);
    lemma_mul_is_commutative(w0, l);
    lemma_mul_is_commutative(w1, l);
    lemma_mul_is_commutative(w2, l);
    lemma_mul_is_commutative(w3, l);
    lemma_mul_is_distributive_add(l, w0 + w1, w2 + w3);
    lemma_mul_is_distributive_add(l, w0, w1);
    lemma_mul_is_distributive_add(l, w2, w3);
}

/// A weighted sum of values in `[0, m]` is between zero and the weight
/// total times `m`.
proof fn lemma_weighted_sum_bound(
    w0: int,
    w1: int,
    w2: int,
    w3: int,
    q0: int,
    q1: int,
    q2: int,
    q3: int,
    s: int,
    m: int,
)
    by (nonlinear_arith)
    requires
        0 <= w0,
        0 <= w1,
        0 <= w2,
        0 <= w3,
        0 <= q0 <= m,
        0 <= q1 <= m,
        0 <= q2 <= m,
        0 <= q3 <= m,
        s == w0 + w1 + w2 + w3,
    ensures
        0 <= w0 * q0 + w1 * q1 + w2 * q2 + w3 * q3,
        w0 * q0 + w1 * q1 + w2 * q2 + w3 * q3 <= s * m,
{
}

/// One coordinate of a cubic sample, computed exactly: the Bernstein sum
/// is shifted into nonnegative range, divided by the cubed denominator,
/// and shifted back.
fn eval_cubic(p0: i64, p1: i64, p2: i64, p3: i64, i: usize, d: usize) -> (r: i64)
    requires
        1 <= d <= MAX_SAMPLES,
        i <= d,
        coord_in_range(p0 as int),
        coord_in_range(p1 as int),
        coord_in_range(p2 as int),
        coord_in_range(p3 as int),
    ensures
        r == cubic_sample(p0 as int, p1 as int, p2 as int, p3 as int, i as int, d as int),
        coord_in_range(r as int),
{
    let c: u128 = (d - i) as u128;
    let t: u128 = i as u128;
    let dd: u128 = d as u128;
    proof {
        lemma_weight_bounds(c as int, t as int, dd as int);
    }
    let d3: u128 = (dd * dd) * dd;
    let c2: u128 = c * c;
    let t2: u128 = t * t;
    let w0: u128 = (c * c) * c;
    let w1: u128 = 3 * ((c * c) * t);
    let w2: u128 = 3 * (c * (t * t));
    let w3: u128 = (t * t) * t;
    let q0: u128 = (p0 + COORD_LIMIT) as u128;
    let q1: u128 = (p1 + COORD_LIMIT) as u128;
    let q2: u128 = (p2 + COORD_LIMIT) as u128;
    let q3: u128 = (p3 + COORD_LIMIT) as u128;
    proof {
        lemma_mul_le(w0 as int, q0 as int, 0x3000000000000000, 0x100000000);
        lemma_mul_le(w1 as int, q1 as int, 0x3000000000000000, 0x100000000);
        lemma_mul_le(w2 as int, q2 as int, 0x3000000000000000, 0x100000000);
        lemma_mul_le(w3 as int, q3 as int, 0x3000000000000000, 0x100000000);
    }
    let num: u128 = w0 * q0 + w1 * q1 + w2 * q2 + w3 * q3;
    let quot: u128 = num / d3;
    proof {
        let ci = c as int;
        let ti = t as int;
        let di = dd as int;
        let li = COORD_LIMIT as int;
        let si = d3 as int;
        let nnum = bez3_num(p0 as int, p1 as int, p2 as int, p3 as int, ci, ti);
        lemma_bez3_partition(ci, ti, di);
        lemma_weighted_shift(
            w0 as int,
            w1 as int,
            w2 as int,
            w3 as int,
            p0 as int,
            p1 as int,
            p2 as int,
            p3 as int,
            li,
            si,
        );
        assert(num as int == nnum + li * si);
        lemma_hoist_over_denominator(nnum, li, si as nat);
        assert(quot as int == nnum / si + li);
        lemma_weighted_sum_bound(
            w0 as int,
            w1 as int,
            w2 as int,
            w3 as int,
            q0 as int,
            q1 as int,
            q2 as int,
            q3 as int,
            si,
            0x100000000,
        );
        lemma_div_is_ordered(num as int, si * 0x100000000, si);
        lemma_div_multiples_vanish(0x100000000, si);
        assert(quot <= 0x100000000);
    }
    (quot as i64) - COORD_LIMIT
}

/// One coordinate of a quadratic sample; see `eval_cubic`.
fn eval_quadratic(p0: i64, p1: i64, p2: i64, i: usize, d: usize) -> (r: i64)
    requires
        1 <= d <= MAX_SAMPLES,
        i <= d,
        coord_in_range(p0 as int),
        coord_in_range(p1 as int),
        coord_in_range(p2 as int),
    ensures
        r == quadratic_sample(p0 as int, p1 as int, p2 as int, i as int, d as int),
        coord_in_range(r as int),
{
    let c: u128 = (d - i) as u128;
    let t: u128 = i as u128;
    let dd: u128 = d as u128;
    proof {
        lemma_weight_bounds(c as int, t as int, dd as int);
    }
    let d2: u128 = dd * dd;
    let w0: u128 = c * c;
    let w1: u128 = 2 * (c * t);
    let w2: u128 = t * t;
    let q0: u128 = (p0 + COORD_LIMIT) as u128;
    let q1: u128 = (p1 + COORD_LIMIT) as u128;
    let q2: u128 = (p2 + COORD_LIMIT) as u128;
    proof {
        lemma_mul_le(w0 as int, q0 as int, 0x20000000000, 0x100000000);
        lemma_mul_le(w1 as int, q1 as int, 0x20000000000, 0x100000000);
        lemma_mul_le(w2 as int, q2 as int, 0x20000000000, 0x100000000);
    }
    let num: u128 = w0 * q0 + w1 * q1 + w2 * q2;
    let quot: u128 = num / d2;
    proof {
        let ci = c as int;
        let ti = t as int;
        let di = dd as int;
        let li = COORD_LIMIT as int;
        let si = d2 as int;
        let nnum = bez2_num(p0 as int, p1 as int, p2 as int, ci, ti);
        lemma_bez2_partition(ci, ti, di);
        lemma_weighted_shift(
            w0 as int,
            w1 as int,
            w2 as int,
            0,
            p0 as int,
            p1 as int,
            p2 as int,
            0,
            li,
            si,
        );
        assert(num as int == nnum + li * si);
        lemma_hoist_over_denominator(nnum, li, si as nat);
        assert(quot as int == nnum / si + li);
        lemma_weighted_sum_bound(
            w0 as int,
            w1 as int,
            w2 as int,
            0,
            q0 as int,
            q1 as int,
            q2 as int,
            0,
            si,
            0x100000000,
        );
        lemma_div_is_ordered(num as int, si * 0x100000000, si);
        lemma_div_multiples_vanish(0x100000000, si);
        assert(quot <= 0x100000000);
    }
    (quot as i64) - COORD_LIMIT
}

/// One coordinate of a linear sample; see `eval_cubic`.
fn eval_linear(p0: i64, p1: i64, i: usize, d: usize) -> (r: i64)
    requires
        1 <= d <= MAX_SAMPLES,
        i <= d,
        coord_in_range(p0 as int),
        coord_in_range(p1 as int),
    ensures
        r == linear_sample(p0 as int, p1 as int, i as int, d as int),
        coord_in_range(r as int),
{
    let c: u128 = (d - i) as u128;
    let t: u128 = i as u128;
    let dd: u128 = d as u128;
    let q0: u128 = (p0 + COORD_LIMIT) as u128;
    let q1: u128 = (p1 + COORD_LIMIT) as u128;
    proof {
        lemma_mul_le(c as int, q0 as int, 0x100000, 0x100000000);
        lemma_mul_le(t as int, q1 as int, 0x100000, 0x100000000);
    }
    let num: u128 = c * q0 + t * q1;
    let quot: u128 = num / dd;
    proof {
        let ci = c as int;
        let ti = t as int;
        let di = dd as int;
        let li = COORD_LIMIT as int;
        let nnum = bez1_num(p0 as int, p1 as int, ci, ti);
        lemma_weighted_shift(ci, ti, 0, 0, p0 as int, p1 as int, 0, 0, li, di);
        assert(num as int == nnum + li * di);
        lemma_hoist_over_denominator(nnum, li, di as nat);
        assert(quot as int == nnum / di + li);
        lemma_weighted_sum_bound(
            ci,
            ti,
            0,
            0,
            q0 as int,
            q1 as int,
            0,
            0,
            di,
            0x100000000,
        );
        lemma_div_is_ordered(num as int, di * 0x100000000, di);
        lemma_div_multiples_vanish(0x100000000, di);
        assert(quot <= 0x100000000);
    }
    (quot as i64) - COORD_LIMIT
}

/// All `n` samples of a cubic segment, for callers that have already
/// ruled out a degenerate sample count.
pub(crate) fn cubic_points(p0: Point, p1: Point, p2: Point, p3: Point, n: usize) -> (v: Vec<Point>)
    requires
        2 <= n <= MAX_SAMPLES,
        point_in_range(p0),
        point_in_range(p1),
        point_in_range(p2),
        point_in_range(p3),
    ensures
        v@.len() == n,
        points_view(v@) == cubic_chain(
            point_view(p0),
            point_view(p1),
            point_view(p2),
            point_view(p3),
            n as int,
        ),
        forall|j: int| 0 <= j < v@.len() ==> point_in_range(#[trigger] v@[j]),
{
    let d: usize = n - 1;
    let mut v: Vec<Point> = Vec::new();
    for i in 0..n
        invariant
            2 <= n <= MAX_SAMPLES,
            d == n - 1,
            point_in_range(p0),
            point_in_range(p1),
            point_in_range(p2),
            point_in_range(p3),
            v@.len() == i,
            forall|j: int|
                0 <= j < i ==> #[trigger] v@[j].x == cubic_sample(
                    p0.x as int,
                    p1.x as int,
                    p2.x as int,
                    p3.x as int,
                    j,
                    d as int,
                ) && v@[j].y == cubic_sample(
                    p0.y as int,
                    p1.y as int,
                    p2.y as int,
                    p3.y as int,
                    j,
                    d as int,
                ),
            forall|j: int| 0 <= j < i ==> point_in_range(#[trigger] v@[j]),
    {
        let x = eval_cubic(p0.x, p1.x, p2.x, p3.x, i, d);
        let y = eval_cubic(p0.y, p1.y, p2.y, p3.y, i, d);
        v.push(Point { x, y });
    }
    proof {
        assert(points_view(v@) =~= cubic_chain(
            point_view(p0),
            point_view(p1),
            point_view(p2),
            point_view(p3),
            n as int,
        ));
    }
    v
}

/// All `n` samples of a quadratic segment; see `cubic_points`.
pub(crate) fn quadratic_points(p0: Point, p1: Point, p2: Point, n: usize) -> (v: Vec<Point>)
    requires
        2 <= n <= MAX_SAMPLES,
        point_in_range(p0),
        point_in_range(p1),
        point_in_range(p2),
    ensures
        v@.len() == n,
        points_view(v@) == quadratic_chain(
            point_view(p0),
            point_view(p1),
            point_view(p2),
            n as int,
        ),
        forall|j: int| 0 <= j < v@.len() ==> point_in_range(#[trigger] v@[j]),
{
    let d: usize = n - 1;
    let mut v: Vec<Point> = Vec::new();
    for i in 0..n
        invariant
            2 <= n <= MAX_SAMPLES,
            d == n - 1,
            point_in_range(p0),
            point_in_range(p1),
            point_in_range(p2),
            v@.len() == i,
            forall|j: int|
                0 <= j < i ==> #[trigger] v@[j].x == quadratic_sample(
                    p0.x as int,
                    p1.x as int,
                    p2.x as int,
                    j,
                    d as int,
                ) && v@[j].y == quadratic_sample(
                    p0.y as int,
                    p1.y as int,
                    p2.y as int,
                    j,
                    d as int,
                ),
            forall|j: int| 0 <= j < i ==> point_in_range(#[trigger] v@[j]),
    {
        let x = eval_quadratic(p0.x, p1.x, p2.x, i, d);
        let y = eval_quadratic(p0.y, p1.y, p2.y, i, d);
        v.push(Point { x, y });
    }
    proof {
        assert(points_view(v@) =~= quadratic_chain(
            point_view(p0),
            point_view(p1),
            point_view(p2),
            n as int,
        ));
    }
    v
}

/// All `n` samples of a linear segment; see `cubic_points`.
pub(crate) fn linear_points(p0: Point, p1: Point, n: usize) -> (v: Vec<Point>)
    requires
        2 <= n <= MAX_SAMPLES,
        point_in_range(p0),
        point_in_range(p1),
    ensures
        v@.len() == n,
        points_view(v@) == linear_chain(point_view(p0), point_view(p1), n as int),
        forall|j: int| 0 <= j < v@.len() ==> point_in_range(#[trigger] v@[j]),
{
    let d: usize = n - 1;
    let mut v: Vec<Point> = Vec::new();
    for i in 0..n
        invariant
            2 <= n <= MAX_SAMPLES,
            d == n - 1,
            point_in_range(p0),
            point_in_range(p1),
            v@.len() == i,
            forall|j: int|
                0 <= j < i ==> #[trigger] v@[j].x == linear_sample(
                    p0.x as int,
                    p1.x as int,
                    j,
                    d as int,
                ) && v@[j].y == linear_sample(p0.y as int, p1.y as int, j, d as int),
            forall|j: int| 0 <= j < i ==> point_in_range(#[trigger] v@[j]),
    {
        let x = eval_linear(p0.x, p1.x, i, d);
        let y = eval_linear(p0.y, p1.y, i, d);
        v.push(Point { x, y });
    }
    proof {
        assert(points_view(v@) =~= linear_chain(point_view(p0), point_view(p1), n as int));
    }
    v
}

/// Sample a cubic segment with `n` points; a sample count below two is
/// degenerate and is reported rather than dividing by zero.
pub fn trace_cubic(p0: Point, p1: Point, p2: Point, p3: Point, n: usize) -> (r: Result<
    Vec<Point>,
    Defect,
>)
    requires
        n <= MAX_SAMPLES,
        point_in_range(p0),
        point_in_range(p1),
        point_in_range(p2),
        point_in_range(p3),
    ensures
        match r {
            Ok(v) => n >= 2 && v@.len() == n && points_view(v@) == cubic_chain(
                point_view(p0),
                point_view(p1),
                point_view(p2),
                point_view(p3),
                n as int,
            ) && (forall|j: int| 0 <= j < v@.len() ==> point_in_range(#[trigger] v@[j])),
            Err(d) => n < 2 && d == Defect::Samples,
        },
{
    if n < 2 {
        Err(Defect::Samples)
    } else {
        Ok(cubic_points(p0, p1, p2, p3, n))
    }
}

/// Sample a quadratic segment with `n` points; see `trace_cubic`.
pub fn trace_quadratic(p0: Point, p1: Point, p2: Point, n: usize) -> (r: Result<Vec<Point>, Defect>)
    requires
        n <= MAX_SAMPLES,
        point_in_range(p0),
        point_in_range(p1),
        point_in_range(p2),
    ensures
        match r {
            Ok(v) => n >= 2 && v@.len() == n && points_view(v@) == quadratic_chain(
                point_view(p0),
                point_view(p1),
                point_view(p2),
                n as int,
            ) && (forall|j: int| 0 <= j < v@.len() ==> point_in_range(#[trigger] v@[j])),
            Err(d) => n < 2 && d == Defect::Samples,
        },
{
    if n < 2 {
        Err(Defect::Samples)
    } else {
        Ok(quadratic_points(p0, p1, p2, n))
    }
}

/// Sample a linear segment with `n` points; see `trace_cubic`.
pub fn trace_linear(p0: Point, p1: Point, n: usize) -> (r: Result<Vec<Point>, Defect>)
    requires
        n <= MAX_SAMPLES,
        point_in_range(p0),
        point_in_range(p1),
    ensures
        match r {
            Ok(v) => n >= 2 && v@.len() == n && points_view(v@) == linear_chain(
                point_view(p0),
                point_view(p1),
                n as int,
            ) && (forall|j: int| 0 <= j < v@.len() ==> point_in_range(#[trigger] v@[j])),
            Err(d) => n < 2 && d == Defect::Samples,
        },
{
    if n < 2 {
        Err(Defect::Samples)
    } else {
        Ok(linear_points(p0, p1, n))
    }
}

/// At the extreme parameters the cubic Bernstein numerator collapses to
/// one endpoint scaled by the cubed denominator.
proof fn lemma_bez3_ends(p0: int, p1: int, p2: int, p3: int, d: int)
    ensures
        bez3_num(p0, p1, p2, p3, d, 0) == ((d * d) * d) * p0,
        bez3_num(p0, p1, p2, p3, 0, d) == ((d * d) * d) * p3,
{
    assert((d * d) * d * p0 + 3 * ((d * d) * 0) * p1 + 3 * (d * (0 * 0)) * p2 + (0 * 0) * 0 * p3
        == ((d * d) * d) * p0) by (nonlinear_arith);
    assert((0 * 0) * 0 * p0 + 3 * ((0 * 0) * d) * p1 + 3 * (0 * (d * d)) * p2 + (d * d) * d * p3
        == ((d * d) * d) * p3) by (nonlinear_arith);
}

/// Exact sampling: an `n`-point cubic chain holds exactly `n` samples,
/// the `i`-th taken at parameter `i / (n - 1)`, and those parameters
/// strictly increase with the index: over the common positive denominator
/// `n - 1`, the cross-multiplied comparison of `i / (n - 1)` with
/// `j / (n - 1)` comes out strict whenever `i < j`.
pub proof fn lemma_chain_parameters(
    a: (int, int),
    b: (int, int),
    c: (int, int),
    e: (int, int),
    n: int,
    i: int,
    j: int,
)
    requires
        2 <= n,
        0 <= i < j < n,
    ensures
        cubic_chain(a, b, c, e, n).len() == n,
        cubic_chain(a, b, c, e, n)[i] == (
            cubic_sample(a.0, b.0, c.0, e.0, i, n - 1),
            cubic_sample(a.1, b.1, c.1, e.1, i, n - 1),
        ),
        i * (n - 1) < j * (n - 1),
{
    assert(i * (n - 1) < j * (n - 1)) by (nonlinear_arith)
        requires
            i < j,
            2 <= n,
    ;
}

/// Endpoint interpolation: the first sample of a cubic chain is the start
/// point and the last sample is the end point, exactly.
pub proof fn lemma_cubic_endpoints(a: (int, int), b: (int, int), c: (int, int), e: (int, int), n: int)
    requires
        2 <= n,
    ensures
        cubic_chain(a, b, c, e, n)[0] == a,
        cubic_chain(a, b, c, e, n)[n - 1] == e,
{
    let d = n - 1;
    let d3 = (d * d) * d;
    assert(1 <= d * d && 1 <= (d * d) * d) by (nonlinear_arith)
        requires
            1 <= d,
    ;
    lemma_bez3_ends(a.0, b.0, c.0, e.0, d);
    lemma_bez3_ends(a.1, b.1, c.1, e.1, d);
    lemma_div_multiples_vanish(a.0, d3);
    lemma_div_multiples_vanish(a.1, d3);
    assert(cubic_sample(a.0, b.0, c.0, e.0, 0, d) == a.0);
    assert(cubic_sample(a.1, b.1, c.1, e.1, 0, d) == a.1);
    lemma_div_multiples_vanish(e.0, d3);
    lemma_div_multiples_vanish(e.1, d3);
    assert(cubic_sample(a.0, b.0, c.0, e.0, d, d) == e.0);
    assert(cubic_sample(a.1, b.1, c.1, e.1, d, d) == e.1);
}

/// Endpoint interpolation for linear chains.
pub proof fn lemma_linear_endpoints(a: (int, int), b: (int, int), n: int)
    requires
        2 <= n,
    ensures
        linear_chain(a, b, n)[0] == a,
        linear_chain(a, b, n)[n - 1] == b,
{
    let d = n - 1;
    lemma_bez1_ends(a.0, b.0, d);
    lemma_bez1_ends(a.1, b.1, d);
    lemma_div_multiples_vanish(a.0, d);
    lemma_div_multiples_vanish(a.1, d);
    lemma_div_multiples_vanish(b.0, d);
    lemma_div_multiples_vanish(b.1, d);
}

/// At the extreme parameters the linear Bernstein numerator collapses to
/// one endpoint scaled by the denominator.
proof fn lemma_bez1_ends(p0: int, p1: int, d: int)
    ensures
        bez1_num(p0, p1, d, 0) == d * p0,
        bez1_num(p0, p1, 0, d) == d * p1,
{
    assert(d * p0 + 0 * p1 == d * p0) by (nonlinear_arith);
    assert(0 * p0 + d * p1 == d * p1) by (nonlinear_arith);
}

/// Endpoint interpolation for quadratic chains.
pub proof fn lemma_quadratic_endpoints(a: (int, int), b: (int, int), c: (int, int), n: int)
    requires
        2 <= n,
    ensures
        quadratic_chain(a, b, c, n)[0] == a,
        quadratic_chain(a, b, c, n)[n - 1] == c,
{
    let d = n - 1;
    let d2 = d * d;
    assert(1 <= d * d) by (nonlinear_arith)
        requires
            1 <= d,
    ;
    lemma_bez2_ends(a.0, b.0, c.0, d);
    lemma_bez2_ends(a.1, b.1, c.1, d);
    lemma_div_multiples_vanish(a.0, d2);
    lemma_div_multiples_vanish(a.1, d2);
    lemma_div_multiples_vanish(c.0, d2);
    lemma_div_multiples_vanish(c.1, d2);
}

/// At the extreme parameters the quadratic Bernstein numerator collapses
/// to one endpoint scaled by the squared denominator.
proof fn lemma_bez2_ends(p0: int, p1: int, p2: int, d: int)
    ensures
        bez2_num(p0, p1, p2, d, 0) == (d * d) * p0,
        bez2_num(p0, p1, p2, 0, d) == (d * d) * p2,
{
    assert((d * d) * p0 + 2 * (d * 0) * p1 + (0 * 0) * p2 == (d * d) * p0) by (nonlinear_arith);
    assert((0 * 0) * p0 + 2 * (0 * d) * p1 + (d * d) * p2 == (d * d) * p2) by (nonlinear_arith);
}

}
