//! The vertex emitter's normalization pass: compute the bounding box of a
//! flattened vertex list in one sweep, then map every vertex linearly so
//! the list spans exactly `[-fraction, fraction]` on each axis.
//!
//! A vertex `v` on an axis with bounding interval `[lo, hi]` maps to
//! `2 * fraction * (v - lo) / (hi - lo) - fraction`, the division rounding
//! toward negative infinity. A list with no vertices, or with a zero-width
//! or zero-height bounding box, cannot be normalized and is reported as
//! degenerate.

use vstd::arithmetic::div_mod::{
    lemma_div_by_multiple, lemma_div_is_ordered, lemma_div_of0,
};
use vstd::arithmetic::mul::lemma_mul_basics;
use vstd::prelude::*;

use crate::curve::points_view;
use crate::geometry::{coord_in_range, point_in_range, Point, COORD_LIMIT};
use crate::outcome::Defect;

verus! {

/// The smaller of two integers.
pub open spec fn min2(a: int, b: int) -> int {
    if a <= b {
        a
    } else {
        b
    }
}

/// The larger of two integers.
pub open spec fn max2(a: int, b: int) -> int {
    if a >= b {
        a
    } else {
        b
    }
}

/// The bounding box of a nonempty vertex list, as
/// `(min x, min y, max x, max y)`.
pub open spec fn bounds(s: Seq<(int, int)>) -> (int, int, int, int)
    decreases s.len(),
{
    if s.len() <= 1 {
        (s[0].0, s[0].1, s[0].0, s[0].1)
    } else {
        let r = bounds(s.drop_last());
        let p = s.last();
        (min2(r.0, p.0), min2(r.1, p.1), max2(r.2, p.0), max2(r.3, p.1))
    }
}

/// The bounding box bounds every vertex, and each of its four sides is
/// attained by some vertex.
pub proof fn lemma_bounds_character(s: Seq<(int, int)>)
    requires
        s.len() > 0,
    ensures
        forall|j: int|
            0 <= j < s.len() ==> bounds(s).0 <= (#[trigger] s[j]).0 <= bounds(s).2 && bounds(
                s,
            ).1 <= s[j].1 <= bounds(s).3,
        exists|j: int| 0 <= j < s.len() && (#[trigger] s[j]).0 == bounds(s).0,
        exists|j: int| 0 <= j < s.len() && (#[trigger] s[j]).1 == bounds(s).1,
        exists|j: int| 0 <= j < s.len() && (#[trigger] s[j]).0 == bounds(s).2,
        exists|j: int| 0 <= j < s.len() && (#[trigger] s[j]).1 == bounds(s).3,
    decreases s.len(),
{
    if s.len() == 1 {
        assert(s[0].0 == bounds(s).0);
    } else {
        let t = s.drop_last();
        let p = s.last();
        lemma_bounds_character(t);
        assert(forall|j: int| 0 <= j < t.len() ==> t[j] == #[trigger] s[j]);
        let n = s.len() - 1;
        assert(s[n] == p);
        if p.0 <= bounds(t).0 {
            assert(s[n].0 == bounds(s).0);
        } else {
            let j = choose|j: int| 0 <= j < t.len() && (#[trigger] t[j]).0 == bounds(t).0;
            assert(s[j].0 == bounds(s).0);
        }
        if p.1 <= bounds(t).1 {
            assert(s[n].1 == bounds(s).1);
        } else {
            let j = choose|j: int| 0 <= j < t.len() && (#[trigger] t[j]).1 == bounds(t).1;
            assert(s[j].1 == bounds(s).1);
        }
        if p.0 >= bounds(t).2 {
            assert(s[n].0 == bounds(s).2);
        } else {
            let j = choose|j: int| 0 <= j < t.len() && (#[trigger] t[j]).0 == bounds(t).2;
            assert(s[j].0 == bounds(s).2);
        }
        if p.1 >= bounds(t).3 {
            assert(s[n].1 == bounds(s).3);
        } else {
            let j = choose|j: int| 0 <= j < t.len() && (#[trigger] t[j]).1 == bounds(t).3;
            assert(s[j].1 == bounds(s).3);
        }
    }
}

/// One axis of the normalization map.
pub open spec fn scale_coord(v: int, lo: int, w: int, f: int) -> int {
    2 * f * (v - lo) / w - f
}

/// What normalization yields: the vertex list mapped axis-wise against
/// its own bounding box, or a `Bounds` defect for an empty list or a
/// degenerate box.
pub open spec fn normalize_spec(s: Seq<(int, int)>, f: int) -> Result<Seq<(int, int)>, Defect> {
    if s.len() == 0 {
        Err(Defect::Bounds)
    } else {
        let b = bounds(s);
        if b.2 - b.0 == 0 || b.3 - b.1 == 0 {
            Err(Defect::Bounds)
        } else {
            Ok(
                s.map_values(
                    |p: (int, int)|
                        (
                            scale_coord(p.0, b.0, b.2 - b.0, f),
                            scale_coord(p.1, b.1, b.3 - b.1, f),
                        ),
                ),
            )
        }
    }
}

/// The normalization map sends `[lo, lo + w]` into `[-f, f]`, hitting the
/// two ends exactly at the interval's ends.
proof fn lemma_scale_bounds(v: int, lo: int, w: int, f: int)
    requires
        0 <= f,
        1 <= w,
        lo <= v <= lo + w,
    ensures
        -f <= scale_coord(v, lo, w, f) <= f,
        v == lo ==> scale_coord(v, lo, w, f) == -f,
        v == lo + w ==> scale_coord(v, lo, w, f) == f,
{
    let num = 2 * f * (v - lo);
    assert(0 <= 2 * f * (v - lo) && 2 * f * (v - lo) <= 2 * f * w) by (nonlinear_arith)
        requires
            0 <= f,
            0 <= v - lo <= w,
    ;
    lemma_div_is_ordered(0, num, w);
    lemma_div_of0(w);
    lemma_div_is_ordered(num, 2 * f * w, w);
    lemma_div_by_multiple(2 * f, w);
    assert(2 * f * w == (2 * f) * w);
    if v == lo {
        assert(num == 0) by {
            lemma_mul_basics(2 * f);
        }
    }
    if v == lo + w {
        assert(num == (2 * f) * w);
    }
}

/// One coordinate of one vertex, normalized.
fn scale_value(v: i64, lo: i64, w: i64, f: i64) -> (r: i64)
    requires
        0 <= f <= COORD_LIMIT,
        1 <= w <= 0x200000000,
        lo <= v,
        v - lo <= w,
        coord_in_range(lo as int),
    ensures
        r == scale_coord(v as int, lo as int, w as int, f as int),
        -f <= r <= f,
{
    proof {
        lemma_scale_bounds(v as int, lo as int, w as int, f as int);
        crate::curve::lemma_mul_le(2 * (f as int), v - lo, 0x100000000, 0x200000000);
    }
    let num: u128 = ((2 * f) as u128) * ((v - lo) as u128);
    let q: u128 = num / (w as u128);
    proof {
        let fi = f as int;
        let wi = w as int;
        let vi = v as int;
        let li = lo as int;
        assert(num as int == 2 * fi * (vi - li));
        assert(q as int == 2 * fi * (vi - li) / wi);
        assert(q as int == scale_coord(vi, li, wi, fi) + fi);
        assert(q <= 2 * (COORD_LIMIT as u128));
    }
    (q as i64) - f
}

/// The bounding box of a vertex list: the least and greatest coordinate
/// on each axis, in one pass. An empty list has none.
pub fn bounding_box(v: &Vec<Point>) -> (r: Result<(i64, i64, i64, i64), Defect>)
    ensures
        match r {
            Ok(b) => v@.len() > 0 && bounds(points_view(v@)) == (
                b.0 as int,
                b.1 as int,
                b.2 as int,
                b.3 as int,
            ),
            Err(d) => v@.len() == 0 && d == Defect::Bounds,
        },
{
    if v.len() == 0 {
        return Err(Defect::Bounds);
    }
    let ghost s = points_view(v@);
    let first = v[0];
    let mut lo_x = first.x;
    let mut lo_y = first.y;
    let mut hi_x = first.x;
    let mut hi_y = first.y;
    proof {
        assert(s.subrange(0, 1).len() == 1);
        assert(s.subrange(0, 1)[0] == s[0]);
    }
    let mut k: usize = 1;
    while k < v.len()
        invariant
            1 <= k <= v@.len(),
            s == points_view(v@),
            s.len() == v@.len(),
            bounds(s.subrange(0, k as int)) == (lo_x as int, lo_y as int, hi_x as int, hi_y as int),
        decreases v.len() - k,
    {
        let p = v[k];
        proof {
            let t = s.subrange(0, k + 1 as int);
            assert(t.drop_last() =~= s.subrange(0, k as int));
            assert(t.last() == s[k as int]);
            assert(s[k as int] == (p.x as int, p.y as int));
        }
        if p.x < lo_x {
            lo_x = p.x;
        }
        if p.y < lo_y {
            lo_y = p.y;
        }
        if p.x > hi_x {
            hi_x = p.x;
        }
        if p.y > hi_y {
            hi_y = p.y;
        }
        k = k + 1;
    }
    proof {
        assert(s.subrange(0, s.len() as int) =~= s);
    }
    Ok((lo_x, lo_y, hi_x, hi_y))
}

/// Normalize a vertex list in place: after the call its bounding box is
/// exactly `[-fraction, fraction]` on each axis. A degenerate input —
/// no vertices, or a zero-extent box — is reported and the list is left
/// as it was.
pub fn normalize(v: &mut Vec<Point>, fraction: i64) -> (r: Result<(), Defect>)
    requires
        0 <= fraction <= COORD_LIMIT,
        forall|j: int| 0 <= j < old(v)@.len() ==> point_in_range(#[trigger] old(v)@[j]),
    ensures
        forall|j: int| 0 <= j < final(v)@.len() ==> point_in_range(#[trigger] final(v)@[j]),
        match r {
            Ok(u) => normalize_spec(points_view(old(v)@), fraction as int) == Ok::<_, Defect>(
                points_view(final(v)@),
            ) && final(v)@.len() == old(v)@.len(),
            Err(d) => normalize_spec(points_view(old(v)@), fraction as int) == Err::<
                Seq<(int, int)>,
                Defect,
            >(d) && final(v)@ == old(v)@,
        },
{
    let ghost s = points_view(old(v)@);
    let b = match bounding_box(v) {
        Ok(b) => b,
        Err(d) => {
            return Err(d);
        },
    };
    let (lo_x, lo_y, hi_x, hi_y) = b;
    proof {
        lemma_bounds_character(s);
        assert(s[0] == (old(v)@[0].x as int, old(v)@[0].y as int));
    }
    let w_x = hi_x - lo_x;
    let w_y = hi_y - lo_y;
    if w_x == 0 || w_y == 0 {
        return Err(Defect::Bounds);
    }
    let ghost mapped = s.map_values(
        |p: (int, int)|
            (
                scale_coord(p.0, lo_x as int, w_x as int, fraction as int),
                scale_coord(p.1, lo_y as int, w_y as int, fraction as int),
            ),
    );
    let mut j: usize = 0;
    while j < v.len()
        invariant
            j <= v@.len(),
            v@.len() == old(v)@.len(),
            s == points_view(old(v)@),
            s.len() == old(v)@.len(),
            0 <= fraction <= COORD_LIMIT,
            coord_in_range(lo_x as int),
            coord_in_range(lo_y as int),
            1 <= w_x <= 0x200000000,
            1 <= w_y <= 0x200000000,
            forall|i: int|
                0 <= i < s.len() ==> lo_x <= (#[trigger] s[i]).0 <= lo_x + w_x && lo_y <= s[i].1
                    <= lo_y + w_y,
            mapped == s.map_values(
                |p: (int, int)|
                    (
                        scale_coord(p.0, lo_x as int, w_x as int, fraction as int),
                        scale_coord(p.1, lo_y as int, w_y as int, fraction as int),
                    ),
            ),
            forall|i: int| j <= i < v@.len() ==> #[trigger] v@[i] == old(v)@[i],
            forall|i: int|
                0 <= i < j ==> ((#[trigger] v@[i]).x as int, v@[i].y as int) == mapped[i],
            forall|i: int| 0 <= i < j ==> -fraction <= (#[trigger] v@[i]).x <= fraction
                && -fraction <= v@[i].y <= fraction,
        decreases v.len() - j,
    {
        let p = v[j];
        proof {
            assert(s[j as int] == (old(v)@[j as int].x as int, old(v)@[j as int].y as int));
        }
        let nx = scale_value(p.x, lo_x, w_x, fraction);
        let ny = scale_value(p.y, lo_y, w_y, fraction);
        v.set(j, Point { x: nx, y: ny });
        j = j + 1;
    }
    proof {
        assert(points_view(v@) =~= mapped);
        assert(forall|i: int| 0 <= i < v@.len() ==> point_in_range(#[trigger] v@[i]));
    }
    Ok(())
}

/// After a successful `normalize`, the bounding box of the result is
/// exactly `[-f, f]` on both axes.
pub proof fn lemma_normalize_bounds(s: Seq<(int, int)>, f: int, out: Seq<(int, int)>)
    requires
        0 <= f,
        normalize_spec(s, f) == Ok::<Seq<(int, int)>, Defect>(out),
    ensures
        out.len() == s.len(),
        s.len() > 0,
        bounds(out) == (-f, -f, f, f),
{
    let b = bounds(s);
    let w_x = b.2 - b.0;
    let w_y = b.3 - b.1;
    lemma_bounds_character(s);
    assert(w_x >= 1 && w_y >= 1);
    assert forall|j: int| 0 <= j < out.len() implies -f <= (#[trigger] out[j]).0 <= f && -f
        <= out[j].1 <= f by {
        assert(out[j] == (scale_coord(s[j].0, b.0, w_x, f), scale_coord(s[j].1, b.1, w_y, f)));
        lemma_scale_bounds(s[j].0, b.0, w_x, f);
        lemma_scale_bounds(s[j].1, b.1, w_y, f);
    }
    let jx = choose|j: int| 0 <= j < s.len() && (#[trigger] s[j]).0 == b.0;
    assert(out[jx].0 == -f) by {
        assert(out[jx] == (scale_coord(s[jx].0, b.0, w_x, f), scale_coord(s[jx].1, b.1, w_y, f)));
        lemma_scale_bounds(s[jx].0, b.0, w_x, f);
    }
    let jy = choose|j: int| 0 <= j < s.len() && (#[trigger] s[j]).1 == b.1;
    assert(out[jy].1 == -f) by {
        assert(out[jy] == (scale_coord(s[jy].0, b.0, w_x, f), scale_coord(s[jy].1, b.1, w_y, f)));
        lemma_scale_bounds(s[jy].1, b.1, w_y, f);
    }
    let kx = choose|j: int| 0 <= j < s.len() && (#[trigger] s[j]).0 == b.2;
    assert(out[kx].0 == f) by {
        assert(out[kx] == (scale_coord(s[kx].0, b.0, w_x, f), scale_coord(s[kx].1, b.1, w_y, f)));
        lemma_scale_bounds(s[kx].0, b.0, w_x, f);
    }
    let ky = choose|j: int| 0 <= j < s.len() && (#[trigger] s[j]).1 == b.3;
    assert(out[ky].1 == f) by {
        assert(out[ky] == (scale_coord(s[ky].0, b.0, w_x, f), scale_coord(s[ky].1, b.1, w_y, f)));
        lemma_scale_bounds(s[ky].1, b.1, w_y, f);
    }
    lemma_bounds_character(out);
    let m = bounds(out);
    let w0 = choose|j: int| 0 <= j < out.len() && (#[trigger] out[j]).0 == m.0;
    let w1 = choose|j: int| 0 <= j < out.len() && (#[trigger] out[j]).1 == m.1;
    let w2 = choose|j: int| 0 <= j < out.len() && (#[trigger] out[j]).0 == m.2;
    let w3 = choose|j: int| 0 <= j < out.len() && (#[trigger] out[j]).1 == m.3;
    assert(m.0 == -f && m.1 == -f && m.2 == f && m.3 == f);
}

}
