//! The multi-point curve evaluator: for each of 1001 parameter samples it
//! repeatedly applies pairwise linear interpolation (the de Casteljau
//! construction) until one point remains, rounds that point to a pixel,
//! and appends it unless the very same pixel was already emitted.
//!
//! Intermediate points are held in fixed-point form, `CURVE_SCALE`
//! sub-units per grid unit, and every interpolation rounds to the nearest
//! sub-unit (ties away from zero).

use crate::arith::{
    iabs, imax, imin, lemma_round_div_bounds, lemma_round_div_exact, mul_add_i128, round_div,
    round_div_i128,
};
use crate::logger::Logger;
use crate::pixel::{px, Pixel};
use vstd::arithmetic::div_mod::{
    lemma_fundamental_div_mod, lemma_fundamental_div_mod_converse, lemma_mod_bound,
    lemma_mod_multiples_basic,
};
use vstd::prelude::*;
use vstd::string::StringExecFns;

verus! {

/// Fixed-point sub-units per grid unit for intermediate curve points.
pub const CURVE_SCALE: i64 = 0x10_0000;

/// Linear interpolation from `a` to `b` at parameter `t / 1000`, rounded
/// to the nearest fixed-point sub-unit (ties away from zero).
pub open spec fn lerp1000(a: int, b: int, t: int) -> int {
    round_div(a * (1000 - t) + b * t, 1000)
}

/// One round of pairwise interpolation over a point list.
pub open spec fn reduce_once(pts: Seq<(int, int)>, t: int) -> Seq<(int, int)> {
    Seq::new(
        (pts.len() - 1) as nat,
        |i: int| (lerp1000(pts[i].0, pts[i + 1].0, t), lerp1000(pts[i].1, pts[i + 1].1, t)),
    )
}

/// Pairwise interpolation repeated until a single point remains.
pub open spec fn reduce_full(pts: Seq<(int, int)>, t: int) -> (int, int)
    recommends
        pts.len() >= 1,
    decreases pts.len(),
{
    if pts.len() <= 1 {
        if pts.len() == 1 {
            pts[0]
        } else {
            (0, 0)
        }
    } else {
        reduce_full(reduce_once(pts, t), t)
    }
}

/// The control points in fixed-point form.
pub open spec fn scaled_points(pts: Seq<Pixel>) -> Seq<(int, int)> {
    Seq::new(pts.len(), |i: int| (pts[i].x * CURVE_SCALE, pts[i].y * CURVE_SCALE))
}

/// The curve point at parameter `t / 1000`, rounded to the nearest pixel.
pub open spec fn curve_sample(pts: Seq<Pixel>, t: int) -> Pixel {
    let p = reduce_full(scaled_points(pts), t);
    px(round_div(p.0, CURVE_SCALE as int), round_div(p.1, CURVE_SCALE as int))
}

/// Keeps the first occurrence of every element, in order.
pub open spec fn dedup(s: Seq<Pixel>) -> Seq<Pixel>
    decreases s.len(),
{
    if s.len() == 0 {
        Seq::empty()
    } else {
        let rest = dedup(s.drop_last());
        if rest.contains(s.last()) {
            rest
        } else {
            rest.push(s.last())
        }
    }
}

/// Everything `castle_pitway` returns: the deduplicated sequence of the
/// 1001 curve samples, or nothing when fewer than two control points are
/// supplied.
pub open spec fn castle_pitway_pixels(pts: Seq<Pixel>) -> Seq<Pixel> {
    if pts.len() < 2 {
        Seq::empty()
    } else {
        dedup(Seq::new(1001, |t: int| curve_sample(pts, t)))
    }
}

/// An interpolated fixed-point value stays between its two inputs.
pub proof fn lemma_lerp_bounds(a: int, b: int, t: int)
    requires
        0 <= t <= 1000,
    ensures
        imin(a, b) <= lerp1000(a, b, t) <= imax(a, b),
{
    assert(a * (1000 - t) + b * t == a * 1000 + t * (b - a)) by (nonlinear_arith);
    crate::line::lemma_interp_bounds(a, b - a, 1000, t);
}

/// Interpolation at the ends returns the inputs exactly.
pub proof fn lemma_lerp_ends(a: int, b: int)
    ensures
        lerp1000(a, b, 0) == a,
        lerp1000(a, b, 1000) == b,
{
    assert(a * (1000 - 0) + b * 0 == a * 1000) by (nonlinear_arith);
    assert(a * (1000 - 1000) + b * 1000 == b * 1000) by (nonlinear_arith);
    lemma_round_div_exact(a, 1000);
    lemma_round_div_exact(b, 1000);
}

/// The fully reduced point at parameter 0 is the first control point.
pub proof fn lemma_reduce_full_at_0(pts: Seq<(int, int)>)
    requires
        pts.len() >= 1,
    ensures
        reduce_full(pts, 0) == pts[0],
    decreases pts.len(),
{
    if pts.len() >= 2 {
        assert forall|i: int| 0 <= i < pts.len() - 1 implies reduce_once(pts, 0)[i] == pts[i] by {
            lemma_lerp_ends(pts[i].0, pts[i + 1].0);
            lemma_lerp_ends(pts[i].1, pts[i + 1].1);
        }
        lemma_reduce_full_at_0(reduce_once(pts, 0));
    }
}

/// The fully reduced point at parameter 1000 is the last control point.
pub proof fn lemma_reduce_full_at_1000(pts: Seq<(int, int)>)
    requires
        pts.len() >= 1,
    ensures
        reduce_full(pts, 1000) == pts.last(),
    decreases pts.len(),
{
    if pts.len() >= 2 {
        assert forall|i: int| 0 <= i < pts.len() - 1 implies reduce_once(pts, 1000)[i] == pts[i
            + 1] by {
            lemma_lerp_ends(pts[i].0, pts[i + 1].0);
            lemma_lerp_ends(pts[i].1, pts[i + 1].1);
        }
        lemma_reduce_full_at_1000(reduce_once(pts, 1000));
        assert(reduce_once(pts, 1000).last() == pts.last());
    }
}

/// The curve starts at the first control point and ends at the last one:
/// sample 0 is the first control point and sample 1000 the last.
pub proof fn lemma_curve_endpoints(pts: Seq<Pixel>)
    requires
        pts.len() >= 2,
    ensures
        curve_sample(pts, 0) == pts[0],
        curve_sample(pts, 1000) == pts.last(),
{
    let sp = scaled_points(pts);
    lemma_reduce_full_at_0(sp);
    lemma_reduce_full_at_1000(sp);
    lemma_round_div_exact(pts[0].x as int, CURVE_SCALE as int);
    lemma_round_div_exact(pts[0].y as int, CURVE_SCALE as int);
    lemma_round_div_exact(pts.last().x as int, CURVE_SCALE as int);
    lemma_round_div_exact(pts.last().y as int, CURVE_SCALE as int);
}

/// With exactly two control points the evaluator degenerates to a single
/// linear interpolation: every sample is the rounding of the straight
/// line's fixed-point interpolant between the two points.
pub proof fn lemma_curve_two_points(pts: Seq<Pixel>, t: int)
    requires
        pts.len() == 2,
    ensures
        curve_sample(pts, t) == px(
            round_div(
                lerp1000(pts[0].x * CURVE_SCALE, pts[1].x * CURVE_SCALE, t),
                CURVE_SCALE as int,
            ),
            round_div(
                lerp1000(pts[0].y * CURVE_SCALE, pts[1].y * CURVE_SCALE, t),
                CURVE_SCALE as int,
            ),
        ),
{
    let sp = scaled_points(pts);
    let once = reduce_once(sp, t);
    assert(once.len() == 1);
    assert(reduce_full(sp, t) == reduce_full(once, t));
    assert(reduce_full(once, t) == once[0]);
}

/// Rounding to the nearest fixed-point sub-unit first and to the nearest
/// pixel second equals rounding the exact thousandth directly.  The
/// sub-unit grid is a power of two and far finer than the thousandths, so
/// the first rounding can neither cross a pixel midpoint nor create one:
/// a midpoint on the sub-unit grid is hit exactly, and both roundings
/// resolve that tie away from zero.
pub proof fn lemma_fixed_point_unscale(n: int)
    ensures
        round_div(round_div(CURVE_SCALE * n, 1000), CURVE_SCALE as int) == round_div(n, 1000),
{
    let s = CURVE_SCALE as int;
    let q = n / 1000;
    let rho = n % 1000;
    lemma_fundamental_div_mod(n, 1000);
    lemma_mod_bound(n, 1000);
    if rho == 500 {
        // the exact value is a pixel midpoint, hit exactly on the sub-unit
        // grid; both roundings resolve the tie away from zero
        assert(s * n == (s * q + 524288) * 1000) by (nonlinear_arith)
            requires
                n == 1000 * q + 500,
                s == 0x10_0000,
        ;
        lemma_round_div_exact(s * q + 524288, 1000);
        let r1 = s * q + 524288;
        if q >= 0 {
            assert(2 * r1 + s == (q + 1) * (2 * s)) by (nonlinear_arith)
                requires
                    r1 == s * q + 524288,
                    s == 0x10_0000,
            ;
            lemma_fundamental_div_mod_converse(2 * r1 + s, 2 * s, q + 1, 0);
            assert(s * q >= 0) by (nonlinear_arith)
                requires
                    q >= 0,
                    s >= 1,
            ;
            lemma_fundamental_div_mod_converse(2 * n + 1000, 2000, q + 1, 0);
        } else {
            assert(2 * (-r1) + s == (-q) * (2 * s)) by (nonlinear_arith)
                requires
                    r1 == s * q + 524288,
                    s == 0x10_0000,
            ;
            lemma_fundamental_div_mod_converse(2 * (-r1) + s, 2 * s, -q, 0);
            assert(s * q <= -s) by (nonlinear_arith)
                requires
                    q <= -1,
                    s >= 1,
            ;
            lemma_fundamental_div_mod_converse(2 * (-n) + 1000, 2000, -q, 0);
        }
    } else {
        let r = round_div(n, 1000);
        let r1 = round_div(s * n, 1000);
        crate::arith::lemma_round_div_char(n, 1000);
        crate::arith::lemma_round_div_char(s * n, 1000);
        // the direct bracket is strict: a boundary would mean rho == 500
        if 2 * n == 2 * 1000 * r - 1000 {
            lemma_fundamental_div_mod_converse(n, 1000, r - 1, 500);
            assert(false);
        }
        if 2 * n == 2 * 1000 * r + 1000 {
            lemma_fundamental_div_mod_converse(n, 1000, r, 500);
            assert(false);
        }
        // the sub-unit bracket is strict too: the scaled value is a
        // multiple of eight, while a boundary would make it four modulo
        // eight
        assert(s * n == (131072 * n) * 8) by (nonlinear_arith)
            requires
                s == 0x10_0000,
        ;
        lemma_mod_multiples_basic(131072 * n, 8);
        if 2 * (s * n) == 2 * 1000 * r1 - 1000 {
            assert(s * n == (125 * r1 - 63) * 8 + 4) by (nonlinear_arith)
                requires
                    s * n == 1000 * r1 - 500,
            ;
            lemma_fundamental_div_mod_converse(s * n, 8, 125 * r1 - 63, 4);
            assert(false);
        }
        if 2 * (s * n) == 2 * 1000 * r1 + 1000 {
            assert(s * n == (125 * r1 + 62) * 8 + 4) by (nonlinear_arith)
                requires
                    s * n == 1000 * r1 + 500,
            ;
            lemma_fundamental_div_mod_converse(s * n, 8, 125 * r1 + 62, 4);
            assert(false);
        }
        // the sub-unit rounding sits strictly inside the pixel-midpoint
        // bracket, so the second rounding lands on the direct result
        assert(2 * s * r - s < 2 * r1 && 2 * r1 < 2 * s * r + s) by (nonlinear_arith)
            requires
                s == 0x10_0000,
                2 * 1000 * r - 1000 < 2 * n < 2 * 1000 * r + 1000,
                2 * 1000 * r1 - 1000 < 2 * (s * n) < 2 * 1000 * r1 + 1000,
        ;
        crate::line::lemma_round_div_unique(r1, s, r);
    }
}

/// With exactly two control points every sample is the ideal straight
/// line's interpolant rounded directly to the nearest pixel: the
/// fixed-point intermediate never shifts the result.
pub proof fn lemma_curve_two_points_exact(pts: Seq<Pixel>, t: int)
    requires
        pts.len() == 2,
        0 <= t <= 1000,
    ensures
        curve_sample(pts, t) == px(
            round_div(pts[0].x * (1000 - t) + pts[1].x * t, 1000),
            round_div(pts[0].y * (1000 - t) + pts[1].y * t, 1000),
        ),
{
    lemma_curve_two_points(pts, t);
    let nx = pts[0].x * (1000 - t) + pts[1].x * t;
    let ny = pts[0].y * (1000 - t) + pts[1].y * t;
    assert((pts[0].x * CURVE_SCALE) * (1000 - t) + (pts[1].x * CURVE_SCALE) * t == CURVE_SCALE * nx)
        by (nonlinear_arith)
        requires
            nx == pts[0].x * (1000 - t) + pts[1].x * t,
    ;
    assert((pts[0].y * CURVE_SCALE) * (1000 - t) + (pts[1].y * CURVE_SCALE) * t == CURVE_SCALE * ny)
        by (nonlinear_arith)
        requires
            ny == pts[0].y * (1000 - t) + pts[1].y * t,
    ;
    lemma_fixed_point_unscale(nx);
    lemma_fixed_point_unscale(ny);
}

/// What `dedup` keeps: every element exactly once, first occurrences in
/// order, never more entries than the input has.
pub proof fn lemma_dedup_distinct(s: Seq<Pixel>)
    ensures
        dedup(s).len() <= s.len(),
        forall|i: int, j: int| 0 <= i < j < dedup(s).len() ==> dedup(s)[i] != dedup(s)[j],
        forall|p: Pixel| dedup(s).contains(p) <==> s.contains(p),
    decreases s.len(),
{
    if s.len() == 0 {
    } else {
        let rest = dedup(s.drop_last());
        lemma_dedup_distinct(s.drop_last());
        assert forall|p: Pixel| s.contains(p) implies dedup(s).contains(p) by {
            if p == s.last() {
                if rest.contains(p) {
                } else {
                    assert(dedup(s).last() == p);
                }
            } else {
                let k = choose|k: int| 0 <= k < s.len() && s[k] == p;
                if k < s.len() - 1 {
                    assert(s.drop_last()[k] == p);
                    assert(s.drop_last().contains(p));
                    let k2 = choose|k2: int| 0 <= k2 < rest.len() && rest[k2] == p;
                    assert(dedup(s)[k2] == p);
                } else {
                    assert(p == s.last());
                }
            }
        }
        assert forall|p: Pixel| dedup(s).contains(p) implies s.contains(p) by {
            if rest.contains(p) {
                assert(s.drop_last().contains(p));
                let k = choose|k: int| 0 <= k < s.drop_last().len() && s.drop_last()[k] == p;
                assert(s[k] == p);
            } else {
                assert(p == s.last());
                assert(s[s.len() - 1] == p);
            }
        }
    }
}

/// Where two samples coincide, deduplication shortens the output strictly.
pub proof fn lemma_dedup_shrinks(s: Seq<Pixel>)
    requires
        exists|i: int, j: int| 0 <= i < j < s.len() && s[i] == s[j],
    ensures
        dedup(s).len() < s.len(),
    decreases s.len(),
{
    let (i, j) = choose|i: int, j: int| 0 <= i < j < s.len() && s[i] == s[j];
    let rest = dedup(s.drop_last());
    lemma_dedup_distinct(s.drop_last());
    if j == s.len() - 1 {
        assert(s.drop_last()[i] == s.last());
        assert(s.drop_last().contains(s.last()));
        assert(rest.contains(s.last()));
        assert(dedup(s) == rest);
    } else {
        assert(s.drop_last()[i] == s.drop_last()[j]);
        lemma_dedup_shrinks(s.drop_last());
    }
}

/// Whether `v` already holds the pixel `p`.
fn contains_pixel(v: &Vec<Pixel>, p: Pixel) -> (r: bool)
    ensures
        r == v@.contains(p),
{
    let mut k: usize = 0;
    while k < v.len()
        invariant
            0 <= k <= v@.len(),
            forall|j: int| 0 <= j < k as int ==> v@[j] != p,
        decreases v@.len() - k,
    {
        if v[k] == p {
            return true;
        }
        k = k + 1;
    }
    false
}

/// The working points of one sample evaluation, as mathematical pairs.
pub open spec fn work_view(v: Seq<(i64, i64)>) -> Seq<(int, int)> {
    Seq::new(v.len(), |i: int| (v[i].0 as int, v[i].1 as int))
}

/// All working coordinates stay within the scaled pixel range.
pub open spec fn work_bounded(v: Seq<(int, int)>) -> bool {
    forall|i: int|
        0 <= i < v.len() ==> -0x8000_0000 * (CURVE_SCALE as int) <= #[trigger] v[i].0 <= 0x7fff_ffff
            * (CURVE_SCALE as int) && -0x8000_0000 * (CURVE_SCALE as int) <= v[i].1 <= 0x7fff_ffff
            * (CURVE_SCALE as int)
}

/// Builds the trace line for one sampled parameter.
fn trace_curve_message(t: i64) -> (r: String) {
    String::from_str("t = ").concat(t.to_string().as_str()).concat(" / 1000")
}

/// The multi-point curve evaluator: 1001 parameter samples, each reduced
/// by repeated pairwise interpolation to one point, rounded to a pixel and
/// kept only on its first occurrence.  Fewer than two control points yield
/// an empty result and no trace.
#[verifier::loop_isolation(false)]
pub fn castle_pitway<L: Logger>(points: &Vec<Pixel>, logger: &mut L) -> (r: Vec<Pixel>)
    ensures
        r@ == castle_pitway_pixels(points@),
        final (logger).writes() == old(logger).writes(),
        !old(logger).writes() ==> final (logger).trace() == old(logger).trace(),
        old(logger).trace().is_prefix_of(final (logger).trace()),
        points@.len() < 2 ==> final (logger).trace() == old(logger).trace(),
{
    let mut out: Vec<Pixel> = Vec::new();
    if points.len() < 2 {
        return out;
    }
    let mut t: i64 = 0;
    while t <= 1000
        invariant
            0 <= t <= 1001,
            out@ == dedup(Seq::new(t as nat, |j: int| curve_sample(points@, j))),
            logger.writes() == old(logger).writes(),
            !old(logger).writes() ==> logger.trace() == old(logger).trace(),
            old(logger).trace().is_prefix_of(logger.trace()),
        decreases 1001 - t,
    {
        if logger.can_write() && t % 100 == 0 {
            let msg = trace_curve_message(t);
            let ghost m = msg@;
            let ghost prev = logger.trace();
            logger.log(msg);
            proof {
                crate::logger::lemma_trace_prefix_log(old(logger).trace(), prev, m, logger.trace());
            }
        }
        // the control points in fixed-point form
        let mut work: Vec<(i64, i64)> = Vec::new();
        let mut k: usize = 0;
        while k < points.len()
            invariant
                0 <= k <= points@.len(),
                work@.len() == k as int,
                forall|j: int|
                    0 <= j < k as int ==> work_view(work@)[j] == scaled_points(points@)[j],
            decreases points@.len() - k,
        {
            let p = points[k];
            work.push((p.x as i64 * CURVE_SCALE, p.y as i64 * CURVE_SCALE));
            k = k + 1;
        }
        proof {
            assert(work_view(work@) =~= scaled_points(points@));
            assert(work_bounded(work_view(work@)));
        }
        // repeated pairwise interpolation down to a single point
        while work.len() > 1
            invariant
                1 <= work@.len(),
                work_bounded(work_view(work@)),
                reduce_full(work_view(work@), t as int) == reduce_full(
                    scaled_points(points@),
                    t as int,
                ),
            decreases work@.len(),
        {
            let mut next: Vec<(i64, i64)> = Vec::new();
            let mut j: usize = 0;
            while j + 1 < work.len()
                invariant
                    0 <= j as int <= work@.len() - 1,
                    work@.len() >= 2,
                    work_bounded(work_view(work@)),
                    next@.len() == j as int,
                    work_bounded(work_view(next@)),
                    forall|q: int|
                        0 <= q < j as int ==> work_view(next@)[q] == reduce_once(
                            work_view(work@),
                            t as int,
                        )[q],
                decreases work@.len() - j,
            {
                let a = work[j];
                let b = work[j + 1];
                proof {
                    assert(work_view(work@)[j as int].0 == a.0 as int && work_view(work@)[j as int].1
                        == a.1 as int);
                    assert(work_view(work@)[j as int + 1].0 == b.0 as int && work_view(
                        work@,
                    )[j as int + 1].1 == b.1 as int);
                }
                let numx: i128 = mul_add_i128(
                    a.0 as i128,
                    1000 - t as i128,
                    b.0 as i128,
                    t as i128,
                );
                let numy: i128 = mul_add_i128(
                    a.1 as i128,
                    1000 - t as i128,
                    b.1 as i128,
                    t as i128,
                );
                let lx: i128 = round_div_i128(numx, 1000);
                let ly: i128 = round_div_i128(numy, 1000);
                proof {
                    lemma_lerp_bounds(a.0 as int, b.0 as int, t as int);
                    lemma_lerp_bounds(a.1 as int, b.1 as int, t as int);
                }
                let ghost oldnext = next@;
                next.push((lx as i64, ly as i64));
                proof {
                    assert forall|q: int| 0 <= q < oldnext.len() implies work_view(next@)[q]
                        == work_view(oldnext)[q] by {
                        assert(next@[q] == oldnext[q]);
                    }
                    assert(work_view(next@)[oldnext.len() as int].0 == lx as int && work_view(
                        next@,
                    )[oldnext.len() as int].1 == ly as int);
                    assert(work_view(next@)[oldnext.len() as int] == (lx as int, ly as int));
                    assert(reduce_once(work_view(work@), t as int)[j as int] == (
                        lerp1000(a.0 as int, b.0 as int, t as int),
                        lerp1000(a.1 as int, b.1 as int, t as int),
                    ));
                }
                j = j + 1;
                proof {
                    assert forall|q: int| 0 <= q < j as int implies work_view(next@)[q]
                        == reduce_once(work_view(work@), t as int)[q] by {
                        if q < j as int - 1 {
                            assert(work_view(next@)[q] == work_view(oldnext)[q]);
                        } else {
                            assert(work_view(next@)[q] == (lx as int, ly as int));
                        }
                    }
                    assert forall|i: int| 0 <= i < next@.len() implies -0x8000_0000 * (
                    CURVE_SCALE as int) <= #[trigger] work_view(next@)[i].0 <= 0x7fff_ffff * (
                    CURVE_SCALE as int) && -0x8000_0000 * (CURVE_SCALE as int) <= work_view(
                        next@,
                    )[i].1 <= 0x7fff_ffff * (CURVE_SCALE as int) by {
                        if i < next@.len() - 1 {
                            assert(work_view(next@)[i] == work_view(oldnext)[i]);
                            assert(-0x8000_0000 * (CURVE_SCALE as int) <= work_view(oldnext)[i].0
                                <= 0x7fff_ffff * (CURVE_SCALE as int));
                            assert(-0x8000_0000 * (CURVE_SCALE as int) <= work_view(oldnext)[i].1
                                <= 0x7fff_ffff * (CURVE_SCALE as int));
                        } else {
                            assert(work_view(next@)[i] == (lx as int, ly as int));
                        }
                    }
                    assert(work_bounded(work_view(next@)));
                }
            }
            proof {
                assert(work_view(next@) =~= reduce_once(work_view(work@), t as int));
            }
            work = next;
        }
        let p = work[0];
        let vx: i128 = round_div_i128(p.0 as i128, CURVE_SCALE as i128);
        let vy: i128 = round_div_i128(p.1 as i128, CURVE_SCALE as i128);
        proof {
            lemma_round_div_bounds(
                p.0 as int,
                CURVE_SCALE as int,
                -0x8000_0000,
                0x7fff_ffff,
            );
            lemma_round_div_bounds(
                p.1 as int,
                CURVE_SCALE as int,
                -0x8000_0000,
                0x7fff_ffff,
            );
        }
        let sample = Pixel { x: vx as i32, y: vy as i32 };
        let ghost prefix = Seq::new(t as nat, |j: int| curve_sample(points@, j));
        let ghost prefix2 = Seq::new((t + 1) as nat, |j: int| curve_sample(points@, j));
        proof {
            assert(sample == curve_sample(points@, t as int));
            assert(prefix2.drop_last() =~= prefix);
            assert(prefix2.last() == curve_sample(points@, t as int));
        }
        if !contains_pixel(&out, sample) {
            out.push(sample);
        }
        t = t + 1;
    }
    proof {
        assert(Seq::new(1001, |j: int| curve_sample(points@, j)) =~= Seq::new(
            t as nat,
            |j: int| curve_sample(points@, j),
        ));
    }
    out
}

} // verus!
