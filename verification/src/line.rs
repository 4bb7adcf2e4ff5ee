//! The integer line rasterizers: direct evaluation (`step_by_step`), the
//! digital differential analyzer (`dda`), and the Bresenham midpoint
//! algorithm (`bresenham_line`).  Each result is pinned down exactly by a
//! specification function over the endpoints.

use crate::arith::{
    abs_i64, iabs, imax, imin, lemma_round_div_bounds, lemma_round_div_exact, round_div,
    round_div_i128, round_rat, round_rat_i128, step_dir,
};
use vstd::arithmetic::div_mod::{lemma_div_is_ordered, lemma_fundamental_div_mod};
use crate::logger::Logger;
use crate::pixel::{px, Pixel};
use vstd::prelude::*;
use vstd::string::StringExecFns;

verus! {

/// The dependent coordinate of the line through `(c1, d1)` and `(c2, d2)`,
/// evaluated at dominant coordinate `t` and rounded to the nearest integer
/// (ties away from zero): the nearest integer to `d1 + (d2-d1)*(t-c1)/(c2-c1)`.
pub open spec fn line_value(c1: int, d1: int, c2: int, d2: int, t: int) -> int
    recommends
        c1 != c2,
{
    round_rat(d1 * (c2 - c1) + (d2 - d1) * (t - c1), c2 - c1)
}

/// How many pixels `step_by_step` emits: one per integer coordinate along
/// the dominant axis, and one for a degenerate (coincident) pair.
pub open spec fn step_by_step_len(p1: Pixel, p2: Pixel) -> nat {
    (imax(iabs(p2.x - p1.x), iabs(p2.y - p1.y)) + 1) as nat
}

/// The pixel `step_by_step` emits at position `i`, walking the dominant
/// axis from its smaller endpoint coordinate to its larger.
pub open spec fn step_by_step_pixel(p1: Pixel, p2: Pixel, i: int) -> Pixel {
    let dx = p2.x - p1.x;
    let dy = p2.y - p1.y;
    if iabs(dx) > iabs(dy) {
        let t = imin(p1.x as int, p2.x as int) + i;
        px(t, line_value(p1.x as int, p1.y as int, p2.x as int, p2.y as int, t))
    } else if dy != 0 {
        let t = imin(p1.y as int, p2.y as int) + i;
        px(line_value(p1.y as int, p1.x as int, p2.y as int, p2.x as int, t), t)
    } else {
        p1
    }
}

/// Everything `step_by_step` returns, in order.
pub open spec fn step_by_step_pixels(p1: Pixel, p2: Pixel) -> Seq<Pixel> {
    Seq::new(step_by_step_len(p1, p2), |i: int| step_by_step_pixel(p1, p2, i))
}

/// A rounded line evaluation between two endpoints stays between the
/// endpoints' dependent coordinates.
pub proof fn lemma_line_value_bounds(c1: int, d1: int, c2: int, d2: int, t: int)
    requires
        c1 != c2,
        imin(c1, c2) <= t <= imax(c1, c2),
    ensures
        imin(d1, d2) <= line_value(c1, d1, c2, d2, t) <= imax(d1, d2),
{
    let den = c2 - c1;
    let num = d1 * den + (d2 - d1) * (t - c1);
    let lo = imin(d1, d2);
    let hi = imax(d1, d2);
    if den > 0 {
        assert(lo * den <= num && num <= hi * den) by (nonlinear_arith)
            requires
                den == c2 - c1,
                num == d1 * den + (d2 - d1) * (t - c1),
                0 < den,
                0 <= t - c1 <= den,
                lo <= d1 <= hi,
                lo <= d2 <= hi,
                lo == imin(d1, d2),
                hi == imax(d1, d2),
        ;
        lemma_round_div_bounds(num, den, lo, hi);
    } else {
        assert(lo * (-den) <= -num && -num <= hi * (-den)) by (nonlinear_arith)
            requires
                den == c2 - c1,
                num == d1 * den + (d2 - d1) * (t - c1),
                den < 0,
                den <= t - c1 <= 0,
                lo <= d1 <= hi,
                lo <= d2 <= hi,
                lo == imin(d1, d2),
                hi == imax(d1, d2),
        ;
        lemma_round_div_bounds(-num, -den, lo, hi);
    }
}

/// A line evaluated at an endpoint returns that endpoint's dependent
/// coordinate exactly.
pub proof fn lemma_line_value_ends(c1: int, d1: int, c2: int, d2: int)
    requires
        c1 != c2,
    ensures
        line_value(c1, d1, c2, d2, c1) == d1,
        line_value(c1, d1, c2, d2, c2) == d2,
{
    let den = c2 - c1;
    assert((d2 - d1) * (c1 - c1) == 0) by (nonlinear_arith);
    assert(d1 * (c2 - c1) + (d2 - d1) * (c2 - c1) == d2 * (c2 - c1)) by (nonlinear_arith);
    if den > 0 {
        lemma_round_div_exact(d1, den);
        lemma_round_div_exact(d2, den);
    } else {
        assert(-(d1 * (c2 - c1)) == d1 * (-(c2 - c1))) by (nonlinear_arith);
        assert(-(d2 * (c2 - c1)) == d2 * (-(c2 - c1))) by (nonlinear_arith);
        lemma_round_div_exact(d1, -den);
        lemma_round_div_exact(d2, -den);
    }
}

/// The two endpoints of a rasterized line: `step_by_step` starts at the
/// endpoint with the smaller dominant coordinate and ends at the other.
pub proof fn lemma_step_by_step_endpoints(p1: Pixel, p2: Pixel)
    ensures
        step_by_step_pixels(p1, p2).len() >= 1,
        step_by_step_pixels(p1, p2).first() == if iabs(p2.x - p1.x) > iabs(p2.y - p1.y) {
            if p1.x <= p2.x {
                p1
            } else {
                p2
            }
        } else {
            if p1.y <= p2.y {
                p1
            } else {
                p2
            }
        },
        step_by_step_pixels(p1, p2).last() == if iabs(p2.x - p1.x) > iabs(p2.y - p1.y) {
            if p1.x <= p2.x {
                p2
            } else {
                p1
            }
        } else {
            if p1.y <= p2.y {
                p2
            } else {
                p1
            }
        },
{
    let dx = p2.x - p1.x;
    let dy = p2.y - p1.y;
    if iabs(dx) > iabs(dy) {
        lemma_line_value_ends(p1.x as int, p1.y as int, p2.x as int, p2.y as int);
    } else if dy != 0 {
        lemma_line_value_ends(p1.y as int, p1.x as int, p2.y as int, p2.x as int);
    }
}

/// How many increments `dda` makes: the larger coordinate span.
pub open spec fn dda_steps(p1: Pixel, p2: Pixel) -> int {
    imax(iabs(p2.x - p1.x), iabs(p2.y - p1.y))
}

/// The pixel `dda` emits at step `i`: both coordinates of
/// `p1 + i * (delta / steps)`, each rounded to the nearest integer (ties
/// away from zero).
pub open spec fn dda_pixel(p1: Pixel, p2: Pixel, i: int) -> Pixel {
    let s = dda_steps(p1, p2);
    if s == 0 {
        p1
    } else {
        px(
            round_div(p1.x * s + i * (p2.x - p1.x), s),
            round_div(p1.y * s + i * (p2.y - p1.y), s),
        )
    }
}

/// Everything `dda` returns, in order: one pixel per step, both endpoints
/// included.
pub open spec fn dda_pixels(p1: Pixel, p2: Pixel) -> Seq<Pixel> {
    Seq::new((dda_steps(p1, p2) + 1) as nat, |i: int| dda_pixel(p1, p2, i))
}

/// A rounded interpolant between `base` and `base + delta` stays between
/// the two.
pub proof fn lemma_interp_bounds(base: int, delta: int, s: int, i: int)
    requires
        s >= 1,
        0 <= i <= s,
    ensures
        imin(base, base + delta) <= round_div(base * s + i * delta, s) <= imax(base, base + delta),
{
    let lo = imin(base, base + delta);
    let hi = imax(base, base + delta);
    assert(lo * s <= base * s + i * delta && base * s + i * delta <= hi * s) by (nonlinear_arith)
        requires
            s >= 1,
            0 <= i <= s,
            lo == imin(base, base + delta),
            hi == imax(base, base + delta),
    ;
    lemma_round_div_bounds(base * s + i * delta, s, lo, hi);
}

/// `dda` starts exactly at the first endpoint and ends exactly at the
/// second.
pub proof fn lemma_dda_endpoints(p1: Pixel, p2: Pixel)
    ensures
        dda_pixels(p1, p2).len() >= 1,
        dda_pixels(p1, p2).first() == p1,
        dda_pixels(p1, p2).last() == p2,
{
    let s = dda_steps(p1, p2);
    if s != 0 {
        assert(p1.x * s + 0 * (p2.x - p1.x) == p1.x * s) by (nonlinear_arith);
        assert(p1.y * s + 0 * (p2.y - p1.y) == p1.y * s) by (nonlinear_arith);
        lemma_round_div_exact(p1.x as int, s);
        lemma_round_div_exact(p1.y as int, s);
        assert(p1.x * s + s * (p2.x - p1.x) == p2.x * s) by (nonlinear_arith);
        assert(p1.y * s + s * (p2.y - p1.y) == p2.y * s) by (nonlinear_arith);
        lemma_round_div_exact(p2.x as int, s);
        lemma_round_div_exact(p2.y as int, s);
    }
}

/// Builds the trace line for one `dda` step.
fn trace_dda_message(i: i64, x: i32, y: i32) -> (r: String) {
    String::from_str("step ")
        .concat(i.to_string().as_str())
        .concat(": pixel (")
        .concat(x.to_string().as_str())
        .concat(", ")
        .concat(y.to_string().as_str())
        .concat(")")
}

/// Digital differential analyzer: takes `max(|dx|, |dy|)` equal steps from
/// the first endpoint to the second, rounding both running coordinates to
/// the nearest integer at every step (ties away from zero).  Coincident
/// endpoints yield the single starting pixel.
#[verifier::loop_isolation(false)]
pub fn dda<L: Logger>(p1: Pixel, p2: Pixel, logger: &mut L) -> (r: Vec<Pixel>)
    ensures
        r@ == dda_pixels(p1, p2),
        final (logger).writes() == old(logger).writes(),
        !old(logger).writes() ==> final (logger).trace() == old(logger).trace(),
        old(logger).trace().is_prefix_of(final (logger).trace()),
{
    let mut pixels: Vec<Pixel> = Vec::new();
    let dx: i64 = p2.x as i64 - p1.x as i64;
    let dy: i64 = p2.y as i64 - p1.y as i64;
    let adx: i64 = abs_i64(dx);
    let ady: i64 = abs_i64(dy);
    let s: i64 = if adx > ady {
        adx
    } else {
        ady
    };
    let mut i: i64 = 0;
    while i <= s
        invariant
            0 <= i <= s + 1,
            pixels@.len() == i as int,
            forall|j: int| 0 <= j < i as int ==> pixels@[j] == dda_pixel(p1, p2, j),
            logger.writes() == old(logger).writes(),
            !old(logger).writes() ==> logger.trace() == old(logger).trace(),
            old(logger).trace().is_prefix_of(logger.trace()),
        decreases s - i + 1,
    {
        let p: Pixel;
        if s == 0 {
            p = p1;
        } else {
            let numx: i128 = crate::arith::mul_add_i128(
                p1.x as i128,
                s as i128,
                i as i128,
                dx as i128,
            );
            let numy: i128 = crate::arith::mul_add_i128(
                p1.y as i128,
                s as i128,
                i as i128,
                dy as i128,
            );
            let vx: i128 = round_div_i128(numx, s as i128);
            let vy: i128 = round_div_i128(numy, s as i128);
            proof {
                lemma_interp_bounds(p1.x as int, dx as int, s as int, i as int);
                lemma_interp_bounds(p1.y as int, dy as int, s as int, i as int);
            }
            p = Pixel { x: vx as i32, y: vy as i32 };
        }
        if logger.can_write() {
            let msg = trace_dda_message(i, p.x, p.y);
            let ghost m = msg@;
            let ghost prev = logger.trace();
            logger.log(msg);
            proof {
                crate::logger::lemma_trace_prefix_log(old(logger).trace(), prev, m, logger.trace());
            }
        }
        pixels.push(p);
        i = i + 1;
    }
    proof {
        assert(pixels@ =~= dda_pixels(p1, p2));
    }
    pixels
}

/// The minor-axis offset the Bresenham line has accumulated after `i`
/// steps along a dominant span `m`, with minor span `c`: the nearest
/// integer to `c * i / m`, ties rounded up.
pub open spec fn bres_minor(c: int, m: int, i: int) -> int
    recommends
        m >= 1,
{
    (2 * c * i + m) / (2 * m)
}

/// How many pixels `bresenham_line` emits: one per step along the dominant
/// axis, endpoints included.
pub open spec fn bresenham_len(p1: Pixel, p2: Pixel) -> nat {
    (imax(iabs(p2.x - p1.x), iabs(p2.y - p1.y)) + 1) as nat
}

/// The pixel `bresenham_line` emits at step `i`: the dominant coordinate
/// advances by one per step, the minor coordinate by the accumulated
/// error-term offset.
pub open spec fn bresenham_pixel(p1: Pixel, p2: Pixel, i: int) -> Pixel {
    let a = iabs(p2.x - p1.x);
    let b = iabs(p2.y - p1.y);
    let sx = step_dir(p1.x as int, p2.x as int);
    let sy = step_dir(p1.y as int, p2.y as int);
    if a == 0 && b == 0 {
        p1
    } else if a >= b {
        px(p1.x + sx * i, p1.y + sy * bres_minor(b, a, i))
    } else {
        px(p1.x + sx * bres_minor(a, b, i), p1.y + sy * i)
    }
}

/// Everything `bresenham_line` returns, in order.
pub open spec fn bresenham_pixels(p1: Pixel, p2: Pixel) -> Seq<Pixel> {
    Seq::new(bresenham_len(p1, p2), |i: int| bresenham_pixel(p1, p2, i))
}

/// The Bresenham minor offset starts at zero.
pub proof fn lemma_bres_minor_zero(c: int, m: int)
    requires
        m >= 1,
        c >= 0,
    ensures
        bres_minor(c, m, 0) == 0,
{
    assert(2 * c * 0 == 0 && 0 * (2 * m) == 0) by (nonlinear_arith);
    vstd::arithmetic::div_mod::lemma_fundamental_div_mod_converse(m, 2 * m, 0, m);
}

/// The Bresenham minor offset reaches exactly the minor span at the last
/// step.
pub proof fn lemma_bres_minor_last(c: int, m: int)
    requires
        m >= 1,
        c >= 0,
    ensures
        bres_minor(c, m, m) == c,
{
    assert(2 * c * m + m == c * (2 * m) + m) by (nonlinear_arith);
    vstd::arithmetic::div_mod::lemma_fundamental_div_mod_converse(2 * c * m + m, 2 * m, c, m);
}

/// The Bresenham minor offset never leaves `[0, c]` while the dominant
/// axis is still in range.
pub proof fn lemma_bres_minor_bounds(c: int, m: int, i: int)
    requires
        m >= 1,
        0 <= c <= m,
        0 <= i <= m,
    ensures
        0 <= bres_minor(c, m, i) <= c,
{
    let num = 2 * c * i + m;
    assert(0 <= num && num <= c * (2 * m) + (2 * m - 1)) by (nonlinear_arith)
        requires
            m >= 1,
            0 <= c <= m,
            0 <= i <= m,
            num == 2 * c * i + m,
    ;
    vstd::arithmetic::div_mod::lemma_fundamental_div_mod_converse(
        c * (2 * m) + (2 * m - 1),
        2 * m,
        c,
        2 * m - 1,
    );
    lemma_div_is_ordered(num, c * (2 * m) + (2 * m - 1), 2 * m);
    vstd::arithmetic::div_mod::lemma_div_pos_is_pos(num, 2 * m);
}

/// One step of the Bresenham error accumulator: with `k` the current minor
/// offset and `err` the classic error term, the dominant axis always steps
/// (`2 * err` strictly exceeds `-c`), and the minor axis steps exactly when
/// `2 * err <= m`.
pub proof fn lemma_bres_step(c: int, m: int, i: int)
    requires
        m >= 1,
        0 <= c <= m,
        0 <= i,
    ensures
        2 * (m - c - i * c + bres_minor(c, m, i) * m) >= 1 - c,
        2 * (m - c - i * c + bres_minor(c, m, i) * m) <= 3 * m,
        (2 * (m - c - i * c + bres_minor(c, m, i) * m) <= m) <==> bres_minor(c, m, i + 1)
            == bres_minor(c, m, i) + 1,
        (2 * (m - c - i * c + bres_minor(c, m, i) * m) > m) <==> bres_minor(c, m, i + 1)
            == bres_minor(c, m, i),
{
    let num = 2 * c * i + m;
    let k = bres_minor(c, m, i);
    let r = num % (2 * m);
    lemma_fundamental_div_mod(num, 2 * m);
    vstd::arithmetic::div_mod::lemma_mod_bound(num, 2 * m);
    let err = m - c - i * c + k * m;
    assert(2 * err == 3 * m - 2 * c - r) by (nonlinear_arith)
        requires
            err == m - c - i * c + k * m,
            2 * c * i + m == (2 * m) * k + r,
    ;
    let num2 = 2 * c * (i + 1) + m;
    assert(num2 == num + 2 * c) by (nonlinear_arith)
        requires
            num == 2 * c * i + m,
            num2 == 2 * c * (i + 1) + m,
    ;
    if r + 2 * c >= 2 * m {
        assert(num2 == (k + 1) * (2 * m) + (r + 2 * c - 2 * m)) by (nonlinear_arith)
            requires
                num == (2 * m) * k + r,
                num2 == num + 2 * c,
        ;
        vstd::arithmetic::div_mod::lemma_fundamental_div_mod_converse(
            num2,
            2 * m,
            k + 1,
            r + 2 * c - 2 * m,
        );
    } else {
        assert(num2 == k * (2 * m) + (r + 2 * c)) by (nonlinear_arith)
            requires
                num == (2 * m) * k + r,
                num2 == num + 2 * c,
        ;
        vstd::arithmetic::div_mod::lemma_fundamental_div_mod_converse(num2, 2 * m, k, r + 2 * c);
    }
}

/// `bresenham_line` starts exactly at the first endpoint and ends exactly
/// at the second.
pub proof fn lemma_bresenham_endpoints(p1: Pixel, p2: Pixel)
    ensures
        bresenham_pixels(p1, p2).len() >= 1,
        bresenham_pixels(p1, p2).first() == p1,
        bresenham_pixels(p1, p2).last() == p2,
{
    let a = iabs(p2.x - p1.x);
    let b = iabs(p2.y - p1.y);
    let sx = step_dir(p1.x as int, p2.x as int);
    let sy = step_dir(p1.y as int, p2.y as int);
    crate::arith::lemma_mul_sign(sx, a);
    crate::arith::lemma_mul_sign(sy, b);
    crate::arith::lemma_mul_sign(sx, 0);
    crate::arith::lemma_mul_sign(sy, 0);
    if a != 0 || b != 0 {
        if a >= b {
            lemma_bres_minor_zero(b, a);
            lemma_bres_minor_last(b, a);
            crate::arith::lemma_mul_sign(sy, bres_minor(b, a, 0));
            crate::arith::lemma_mul_sign(sy, bres_minor(b, a, a));
        } else {
            lemma_bres_minor_zero(a, b);
            lemma_bres_minor_last(a, b);
            crate::arith::lemma_mul_sign(sx, bres_minor(a, b, 0));
            crate::arith::lemma_mul_sign(sx, bres_minor(a, b, b));
        }
    }
}

/// A rounded quotient is pinned down by any strict half-unit bracket.
pub proof fn lemma_round_div_unique(n: int, m: int, q: int)
    requires
        m > 0,
        2 * m * q - m < 2 * n < 2 * m * q + m,
    ensures
        round_div(n, m) == q,
{
    crate::arith::lemma_round_div_char(n, m);
    let rd = round_div(n, m);
    assert(rd == q) by (nonlinear_arith)
        requires
            m > 0,
            2 * m * q - m < 2 * n < 2 * m * q + m,
            2 * m * rd - m <= 2 * n <= 2 * m * rd + m,
    ;
}

/// Away from rounding ties, rounding the exact line value gives the same
/// minor offset as the Bresenham error accumulator.
pub proof fn lemma_round_matches_bres_minor(base: int, s: int, c: int, m: int, i: int)
    requires
        m >= 1,
        0 <= c <= m,
        0 <= i <= m,
        s == 1 || s == -1,
        (2 * c * i + m) % (2 * m) != 0,
    ensures
        round_div(base * m + s * (c * i), m) == base + s * bres_minor(c, m, i),
{
    let k = bres_minor(c, m, i);
    let r = (2 * c * i + m) % (2 * m);
    lemma_fundamental_div_mod(2 * c * i + m, 2 * m);
    vstd::arithmetic::div_mod::lemma_mod_bound(2 * c * i + m, 2 * m);
    let n = base * m + s * (c * i);
    let q = base + s * k;
    assert(2 * m * q - m < 2 * n < 2 * m * q + m) by (nonlinear_arith)
        requires
            m >= 1,
            s == 1 || s == -1,
            2 * c * i + m == (2 * m) * k + r,
            0 < r < 2 * m,
            n == base * m + s * (c * i),
            q == base + s * k,
    ;
    lemma_round_div_unique(n, m, q);
}

/// On a perfect diagonal the Bresenham minor offset equals the step index.
pub proof fn lemma_bres_minor_diag(m: int, i: int)
    requires
        m >= 1,
        0 <= i,
    ensures
        bres_minor(m, m, i) == i,
{
    assert(2 * m * i + m == i * (2 * m) + m) by (nonlinear_arith);
    vstd::arithmetic::div_mod::lemma_fundamental_div_mod_converse(2 * m * i + m, 2 * m, i, m);
}

/// Exact rounding of the line value equals the Bresenham walk's dependent
/// coordinate, step for step, away from rounding ties.
pub proof fn lemma_line_value_matches_bres(c1: int, d1: int, c2: int, d2: int, i: int)
    requires
        1 <= iabs(c2 - c1),
        iabs(d2 - d1) <= iabs(c2 - c1),
        0 <= i <= iabs(c2 - c1),
        (2 * iabs(d2 - d1) * i + iabs(c2 - c1)) % (2 * iabs(c2 - c1)) != 0,
    ensures
        line_value(c1, d1, c2, d2, c1 + step_dir(c1, c2) * i) == d1 + step_dir(d1, d2)
            * bres_minor(iabs(d2 - d1), iabs(c2 - c1), i),
{
    let m = iabs(c2 - c1);
    let c = iabs(d2 - d1);
    let sx = step_dir(c1, c2);
    let sy = step_dir(d1, d2);
    let t = c1 + sx * i;
    let den = c2 - c1;
    let num = d1 * den + (d2 - d1) * (t - c1);
    crate::arith::lemma_mul_sign(sx, i);
    if c == 0 {
        assert(num == d1 * den && -num == d1 * (-den)) by (nonlinear_arith)
            requires
                d2 == d1,
                num == d1 * den + (d2 - d1) * (t - c1),
        ;
        if den > 0 {
            lemma_round_div_exact(d1, den);
        } else {
            lemma_round_div_exact(d1, -den);
        }
        lemma_bres_minor_zero(0, m);
        crate::arith::lemma_mul_sign(sy, bres_minor(0, m, i));
        assert(2 * 0 * i + m == m) by (nonlinear_arith);
        vstd::arithmetic::div_mod::lemma_fundamental_div_mod_converse(m, 2 * m, 0, m);
    } else {
        // normalized numerator over the positive denominator m
        let num2 = d1 * m + sy * (c * i);
        if den > 0 {
            assert(num == num2) by (nonlinear_arith)
                requires
                    den == c2 - c1,
                    den > 0,
                    m == den,
                    num == d1 * den + (d2 - d1) * (t - c1),
                    num2 == d1 * m + sy * (c * i),
                    t - c1 == sx * i,
                    sx == 1,
                    d2 - d1 == sy * c,
            ;
        } else {
            assert(-num == num2) by (nonlinear_arith)
                requires
                    den == c2 - c1,
                    den < 0,
                    m == -den,
                    num == d1 * den + (d2 - d1) * (t - c1),
                    num2 == d1 * m + sy * (c * i),
                    t - c1 == sx * i,
                    sx == -1,
                    d2 - d1 == sy * c,
            ;
        }
        assert(d2 - d1 == sy * c) by {
            crate::arith::lemma_mul_sign(sy, c);
        }
        lemma_round_matches_bres_minor(d1, sy, c, m, i);
    }
}

/// A rounding tie at step `i`: the exact dependent coordinate lies
/// exactly halfway between two pixels.
pub open spec fn tie_at(c: int, m: int, i: int) -> bool {
    (2 * c * i + m) % (2 * m) == 0
}

/// Whether the line through the two endpoints meets no rounding tie at
/// any step.  At a tie the direct evaluator (ties away from zero) and
/// Bresenham (ties toward the larger offset) may round differently.
pub open spec fn bres_tie_free(p1: Pixel, p2: Pixel) -> bool {
    let m = imax(iabs(p2.x - p1.x), iabs(p2.y - p1.y));
    let c = imin(iabs(p2.x - p1.x), iabs(p2.y - p1.y));
    m == 0 || forall|i: int| 0 <= i <= m ==> !tie_at(c, m, i)
}

/// Away from rounding ties, the Bresenham line and the direct evaluator
/// rasterize the same integer endpoints to identical pixel sets: each
/// emits exactly the other's pixels, in the same or opposite order.
pub proof fn lemma_bresenham_matches_step_by_step(p1: Pixel, p2: Pixel)
    requires
        bres_tie_free(p1, p2),
    ensures
        forall|p: Pixel| #[trigger] bresenham_pixels(p1, p2).contains(p)
            <==> step_by_step_pixels(p1, p2).contains(p),
{
    let a = iabs(p2.x - p1.x);
    let b = iabs(p2.y - p1.y);
    let n = imax(a, b);
    let bres = bresenham_pixels(p1, p2);
    let sbs = step_by_step_pixels(p1, p2);
    assert(bres.len() == n + 1 && sbs.len() == n + 1);
    let fwd = if a > b {
        p1.x <= p2.x
    } else {
        p1.y <= p2.y
    };
    assert forall|i: int| 0 <= i <= n implies bresenham_pixel(p1, p2, i) == step_by_step_pixel(
        p1,
        p2,
        if fwd {
            i
        } else {
            n - i
        },
    ) by {
        let j = if fwd {
            i
        } else {
            n - i
        };
        if n == 0 {
        } else if a > b {
            let sx = step_dir(p1.x as int, p2.x as int);
            crate::arith::lemma_mul_sign(sx, i);
            let t = p1.x + sx * i;
            assert(imin(p1.x as int, p2.x as int) + j == t);
            assert(!tie_at(imin(a, b), imax(a, b), i));
            assert(!tie_at(b, a, i));
            lemma_line_value_matches_bres(p1.x as int, p1.y as int, p2.x as int, p2.y as int, i);
        } else {
            let sy = step_dir(p1.y as int, p2.y as int);
            crate::arith::lemma_mul_sign(sy, i);
            let t = p1.y + sy * i;
            assert(imin(p1.y as int, p2.y as int) + j == t);
            assert(!tie_at(imin(a, b), imax(a, b), i));
            assert(!tie_at(a, b, i));
            lemma_line_value_matches_bres(p1.y as int, p1.x as int, p2.y as int, p2.x as int, i);
            if a == b {
                lemma_bres_minor_diag(a, i);
            }
        }
    }
    assert forall|p: Pixel| #[trigger] bres.contains(p) implies sbs.contains(p) by {
        let i = choose|i: int| 0 <= i < bres.len() && bres[i] == p;
        let j = if fwd {
            i
        } else {
            n - i
        };
        assert(sbs[j] == p);
    }
    assert forall|p: Pixel| #[trigger] sbs.contains(p) implies bres.contains(p) by {
        let j = choose|j: int| 0 <= j < sbs.len() && sbs[j] == p;
        let i = if fwd {
            j
        } else {
            n - j
        };
        assert(bres[i] == p);
    }
}

/// Builds the trace line for one `bresenham_line` step.
fn trace_bres_message(x: i32, y: i32, err: i64) -> (r: String) {
    String::from_str("pixel (")
        .concat(x.to_string().as_str())
        .concat(", ")
        .concat(y.to_string().as_str())
        .concat("), error ")
        .concat(err.to_string().as_str())
}

/// Bresenham midpoint line: integer-only arithmetic with an error
/// accumulator; the dominant axis advances every iteration and the minor
/// axis whenever the accumulated error crosses the midpoint, so the walk
/// follows the ideal line, ending exactly on the second endpoint.
#[verifier::loop_isolation(false)]
pub fn bresenham_line<L: Logger>(p1: Pixel, p2: Pixel, logger: &mut L) -> (r: Vec<Pixel>)
    ensures
        r@ == bresenham_pixels(p1, p2),
        final (logger).writes() == old(logger).writes(),
        !old(logger).writes() ==> final (logger).trace() == old(logger).trace(),
        old(logger).trace().is_prefix_of(final (logger).trace()),
{
    let mut pixels: Vec<Pixel> = Vec::new();
    let mut cx: i32 = p1.x;
    let mut cy: i32 = p1.y;
    let dx: i64 = abs_i64(p2.x as i64 - p1.x as i64);
    let sx: i32 = if p1.x < p2.x {
        1
    } else {
        -1
    };
    let dyn_: i64 = -abs_i64(p2.y as i64 - p1.y as i64);
    let sy: i32 = if p1.y < p2.y {
        1
    } else {
        -1
    };
    let mut err: i64 = dx + dyn_;
    let ghost a = iabs(p2.x as int - p1.x as int);
    let ghost b = iabs(p2.y as int - p1.y as int);
    let ghost n = imax(a, b);
    proof {
        crate::arith::lemma_mul_sign(sx as int, 0);
        crate::arith::lemma_mul_sign(sy as int, 0);
        assert(0int * b == 0 && 0int * a == 0) by (nonlinear_arith);
        if a >= b && a != 0 {
            lemma_bres_minor_zero(b, a);
            crate::arith::lemma_mul_sign(sy as int, bres_minor(b, a, 0));
            assert(bres_minor(b, a, 0) * a == 0) by (nonlinear_arith)
                requires
                    bres_minor(b, a, 0) == 0,
            ;
        }
        if a < b {
            lemma_bres_minor_zero(a, b);
            crate::arith::lemma_mul_sign(sx as int, bres_minor(a, b, 0));
            assert(bres_minor(a, b, 0) * b == 0) by (nonlinear_arith)
                requires
                    bres_minor(a, b, 0) == 0,
            ;
        }
    }
    while !(cx == p2.x && cy == p2.y)
        invariant
            pixels@.len() <= n,
            logger.writes() == old(logger).writes(),
            !old(logger).writes() ==> logger.trace() == old(logger).trace(),
            old(logger).trace().is_prefix_of(logger.trace()),
            forall|j: int| 0 <= j < pixels@.len() ==> pixels@[j] == bresenham_pixel(p1, p2, j),
            a >= b ==> cx == p1.x + sx * (pixels@.len() as int),
            a >= b && a != 0 ==> cy == p1.y + sy * bres_minor(b, a, pixels@.len() as int),
            a >= b && a != 0 ==> err == a - b - (pixels@.len() as int) * b + bres_minor(
                b,
                a,
                pixels@.len() as int,
            ) * a,
            a >= b && a == 0 ==> cy == p1.y,
            a < b ==> cy == p1.y + sy * (pixels@.len() as int),
            a < b ==> cx == p1.x + sx * bres_minor(a, b, pixels@.len() as int),
            a < b ==> err == -(b - a - (pixels@.len() as int) * a + bres_minor(
                a,
                b,
                pixels@.len() as int,
            ) * b),
        decreases n - pixels@.len(),
    {
        let ghost i = pixels@.len() as int;
        proof {
            if a >= b && a != 0 {
                lemma_bres_minor_bounds(b, a, i);
            }
            if a < b {
                lemma_bres_minor_bounds(a, b, i);
            }
        }
        pixels.push(Pixel { x: cx, y: cy });
        if logger.can_write() {
            let msg = trace_bres_message(cx, cy, err);
            let ghost m = msg@;
            let ghost prev = logger.trace();
            logger.log(msg);
            proof {
                crate::logger::lemma_trace_prefix_log(old(logger).trace(), prev, m, logger.trace());
            }
        }
        proof {
            // not yet at the second endpoint, so this is not the last step
            if a == 0 && b == 0 {
                assert(sx * 0 == 0) by (nonlinear_arith);
                assert(false);
            }
            if a >= b && a != 0 {
                lemma_bres_step(b, a, i);
                if i == n {
                    lemma_bres_minor_last(b, a);
                    if p1.x < p2.x {
                        assert(sx * i == i) by (nonlinear_arith)
                            requires
                                sx == 1,
                        ;
                    } else {
                        assert(sx * i == -i) by (nonlinear_arith)
                            requires
                                sx == -1,
                        ;
                    }
                    if p1.y < p2.y {
                        assert(sy * b == b) by (nonlinear_arith)
                            requires
                                sy == 1,
                        ;
                    } else {
                        assert(sy * b == -b) by (nonlinear_arith)
                            requires
                                sy == -1,
                        ;
                    }
                    assert(false);
                }
            }
            if a < b {
                lemma_bres_step(a, b, i);
                if i == n {
                    lemma_bres_minor_last(a, b);
                    if p1.y < p2.y {
                        assert(sy * i == i) by (nonlinear_arith)
                            requires
                                sy == 1,
                        ;
                    } else {
                        assert(sy * i == -i) by (nonlinear_arith)
                            requires
                                sy == -1,
                        ;
                    }
                    if p1.x < p2.x {
                        assert(sx * a == a) by (nonlinear_arith)
                            requires
                                sx == 1,
                        ;
                    } else {
                        assert(sx * a == -a) by (nonlinear_arith)
                            requires
                                sx == -1,
                        ;
                    }
                    assert(false);
                }
            }
        }
        let e2: i64 = 2 * err;
        if e2 >= dyn_ {
            err = err + dyn_;
            proof {
                if a >= b {
                    assert(sx * (i + 1) == sx * i + sx) by (nonlinear_arith);
                } else {
                    let k = bres_minor(a, b, i);
                    assert(sx * (k + 1) == sx * k + sx) by (nonlinear_arith);
                    lemma_bres_minor_bounds(a, b, i + 1);
                }
            }
            cx = cx + sx;
        }
        if e2 <= dx {
            err = err + dx;
            proof {
                if a >= b {
                    let k = bres_minor(b, a, i);
                    assert(sy * (k + 1) == sy * k + sy) by (nonlinear_arith);
                    lemma_bres_minor_bounds(b, a, i + 1);
                } else {
                    assert(sy * (i + 1) == sy * i + sy) by (nonlinear_arith);
                }
            }
            cy = cy + sy;
        }
        proof {
            if a >= b {
                assert((i + 1) * b == i * b + b) by (nonlinear_arith);
                assert((bres_minor(b, a, i) + 1) * a == bres_minor(b, a, i) * a + a)
                    by (nonlinear_arith);
            } else {
                assert((i + 1) * a == i * a + a) by (nonlinear_arith);
                assert((bres_minor(a, b, i) + 1) * b == bres_minor(a, b, i) * b + b)
                    by (nonlinear_arith);
            }
        }
    }
    proof {
        let i = pixels@.len() as int;
        if a >= b && a != 0 {
            if p1.x < p2.x {
                assert(sx * i == i) by (nonlinear_arith)
                    requires
                        sx == 1,
                ;
            } else {
                assert(sx * i == -i) by (nonlinear_arith)
                    requires
                        sx == -1,
                ;
            }
            assert(i == n);
        }
        if a < b {
            if p1.y < p2.y {
                assert(sy * i == i) by (nonlinear_arith)
                    requires
                        sy == 1,
                ;
            } else {
                assert(sy * i == -i) by (nonlinear_arith)
                    requires
                        sy == -1,
                ;
            }
            assert(i == n);
        }
    }
    pixels.push(Pixel { x: cx, y: cy });
    if logger.can_write() {
        let msg = trace_bres_message(cx, cy, err);
        let ghost m = msg@;
        let ghost prev = logger.trace();
        logger.log(msg);
        proof {
            crate::logger::lemma_trace_prefix_log(old(logger).trace(), prev, m, logger.trace());
        }
    }
    proof {
        assert(pixels@ =~= bresenham_pixels(p1, p2));
    }
    pixels
}

/// Builds the trace line for one evaluated step: the dominant coordinate
/// and the rounded dependent coordinate.
fn trace_step_message(dominant: &str, t: i64, dependent: &str, v: i64) -> (r: String) {
    String::from_str(dominant)
        .concat(" = ")
        .concat(t.to_string().as_str())
        .concat(", ")
        .concat(dependent)
        .concat(" rounds to ")
        .concat(v.to_string().as_str())
}

/// Direct line rasterization: walks the dominant axis one integer at a
/// time from the smaller endpoint coordinate to the larger, evaluates the
/// line equation exactly and rounds the dependent coordinate to the
/// nearest integer (ties away from zero).  Coincident endpoints yield the
/// single starting pixel.
#[verifier::loop_isolation(false)]
pub fn step_by_step<L: Logger>(p1: Pixel, p2: Pixel, logger: &mut L) -> (r: Vec<Pixel>)
    ensures
        r@ == step_by_step_pixels(p1, p2),
        final (logger).writes() == old(logger).writes(),
        !old(logger).writes() ==> final (logger).trace() == old(logger).trace(),
        old(logger).trace().is_prefix_of(final (logger).trace()),
{
    let mut pixels: Vec<Pixel> = Vec::new();
    let dx: i64 = p2.x as i64 - p1.x as i64;
    let dy: i64 = p2.y as i64 - p1.y as i64;
    let adx: i64 = abs_i64(dx);
    let ady: i64 = abs_i64(dy);
    let n: i64 = if adx > ady {
        adx
    } else {
        ady
    };
    let mut i: i64 = 0;
    while i <= n
        invariant
            0 <= i <= n + 1,
            pixels@.len() == i as int,
            forall|j: int| 0 <= j < i as int ==> pixels@[j] == step_by_step_pixel(p1, p2, j),
            logger.writes() == old(logger).writes(),
            !old(logger).writes() ==> logger.trace() == old(logger).trace(),
            old(logger).trace().is_prefix_of(logger.trace()),
        decreases n - i + 1,
    {
        let p: Pixel;
        let dominant: &str;
        let dependent: &str;
        let t64: i64;
        let v64: i64;
        if adx > ady {
            let start: i32 = if p1.x < p2.x {
                p1.x
            } else {
                p2.x
            };
            let t: i64 = start as i64 + i;
            let num: i128 = crate::arith::mul_add_i128(
                p1.y as i128,
                dx as i128,
                dy as i128,
                t as i128 - p1.x as i128,
            );
            let v: i128 = round_rat_i128(num, dx as i128);
            proof {
                lemma_line_value_bounds(p1.x as int, p1.y as int, p2.x as int, p2.y as int, t as int);
            }
            p = Pixel { x: t as i32, y: v as i32 };
            dominant = "x";
            dependent = "y";
            t64 = t;
            v64 = v as i64;
        } else if dy != 0 {
            let start: i32 = if p1.y < p2.y {
                p1.y
            } else {
                p2.y
            };
            let t: i64 = start as i64 + i;
            let num: i128 = crate::arith::mul_add_i128(
                p1.x as i128,
                dy as i128,
                dx as i128,
                t as i128 - p1.y as i128,
            );
            let v: i128 = round_rat_i128(num, dy as i128);
            proof {
                lemma_line_value_bounds(p1.y as int, p1.x as int, p2.y as int, p2.x as int, t as int);
            }
            p = Pixel { x: v as i32, y: t as i32 };
            dominant = "y";
            dependent = "x";
            t64 = t;
            v64 = v as i64;
        } else {
            p = p1;
            dominant = "y";
            dependent = "x";
            t64 = p1.y as i64;
            v64 = p1.x as i64;
        }
        if logger.can_write() {
            let msg = trace_step_message(dominant, t64, dependent, v64);
            let ghost m = msg@;
            let ghost prev = logger.trace();
            logger.log(msg);
            proof {
                crate::logger::lemma_trace_prefix_log(old(logger).trace(), prev, m, logger.trace());
            }
        }
        pixels.push(p);
        i = i + 1;
    }
    proof {
        assert(pixels@ =~= step_by_step_pixels(p1, p2));
    }
    pixels
}

} // verus!

