//! The antialiased rasterizers: Wu's line, and the antialiased variants of
//! direct evaluation, the differential analyzer and Bresenham.  Every step
//! along the dominant axis emits exactly two pixels that straddle the
//! ideal line, and their coverages are exact complementary fractions.

use crate::arith::{
    abs_i64, iabs, imax, imin, lemma_floor_div_bounds, mul_add_i128, round_div, round_div_i128,
    step_dir,
};
use crate::logger::Logger;
use crate::pixel::{apx, AntialiasedPixel, Pixel};
use vstd::arithmetic::div_mod::{
    lemma_fundamental_div_mod, lemma_fundamental_div_mod_converse, lemma_mod_bound,
};
use vstd::prelude::*;
use vstd::string::StringExecFns;

verus! {

/// The sign factor that makes `iabs(v) == isign(v) * v`.
pub open spec fn isign(a: int) -> int {
    if a < 0 {
        -1
    } else {
        1
    }
}

/// Numerator of the dependent line coordinate at dominant coordinate `t`,
/// over the positive denominator `iabs(c2 - c1)`.
pub open spec fn frac_line_num(c1: int, d1: int, c2: int, d2: int, t: int) -> int {
    d1 * iabs(c2 - c1) + (d2 - d1) * ((t - c1) * isign(c2 - c1))
}

/// The Euclidean quotient and remainder of an interpolated numerator stay
/// between the endpoints and inside `[0, den)` respectively.
pub proof fn lemma_frac_line_bounds(c1: int, d1: int, c2: int, d2: int, t: int)
    requires
        c1 != c2,
        imin(c1, c2) <= t <= imax(c1, c2),
    ensures
        imin(d1, d2) <= frac_line_num(c1, d1, c2, d2, t) / iabs(c2 - c1) <= imax(d1, d2),
        0 <= frac_line_num(c1, d1, c2, d2, t) % iabs(c2 - c1) < iabs(c2 - c1),
{
    let den = iabs(c2 - c1);
    let num = frac_line_num(c1, d1, c2, d2, t);
    let lo = imin(d1, d2);
    let hi = imax(d1, d2);
    assert(lo * den <= num && num <= hi * den) by (nonlinear_arith)
        requires
            den == iabs(c2 - c1),
            num == d1 * den + (d2 - d1) * ((t - c1) * isign(c2 - c1)),
            c1 != c2,
            imin(c1, c2) <= t <= imax(c1, c2),
            lo <= d1 <= hi,
            lo <= d2 <= hi,
            lo == imin(d1, d2),
            hi == imax(d1, d2),
            den == if c2 - c1 < 0 {
                c1 - c2
            } else {
                c2 - c1
            },
            isign(c2 - c1) == if c2 - c1 < 0 {
                -1int
            } else {
                1int
            },
    ;
    lemma_floor_div_bounds(num, den, lo, hi);
    lemma_mod_bound(num, den);
}

/// Whether Wu's line works in the steep frame, with the axes swapped.
pub open spec fn wu_steep(p1: Pixel, p2: Pixel) -> bool {
    iabs(p2.y - p1.y) > iabs(p2.x - p1.x)
}

/// The working endpoints of Wu's line: axes swapped when steep, then
/// ordered so the dominant coordinate increases.
pub open spec fn wu_frame(p1: Pixel, p2: Pixel) -> ((int, int), (int, int)) {
    let q1 = if wu_steep(p1, p2) {
        (p1.y as int, p1.x as int)
    } else {
        (p1.x as int, p1.y as int)
    };
    let q2 = if wu_steep(p1, p2) {
        (p2.y as int, p2.x as int)
    } else {
        (p2.x as int, p2.y as int)
    };
    if q1.0 > q2.0 {
        (q2, q1)
    } else {
        (q1, q2)
    }
}

/// How many entries `wu_line` returns: two per dominant-axis step.
pub open spec fn wu_len(p1: Pixel, p2: Pixel) -> nat {
    let f = wu_frame(p1, p2);
    (2 * (f.1.0 - f.0.0 + 1)) as nat
}

/// The entry `wu_line` returns at position `k`: the bracketing pixel pair
/// of step `k / 2`, the lower pixel first with coverage `1 - frac`, then
/// the upper with coverage `frac`.
pub open spec fn wu_pixel(p1: Pixel, p2: Pixel, k: int) -> AntialiasedPixel {
    let f = wu_frame(p1, p2);
    let x0 = f.0.0;
    let y0 = f.0.1;
    let dx = f.1.0 - x0;
    let dy = f.1.1 - y0;
    let den = if dx == 0 {
        1
    } else {
        dx
    };
    let j = k / 2;
    let num = y0 * den + j * dy;
    let fl = num / den;
    let fr = num % den;
    let minor = if k % 2 == 0 {
        fl
    } else {
        fl + 1
    };
    let cov = if k % 2 == 0 {
        den - fr
    } else {
        fr
    };
    if wu_steep(p1, p2) {
        apx(minor, x0 + j, cov, den)
    } else {
        apx(x0 + j, minor, cov, den)
    }
}

/// Everything `wu_line` returns, in order.
pub open spec fn wu_pixels(p1: Pixel, p2: Pixel) -> Seq<AntialiasedPixel> {
    Seq::new(wu_len(p1, p2), |k: int| wu_pixel(p1, p2, k))
}

/// Builds the trace line for one antialiased step: the dominant
/// coordinate and the two bracketing coverage numerators over their
/// common denominator.
fn trace_aa_message(t: i64, lower: i64, num: i64, den: i64) -> (r: String) {
    String::from_str("step ")
        .concat(t.to_string().as_str())
        .concat(": minor ")
        .concat(lower.to_string().as_str())
        .concat(", coverage ")
        .concat(num.to_string().as_str())
        .concat("/")
        .concat(den.to_string().as_str())
}

/// Wu's antialiased line: works in a frame where the dominant axis is x
/// and increases, tracks the exact dependent coordinate, and emits for
/// every dominant step the two bracketing pixels with complementary
/// coverages `1 - frac` and `frac`.  A zero dominant span yields one pair
/// with full coverage on the starting pixel.
#[verifier::loop_isolation(false)]
pub fn wu_line<L: Logger>(p1: Pixel, p2: Pixel, logger: &mut L) -> (r: Vec<AntialiasedPixel>)
    requires
        i32::MIN < p1.x < i32::MAX,
        i32::MIN < p1.y < i32::MAX,
        i32::MIN < p2.x < i32::MAX,
        i32::MIN < p2.y < i32::MAX,
    ensures
        r@ == wu_pixels(p1, p2),
        final (logger).writes() == old(logger).writes(),
        !old(logger).writes() ==> final (logger).trace() == old(logger).trace(),
        old(logger).trace().is_prefix_of(final (logger).trace()),
{
    let mut pixels: Vec<AntialiasedPixel> = Vec::new();
    let mut x0: i64 = p1.x as i64;
    let mut y0: i64 = p1.y as i64;
    let mut x1: i64 = p2.x as i64;
    let mut y1: i64 = p2.y as i64;
    let adx: i64 = abs_i64(x1 - x0);
    let ady: i64 = abs_i64(y1 - y0);
    let steep: bool = ady > adx;
    if steep {
        let t = x0;
        x0 = y0;
        y0 = t;
        let t2 = x1;
        x1 = y1;
        y1 = t2;
    }
    if x0 > x1 {
        let t = x0;
        x0 = x1;
        x1 = t;
        let t2 = y0;
        y0 = y1;
        y1 = t2;
    }
    let dx: i64 = x1 - x0;
    let dy: i64 = y1 - y0;
    let den: i64 = if dx == 0 {
        1
    } else {
        dx
    };
    proof {
        assert(wu_frame(p1, p2) == ((x0 as int, y0 as int), (x1 as int, y1 as int)));
    }
    let mut j: i64 = 0;
    while j <= dx
        invariant
            0 <= j <= dx + 1,
            pixels@.len() == 2 * j as int,
            forall|k: int| 0 <= k < 2 * j as int ==> pixels@[k] == wu_pixel(p1, p2, k),
            logger.writes() == old(logger).writes(),
            !old(logger).writes() ==> logger.trace() == old(logger).trace(),
            old(logger).trace().is_prefix_of(logger.trace()),
        decreases dx - j + 1,
    {
        let num: i128 = mul_add_i128(y0 as i128, den as i128, j as i128, dy as i128);
        let fl: i128 = crate::arith::floor_div_i128(num, den as i128);
        let fr: i128 = crate::arith::floor_mod_i128(num, den as i128);
        proof {
            if dx != 0 {
                lemma_frac_line_bounds(x0 as int, y0 as int, x1 as int, y1 as int, x0 + j);
                assert(frac_line_num(x0 as int, y0 as int, x1 as int, y1 as int, x0 + j) == y0
                    * den + j * dy) by (nonlinear_arith)
                    requires
                        dx == x1 - x0,
                        dy == y1 - y0,
                        dx > 0,
                        den == dx,
                ;
            } else {
                assert(num == y0 * 1 + 0 * dy) by (nonlinear_arith)
                    requires
                        num == y0 as int * den + j as int * dy,
                        j == 0,
                        den == 1,
                ;
                lemma_fundamental_div_mod_converse(num as int, 1, y0 as int, 0);
            }
            assert(2 * (j as int) / 2 == j as int && (2 * (j as int) + 1) / 2 == j as int && (2 * (
            j as int)) % 2 == 0 && (2 * (j as int) + 1) % 2 == 1) by (nonlinear_arith);
        }
        let low: AntialiasedPixel;
        let high: AntialiasedPixel;
        if steep {
            low = AntialiasedPixel {
                x: fl as i32,
                y: (x0 + j) as i32,
                cov_num: (den as i128 - fr) as i64,
                cov_den: den,
            };
            high = AntialiasedPixel {
                x: (fl + 1) as i32,
                y: (x0 + j) as i32,
                cov_num: fr as i64,
                cov_den: den,
            };
        } else {
            low = AntialiasedPixel {
                x: (x0 + j) as i32,
                y: fl as i32,
                cov_num: (den as i128 - fr) as i64,
                cov_den: den,
            };
            high = AntialiasedPixel {
                x: (x0 + j) as i32,
                y: (fl + 1) as i32,
                cov_num: fr as i64,
                cov_den: den,
            };
        }
        if logger.can_write() {
            let msg = trace_aa_message(x0 + j, fl as i64, (den as i128 - fr) as i64, den);
            let ghost m = msg@;
            let ghost prev = logger.trace();
            logger.log(msg);
            proof {
                crate::logger::lemma_trace_prefix_log(old(logger).trace(), prev, m, logger.trace());
            }
        }
        pixels.push(low);
        pixels.push(high);
        j = j + 1;
    }
    proof {
        assert(pixels@ =~= wu_pixels(p1, p2));
    }
    pixels
}

/// How many entries `step_by_step_aa` returns: two per dominant-axis step.
pub open spec fn step_by_step_aa_len(p1: Pixel, p2: Pixel) -> nat {
    (2 * (imax(iabs(p2.x - p1.x), iabs(p2.y - p1.y)) + 1)) as nat
}

/// The entry `step_by_step_aa` returns at position `k`: the floor pixel of
/// the exactly evaluated dependent coordinate with coverage `1 - frac`,
/// then the next pixel over with coverage `frac`.
pub open spec fn step_by_step_aa_pixel(p1: Pixel, p2: Pixel, k: int) -> AntialiasedPixel {
    let dx = p2.x - p1.x;
    let dy = p2.y - p1.y;
    let j = k / 2;
    if iabs(dx) > iabs(dy) {
        let a = iabs(dx);
        let t = imin(p1.x as int, p2.x as int) + j;
        let num = frac_line_num(p1.x as int, p1.y as int, p2.x as int, p2.y as int, t);
        if k % 2 == 0 {
            apx(t, num / a, a - num % a, a)
        } else {
            apx(t, num / a + 1, num % a, a)
        }
    } else if dy != 0 {
        let b = iabs(dy);
        let t = imin(p1.y as int, p2.y as int) + j;
        let num = frac_line_num(p1.y as int, p1.x as int, p2.y as int, p2.x as int, t);
        if k % 2 == 0 {
            apx(num / b, t, b - num % b, b)
        } else {
            apx(num / b + 1, t, num % b, b)
        }
    } else {
        if k % 2 == 0 {
            apx(p1.x as int, p1.y as int, 1, 1)
        } else {
            apx(p1.x + 1, p1.y as int, 0, 1)
        }
    }
}

/// Everything `step_by_step_aa` returns, in order.
pub open spec fn step_by_step_aa_pixels(p1: Pixel, p2: Pixel) -> Seq<AntialiasedPixel> {
    Seq::new(step_by_step_aa_len(p1, p2), |k: int| step_by_step_aa_pixel(p1, p2, k))
}

/// Antialiased direct evaluation: walks the dominant axis from the smaller
/// endpoint coordinate to the larger, evaluates the dependent coordinate
/// exactly, and emits its floor pixel with coverage `1 - frac` and the
/// next pixel with coverage `frac`.  Coincident endpoints yield one pair
/// with full coverage on the starting pixel.
#[verifier::loop_isolation(false)]
pub fn step_by_step_aa<L: Logger>(p1: Pixel, p2: Pixel, logger: &mut L) -> (r: Vec<
    AntialiasedPixel,
>)
    requires
        i32::MIN < p1.x < i32::MAX,
        i32::MIN < p1.y < i32::MAX,
        i32::MIN < p2.x < i32::MAX,
        i32::MIN < p2.y < i32::MAX,
    ensures
        r@ == step_by_step_aa_pixels(p1, p2),
        final (logger).writes() == old(logger).writes(),
        !old(logger).writes() ==> final (logger).trace() == old(logger).trace(),
        old(logger).trace().is_prefix_of(final (logger).trace()),
{
    let mut pixels: Vec<AntialiasedPixel> = Vec::new();
    let dx: i64 = p2.x as i64 - p1.x as i64;
    let dy: i64 = p2.y as i64 - p1.y as i64;
    let adx: i64 = abs_i64(dx);
    let ady: i64 = abs_i64(dy);
    let n: i64 = if adx > ady {
        adx
    } else {
        ady
    };
    let mut j: i64 = 0;
    while j <= n
        invariant
            0 <= j <= n + 1,
            pixels@.len() == 2 * j as int,
            forall|k: int| 0 <= k < 2 * j as int ==> pixels@[k] == step_by_step_aa_pixel(p1, p2, k),
            logger.writes() == old(logger).writes(),
            !old(logger).writes() ==> logger.trace() == old(logger).trace(),
            old(logger).trace().is_prefix_of(logger.trace()),
        decreases n - j + 1,
    {
        proof {
            assert(2 * (j as int) / 2 == j as int && (2 * (j as int) + 1) / 2 == j as int && (2 * (
            j as int)) % 2 == 0 && (2 * (j as int) + 1) % 2 == 1) by (nonlinear_arith);
        }
        let low: AntialiasedPixel;
        let high: AntialiasedPixel;
        if adx > ady {
            let start: i32 = if p1.x < p2.x {
                p1.x
            } else {
                p2.x
            };
            let t: i64 = start as i64 + j;
            let dys: i64 = if dx < 0 {
                -dy
            } else {
                dy
            };
            let num: i128 = mul_add_i128(p1.y as i128, adx as i128, dys as i128, t as i128
                - p1.x as i128);
            let fl: i128 = crate::arith::floor_div_i128(num, adx as i128);
            let fr: i128 = crate::arith::floor_mod_i128(num, adx as i128);
            proof {
                lemma_frac_line_bounds(p1.x as int, p1.y as int, p2.x as int, p2.y as int, t as int);
                assert(num == frac_line_num(p1.x as int, p1.y as int, p2.x as int, p2.y as int, t as int))
                    by (nonlinear_arith)
                    requires
                        num == p1.y as int * adx + dys * (t - p1.x as int),
                        dx == p2.x - p1.x as int,
                        dy == p2.y - p1.y as int,
                        dx != 0,
                        adx == iabs(dx as int),
                        dys == if dx < 0 {
                            -dy as int
                        } else {
                            dy as int
                        },
                        frac_line_num(p1.x as int, p1.y as int, p2.x as int, p2.y as int, t as int)
                            == p1.y * iabs(dx as int) + dy * ((t - p1.x) * isign(dx as int)),
                        isign(dx as int) == if dx < 0 {
                            -1int
                        } else {
                            1int
                        },
                ;
            }
            low = AntialiasedPixel {
                x: t as i32,
                y: fl as i32,
                cov_num: (adx as i128 - fr) as i64,
                cov_den: adx,
            };
            high = AntialiasedPixel {
                x: t as i32,
                y: (fl + 1) as i32,
                cov_num: fr as i64,
                cov_den: adx,
            };
            if logger.can_write() {
                let msg = trace_aa_message(t, fl as i64, (adx as i128 - fr) as i64, adx);
                let ghost m = msg@;
                let ghost prev = logger.trace();
                logger.log(msg);
                proof {
                    crate::logger::lemma_trace_prefix_log(old(logger).trace(), prev, m, logger.trace());
                }
            }
        } else if dy != 0 {
            let start: i32 = if p1.y < p2.y {
                p1.y
            } else {
                p2.y
            };
            let t: i64 = start as i64 + j;
            let dxs: i64 = if dy < 0 {
                -dx
            } else {
                dx
            };
            let num: i128 = mul_add_i128(p1.x as i128, ady as i128, dxs as i128, t as i128
                - p1.y as i128);
            let fl: i128 = crate::arith::floor_div_i128(num, ady as i128);
            let fr: i128 = crate::arith::floor_mod_i128(num, ady as i128);
            proof {
                lemma_frac_line_bounds(p1.y as int, p1.x as int, p2.y as int, p2.x as int, t as int);
                assert(num == frac_line_num(p1.y as int, p1.x as int, p2.y as int, p2.x as int, t as int))
                    by (nonlinear_arith)
                    requires
                        num == p1.x as int * ady + dxs * (t - p1.y as int),
                        dx == p2.x - p1.x as int,
                        dy == p2.y - p1.y as int,
                        dy != 0,
                        ady == iabs(dy as int),
                        dxs == if dy < 0 {
                            -dx as int
                        } else {
                            dx as int
                        },
                        frac_line_num(p1.y as int, p1.x as int, p2.y as int, p2.x as int, t as int)
                            == p1.x * iabs(dy as int) + dx * ((t - p1.y) * isign(dy as int)),
                        isign(dy as int) == if dy < 0 {
                            -1int
                        } else {
                            1int
                        },
                ;
            }
            low = AntialiasedPixel {
                x: fl as i32,
                y: t as i32,
                cov_num: (ady as i128 - fr) as i64,
                cov_den: ady,
            };
            high = AntialiasedPixel {
                x: (fl + 1) as i32,
                y: t as i32,
                cov_num: fr as i64,
                cov_den: ady,
            };
            if logger.can_write() {
                let msg = trace_aa_message(t, fl as i64, (ady as i128 - fr) as i64, ady);
                let ghost m = msg@;
                let ghost prev = logger.trace();
                logger.log(msg);
                proof {
                    crate::logger::lemma_trace_prefix_log(old(logger).trace(), prev, m, logger.trace());
                }
            }
        } else {
            low = AntialiasedPixel { x: p1.x, y: p1.y, cov_num: 1, cov_den: 1 };
            high = AntialiasedPixel { x: p1.x + 1, y: p1.y, cov_num: 0, cov_den: 1 };
            if logger.can_write() {
                let msg = trace_aa_message(p1.y as i64, p1.x as i64, 1, 1);
                let ghost m = msg@;
                let ghost prev = logger.trace();
                logger.log(msg);
                proof {
                    crate::logger::lemma_trace_prefix_log(old(logger).trace(), prev, m, logger.trace());
                }
            }
        }
        pixels.push(low);
        pixels.push(high);
        j = j + 1;
    }
    proof {
        assert(pixels@ =~= step_by_step_aa_pixels(p1, p2));
    }
    pixels
}

/// The Euclidean quotient and remainder of an interpolated value between
/// `base` and `base + delta` stay between the two and inside `[0, s)`.
pub proof fn lemma_interp_floor_bounds(base: int, delta: int, s: int, j: int)
    requires
        s >= 1,
        0 <= j <= s,
    ensures
        imin(base, base + delta) <= (base * s + j * delta) / s <= imax(base, base + delta),
        0 <= (base * s + j * delta) % s < s,
{
    let lo = imin(base, base + delta);
    let hi = imax(base, base + delta);
    assert(lo * s <= base * s + j * delta && base * s + j * delta <= hi * s) by (nonlinear_arith)
        requires
            s >= 1,
            0 <= j <= s,
            lo == imin(base, base + delta),
            hi == imax(base, base + delta),
    ;
    lemma_floor_div_bounds(base * s + j * delta, s, lo, hi);
    lemma_mod_bound(base * s + j * delta, s);
}

/// How many entries `dda_aa` returns: two per step.
pub open spec fn dda_aa_len(p1: Pixel, p2: Pixel) -> nat {
    (2 * (imax(iabs(p2.x - p1.x), iabs(p2.y - p1.y)) + 1)) as nat
}

/// The entry `dda_aa` returns at position `k`: the dominant coordinate of
/// step `k / 2` rounded (it is exact), and on the minor axis the floor
/// pixel with coverage `1 - frac` then the next pixel with coverage
/// `frac`.
pub open spec fn dda_aa_pixel(p1: Pixel, p2: Pixel, k: int) -> AntialiasedPixel {
    let dx = p2.x - p1.x;
    let dy = p2.y - p1.y;
    let s = imax(iabs(dx), iabs(dy));
    let j = k / 2;
    if s == 0 {
        if k % 2 == 0 {
            apx(p1.x as int, p1.y as int, 1, 1)
        } else {
            apx(p1.x as int, p1.y + 1, 0, 1)
        }
    } else if iabs(dy) > iabs(dx) {
        let num = p1.x * s + j * dx;
        let yr = round_div(p1.y * s + j * dy, s);
        if k % 2 == 0 {
            apx(num / s, yr, s - num % s, s)
        } else {
            apx(num / s + 1, yr, num % s, s)
        }
    } else {
        let num = p1.y * s + j * dy;
        let xr = round_div(p1.x * s + j * dx, s);
        if k % 2 == 0 {
            apx(xr, num / s, s - num % s, s)
        } else {
            apx(xr, num / s + 1, num % s, s)
        }
    }
}

/// Everything `dda_aa` returns, in order.
pub open spec fn dda_aa_pixels(p1: Pixel, p2: Pixel) -> Seq<AntialiasedPixel> {
    Seq::new(dda_aa_len(p1, p2), |k: int| dda_aa_pixel(p1, p2, k))
}

/// Antialiased differential analyzer: the same equal steps as the plain
/// analyzer, but the minor coordinate's fractional part becomes the
/// complementary coverages of its two bracketing pixels, while the
/// dominant coordinate is rounded (exactly).  Coincident endpoints yield
/// one pair with full coverage on the starting pixel.
#[verifier::loop_isolation(false)]
pub fn dda_aa<L: Logger>(p1: Pixel, p2: Pixel, logger: &mut L) -> (r: Vec<AntialiasedPixel>)
    requires
        i32::MIN < p1.x < i32::MAX,
        i32::MIN < p1.y < i32::MAX,
        i32::MIN < p2.x < i32::MAX,
        i32::MIN < p2.y < i32::MAX,
    ensures
        r@ == dda_aa_pixels(p1, p2),
        final (logger).writes() == old(logger).writes(),
        !old(logger).writes() ==> final (logger).trace() == old(logger).trace(),
        old(logger).trace().is_prefix_of(final (logger).trace()),
{
    let mut pixels: Vec<AntialiasedPixel> = Vec::new();
    let dx: i64 = p2.x as i64 - p1.x as i64;
    let dy: i64 = p2.y as i64 - p1.y as i64;
    let adx: i64 = abs_i64(dx);
    let ady: i64 = abs_i64(dy);
    let s: i64 = if adx > ady {
        adx
    } else {
        ady
    };
    let steep: bool = ady > adx;
    let mut j: i64 = 0;
    while j <= s
        invariant
            0 <= j <= s + 1,
            pixels@.len() == 2 * j as int,
            forall|k: int| 0 <= k < 2 * j as int ==> pixels@[k] == dda_aa_pixel(p1, p2, k),
            logger.writes() == old(logger).writes(),
            !old(logger).writes() ==> logger.trace() == old(logger).trace(),
            old(logger).trace().is_prefix_of(logger.trace()),
        decreases s - j + 1,
    {
        proof {
            assert(2 * (j as int) / 2 == j as int && (2 * (j as int) + 1) / 2 == j as int && (2 * (
            j as int)) % 2 == 0 && (2 * (j as int) + 1) % 2 == 1) by (nonlinear_arith);
        }
        let low: AntialiasedPixel;
        let high: AntialiasedPixel;
        if s == 0 {
            low = AntialiasedPixel { x: p1.x, y: p1.y, cov_num: 1, cov_den: 1 };
            high = AntialiasedPixel { x: p1.x, y: p1.y + 1, cov_num: 0, cov_den: 1 };
            if logger.can_write() {
                let msg = trace_aa_message(p1.x as i64, p1.y as i64, 1, 1);
                let ghost m = msg@;
                let ghost prev = logger.trace();
                logger.log(msg);
                proof {
                    crate::logger::lemma_trace_prefix_log(old(logger).trace(), prev, m, logger.trace());
                }
            }
        } else if steep {
            let numx: i128 = mul_add_i128(p1.x as i128, s as i128, j as i128, dx as i128);
            let numy: i128 = mul_add_i128(p1.y as i128, s as i128, j as i128, dy as i128);
            let fl: i128 = crate::arith::floor_div_i128(numx, s as i128);
            let fr: i128 = crate::arith::floor_mod_i128(numx, s as i128);
            let yr: i128 = round_div_i128(numy, s as i128);
            proof {
                lemma_interp_floor_bounds(p1.x as int, dx as int, s as int, j as int);
                crate::line::lemma_interp_bounds(p1.y as int, dy as int, s as int, j as int);
            }
            low = AntialiasedPixel {
                x: fl as i32,
                y: yr as i32,
                cov_num: (s as i128 - fr) as i64,
                cov_den: s,
            };
            high = AntialiasedPixel {
                x: (fl + 1) as i32,
                y: yr as i32,
                cov_num: fr as i64,
                cov_den: s,
            };
            if logger.can_write() {
                let msg = trace_aa_message(yr as i64, fl as i64, (s as i128 - fr) as i64, s);
                let ghost m = msg@;
                let ghost prev = logger.trace();
                logger.log(msg);
                proof {
                    crate::logger::lemma_trace_prefix_log(old(logger).trace(), prev, m, logger.trace());
                }
            }
        } else {
            let numx: i128 = mul_add_i128(p1.x as i128, s as i128, j as i128, dx as i128);
            let numy: i128 = mul_add_i128(p1.y as i128, s as i128, j as i128, dy as i128);
            let fl: i128 = crate::arith::floor_div_i128(numy, s as i128);
            let fr: i128 = crate::arith::floor_mod_i128(numy, s as i128);
            let xr: i128 = round_div_i128(numx, s as i128);
            proof {
                lemma_interp_floor_bounds(p1.y as int, dy as int, s as int, j as int);
                crate::line::lemma_interp_bounds(p1.x as int, dx as int, s as int, j as int);
            }
            low = AntialiasedPixel {
                x: xr as i32,
                y: fl as i32,
                cov_num: (s as i128 - fr) as i64,
                cov_den: s,
            };
            high = AntialiasedPixel {
                x: xr as i32,
                y: (fl + 1) as i32,
                cov_num: fr as i64,
                cov_den: s,
            };
            if logger.can_write() {
                let msg = trace_aa_message(xr as i64, fl as i64, (s as i128 - fr) as i64, s);
                let ghost m = msg@;
                let ghost prev = logger.trace();
                logger.log(msg);
                proof {
                    crate::logger::lemma_trace_prefix_log(old(logger).trace(), prev, m, logger.trace());
                }
            }
        }
        pixels.push(low);
        pixels.push(high);
        j = j + 1;
    }
    proof {
        assert(pixels@ =~= dda_aa_pixels(p1, p2));
    }
    pixels
}

/// One step of the error-weighted Bresenham accumulator: how the Euclidean
/// quotient and remainder of `j * c` by `m` advance from step `j` to
/// `j + 1`.
pub proof fn lemma_bres_aa_step(c: int, m: int, j: int)
    requires
        m >= 1,
        0 <= c <= m,
        0 <= j,
    ensures
        0 <= (j * c) % m < m,
        ((j + 1) * c) % m == if (j * c) % m + c >= m {
            (j * c) % m + c - m
        } else {
            (j * c) % m + c
        },
        ((j + 1) * c) / m == if (j * c) % m + c >= m {
            (j * c) / m + 1
        } else {
            (j * c) / m
        },
{
    let q = (j * c) / m;
    let r = (j * c) % m;
    lemma_fundamental_div_mod(j * c, m);
    lemma_mod_bound(j * c, m);
    if r + c >= m {
        assert((j + 1) * c == (q + 1) * m + (r + c - m)) by (nonlinear_arith)
            requires
                j * c == m * q + r,
        ;
        lemma_fundamental_div_mod_converse((j + 1) * c, m, q + 1, r + c - m);
    } else {
        assert((j + 1) * c == q * m + (r + c)) by (nonlinear_arith)
            requires
                j * c == m * q + r,
        ;
        lemma_fundamental_div_mod_converse((j + 1) * c, m, q, r + c);
    }
}

/// The minor offset of the error-weighted Bresenham stays in `[0, c]`
/// while the dominant axis is in range.
pub proof fn lemma_bres_aa_div_bounds(c: int, m: int, j: int)
    requires
        m >= 1,
        0 <= c,
        0 <= j <= m,
    ensures
        0 <= (j * c) / m <= c,
{
    assert(0 * m <= j * c && j * c <= c * m) by (nonlinear_arith)
        requires
            m >= 1,
            0 <= c,
            0 <= j <= m,
    ;
    lemma_floor_div_bounds(j * c, m, 0, c);
}

/// How many entries `bresenham_aa` returns: two per step.
pub open spec fn bresenham_aa_len(p1: Pixel, p2: Pixel) -> nat {
    (2 * (imax(iabs(p2.x - p1.x), iabs(p2.y - p1.y)) + 1)) as nat
}

/// The entry `bresenham_aa` returns at position `k`: the primary pixel of
/// step `k / 2` with coverage `1 - d/span`, then its neighbour one step
/// over on the minor axis with coverage `d/span`, where `d` is the classic
/// error accumulator read before its reset.
pub open spec fn bresenham_aa_pixel(p1: Pixel, p2: Pixel, k: int) -> AntialiasedPixel {
    let a = iabs(p2.x - p1.x);
    let b = iabs(p2.y - p1.y);
    let sx = step_dir(p1.x as int, p2.x as int);
    let sy = step_dir(p1.y as int, p2.y as int);
    let j = k / 2;
    if a >= b {
        let den = if a == 0 {
            1
        } else {
            a
        };
        let dj = (j * b) % den;
        let xj = p1.x + sx * j;
        let yj = p1.y + sy * ((j * b) / den);
        if k % 2 == 0 {
            apx(xj, yj, den - dj, den)
        } else {
            apx(xj, yj + sy, dj, den)
        }
    } else {
        let den = b;
        let dj = (j * a) % den;
        let xj = p1.x + sx * ((j * a) / den);
        let yj = p1.y + sy * j;
        if k % 2 == 0 {
            apx(xj, yj, den - dj, den)
        } else {
            apx(xj + sx, yj, dj, den)
        }
    }
}

/// Everything `bresenham_aa` returns, in order.
pub open spec fn bresenham_aa_pixels(p1: Pixel, p2: Pixel) -> Seq<AntialiasedPixel> {
    Seq::new(bresenham_aa_len(p1, p2), |k: int| bresenham_aa_pixel(p1, p2, k))
}

/// Error-weighted Bresenham: integer stepping as in the classic line, but
/// the error accumulator `d`, read before its reset, becomes the exact
/// coverage fraction `d / span` of the neighbouring pixel, the primary
/// pixel keeping the complement.  Coincident endpoints yield one pair with
/// full coverage on the starting pixel.
#[verifier::loop_isolation(false)]
pub fn bresenham_aa<L: Logger>(p1: Pixel, p2: Pixel, logger: &mut L) -> (r: Vec<AntialiasedPixel>)
    requires
        i32::MIN < p1.x < i32::MAX,
        i32::MIN < p1.y < i32::MAX,
        i32::MIN < p2.x < i32::MAX,
        i32::MIN < p2.y < i32::MAX,
    ensures
        r@ == bresenham_aa_pixels(p1, p2),
        final (logger).writes() == old(logger).writes(),
        !old(logger).writes() ==> final (logger).trace() == old(logger).trace(),
        old(logger).trace().is_prefix_of(final (logger).trace()),
{
    let mut pixels: Vec<AntialiasedPixel> = Vec::new();
    let adx: i64 = abs_i64(p2.x as i64 - p1.x as i64);
    let ady: i64 = abs_i64(p2.y as i64 - p1.y as i64);
    let sx: i64 = if p1.x < p2.x {
        1
    } else {
        -1
    };
    let sy: i64 = if p1.y < p2.y {
        1
    } else {
        -1
    };
    let mut x: i64 = p1.x as i64;
    let mut y: i64 = p1.y as i64;
    let mut d: i64 = 0;
    let mut j: i64 = 0;
    if adx >= ady {
        let den: i64 = if adx == 0 {
            1
        } else {
            adx
        };
        while j <= adx
            invariant
                0 <= j <= adx + 1,
                pixels@.len() == 2 * j as int,
                x == p1.x + sx * j,
                y == p1.y + sy * ((j as int * ady) / den as int),
                d == (j as int * ady) % den as int,
                forall|k: int| 0 <= k < 2 * j as int ==> pixels@[k] == bresenham_aa_pixel(p1, p2, k),
                logger.writes() == old(logger).writes(),
                !old(logger).writes() ==> logger.trace() == old(logger).trace(),
                old(logger).trace().is_prefix_of(logger.trace()),
            decreases adx - j + 1,
        {
            proof {
                assert(2 * (j as int) / 2 == j as int && (2 * (j as int) + 1) / 2 == j as int && (2
                    * (j as int)) % 2 == 0 && (2 * (j as int) + 1) % 2 == 1) by (nonlinear_arith);
                lemma_bres_aa_step(ady as int, den as int, j as int);
                lemma_bres_aa_div_bounds(ady as int, den as int, j as int);
                crate::arith::lemma_mul_sign(sx as int, j as int);
                crate::arith::lemma_mul_sign(sy as int, (j as int * ady) / den as int);
                crate::arith::lemma_mul_sign(sy as int, (j as int * ady) / den as int + 1);
            }
            let low = AntialiasedPixel { x: x as i32, y: y as i32, cov_num: den - d, cov_den: den };
            let high = AntialiasedPixel {
                x: x as i32,
                y: (y + sy) as i32,
                cov_num: d,
                cov_den: den,
            };
            if logger.can_write() {
                let msg = trace_aa_message(x, y, den - d, den);
                let ghost m = msg@;
                let ghost prev = logger.trace();
                logger.log(msg);
                proof {
                    crate::logger::lemma_trace_prefix_log(old(logger).trace(), prev, m, logger.trace());
                }
            }
            pixels.push(low);
            pixels.push(high);
            proof {
                crate::arith::lemma_mul_sign(sx as int, j as int + 1);
                assert((j as int + 1) * ady == j as int * ady + ady) by (nonlinear_arith);
            }
            d = d + ady;
            if d >= den {
                d = d - den;
                y = y + sy;
            }
            x = x + sx;
            j = j + 1;
        }
    } else {
        let den: i64 = ady;
        while j <= ady
            invariant
                0 <= j <= ady + 1,
                pixels@.len() == 2 * j as int,
                y == p1.y + sy * j,
                x == p1.x + sx * ((j as int * adx) / den as int),
                d == (j as int * adx) % den as int,
                forall|k: int| 0 <= k < 2 * j as int ==> pixels@[k] == bresenham_aa_pixel(p1, p2, k),
                logger.writes() == old(logger).writes(),
                !old(logger).writes() ==> logger.trace() == old(logger).trace(),
                old(logger).trace().is_prefix_of(logger.trace()),
            decreases ady - j + 1,
        {
            proof {
                assert(2 * (j as int) / 2 == j as int && (2 * (j as int) + 1) / 2 == j as int && (2
                    * (j as int)) % 2 == 0 && (2 * (j as int) + 1) % 2 == 1) by (nonlinear_arith);
                lemma_bres_aa_step(adx as int, den as int, j as int);
                lemma_bres_aa_div_bounds(adx as int, den as int, j as int);
                crate::arith::lemma_mul_sign(sy as int, j as int);
                crate::arith::lemma_mul_sign(sx as int, (j as int * adx) / den as int);
                crate::arith::lemma_mul_sign(sx as int, (j as int * adx) / den as int + 1);
            }
            let low = AntialiasedPixel { x: x as i32, y: y as i32, cov_num: den - d, cov_den: den };
            let high = AntialiasedPixel {
                x: (x + sx) as i32,
                y: y as i32,
                cov_num: d,
                cov_den: den,
            };
            if logger.can_write() {
                let msg = trace_aa_message(y, x, den - d, den);
                let ghost m = msg@;
                let ghost prev = logger.trace();
                logger.log(msg);
                proof {
                    crate::logger::lemma_trace_prefix_log(old(logger).trace(), prev, m, logger.trace());
                }
            }
            pixels.push(low);
            pixels.push(high);
            proof {
                crate::arith::lemma_mul_sign(sy as int, j as int + 1);
                assert((j as int + 1) * adx == j as int * adx + adx) by (nonlinear_arith);
            }
            d = d + adx;
            if d >= den {
                d = d - den;
                x = x + sx;
            }
            y = y + sy;
            j = j + 1;
        }
    }
    proof {
        assert(pixels@ =~= bresenham_aa_pixels(p1, p2));
    }
    pixels
}

/// Wu's line emits its two entries of each step with the same positive
/// denominator, with complementary coverages that sum exactly to one.
pub proof fn lemma_wu_coverage_pairs(p1: Pixel, p2: Pixel)
    ensures
        forall|k: int|
            0 <= k && k + 1 < wu_pixels(p1, p2).len() && k % 2 == 0 ==> (#[trigger] wu_pixels(
                p1,
                p2,
            )[k]).cov_den == wu_pixels(p1, p2)[k + 1].cov_den && wu_pixels(p1, p2)[k].cov_num
                + wu_pixels(p1, p2)[k + 1].cov_num == wu_pixels(p1, p2)[k].cov_den && wu_pixels(
                p1,
                p2,
            )[k].valid() && wu_pixels(p1, p2)[k + 1].valid(),
{
    assert forall|k: int|
        0 <= k && k + 1 < wu_pixels(p1, p2).len() && k % 2 == 0 implies (#[trigger] wu_pixels(
        p1,
        p2,
    )[k]).cov_den == wu_pixels(p1, p2)[k + 1].cov_den && wu_pixels(p1, p2)[k].cov_num + wu_pixels(
        p1,
        p2,
    )[k + 1].cov_num == wu_pixels(p1, p2)[k].cov_den && wu_pixels(p1, p2)[k].valid() && wu_pixels(
        p1,
        p2,
    )[k + 1].valid() by {
        let f = wu_frame(p1, p2);
        let dx = f.1.0 - f.0.0;
        let den = if dx == 0 {
            1int
        } else {
            dx
        };
        let j = k / 2;
        assert((k + 1) / 2 == j && (k + 1) % 2 == 1);
        lemma_mod_bound(f.0.1 * den + j * (f.1.1 - f.0.1), den);
    }
}

/// The antialiased direct evaluator emits complementary coverage pairs.
pub proof fn lemma_step_by_step_aa_coverage_pairs(p1: Pixel, p2: Pixel)
    ensures
        forall|k: int|
            0 <= k && k + 1 < step_by_step_aa_pixels(p1, p2).len() && k % 2 == 0 ==> (
            #[trigger] step_by_step_aa_pixels(p1, p2)[k]).cov_den == step_by_step_aa_pixels(
                p1,
                p2,
            )[k + 1].cov_den && step_by_step_aa_pixels(p1, p2)[k].cov_num + step_by_step_aa_pixels(
                p1,
                p2,
            )[k + 1].cov_num == step_by_step_aa_pixels(p1, p2)[k].cov_den
                && step_by_step_aa_pixels(p1, p2)[k].valid() && step_by_step_aa_pixels(
                p1,
                p2,
            )[k + 1].valid(),
{
    assert forall|k: int|
        0 <= k && k + 1 < step_by_step_aa_pixels(p1, p2).len() && k % 2 == 0 implies (
    #[trigger] step_by_step_aa_pixels(p1, p2)[k]).cov_den == step_by_step_aa_pixels(
        p1,
        p2,
    )[k + 1].cov_den && step_by_step_aa_pixels(p1, p2)[k].cov_num + step_by_step_aa_pixels(
        p1,
        p2,
    )[k + 1].cov_num == step_by_step_aa_pixels(p1, p2)[k].cov_den && step_by_step_aa_pixels(
        p1,
        p2,
    )[k].valid() && step_by_step_aa_pixels(p1, p2)[k + 1].valid() by {
        let dx = p2.x - p1.x;
        let dy = p2.y - p1.y;
        let j = k / 2;
        assert((k + 1) / 2 == j && (k + 1) % 2 == 1);
        if iabs(dx) > iabs(dy) {
            let t = imin(p1.x as int, p2.x as int) + j;
            lemma_mod_bound(
                frac_line_num(p1.x as int, p1.y as int, p2.x as int, p2.y as int, t),
                iabs(dx),
            );
        } else if dy != 0 {
            let t = imin(p1.y as int, p2.y as int) + j;
            lemma_mod_bound(
                frac_line_num(p1.y as int, p1.x as int, p2.y as int, p2.x as int, t),
                iabs(dy),
            );
        }
    }
}

/// The antialiased differential analyzer emits complementary coverage
/// pairs.
pub proof fn lemma_dda_aa_coverage_pairs(p1: Pixel, p2: Pixel)
    ensures
        forall|k: int|
            0 <= k && k + 1 < dda_aa_pixels(p1, p2).len() && k % 2 == 0 ==> (
            #[trigger] dda_aa_pixels(p1, p2)[k]).cov_den == dda_aa_pixels(p1, p2)[k + 1].cov_den
                && dda_aa_pixels(p1, p2)[k].cov_num + dda_aa_pixels(p1, p2)[k + 1].cov_num
                == dda_aa_pixels(p1, p2)[k].cov_den && dda_aa_pixels(p1, p2)[k].valid()
                && dda_aa_pixels(p1, p2)[k + 1].valid(),
{
    assert forall|k: int|
        0 <= k && k + 1 < dda_aa_pixels(p1, p2).len() && k % 2 == 0 implies (
    #[trigger] dda_aa_pixels(p1, p2)[k]).cov_den == dda_aa_pixels(p1, p2)[k + 1].cov_den
        && dda_aa_pixels(p1, p2)[k].cov_num + dda_aa_pixels(p1, p2)[k + 1].cov_num == dda_aa_pixels(
        p1,
        p2,
    )[k].cov_den && dda_aa_pixels(p1, p2)[k].valid() && dda_aa_pixels(p1, p2)[k + 1].valid() by {
        let dx = p2.x - p1.x;
        let dy = p2.y - p1.y;
        let s = imax(iabs(dx), iabs(dy));
        let j = k / 2;
        assert((k + 1) / 2 == j && (k + 1) % 2 == 1);
        if s != 0 {
            if iabs(dy) > iabs(dx) {
                lemma_mod_bound(p1.x * s + j * dx, s);
            } else {
                lemma_mod_bound(p1.y * s + j * dy, s);
            }
        }
    }
}

/// The error-weighted Bresenham emits complementary coverage pairs.
pub proof fn lemma_bresenham_aa_coverage_pairs(p1: Pixel, p2: Pixel)
    ensures
        forall|k: int|
            0 <= k && k + 1 < bresenham_aa_pixels(p1, p2).len() && k % 2 == 0 ==> (
            #[trigger] bresenham_aa_pixels(p1, p2)[k]).cov_den == bresenham_aa_pixels(
                p1,
                p2,
            )[k + 1].cov_den && bresenham_aa_pixels(p1, p2)[k].cov_num + bresenham_aa_pixels(
                p1,
                p2,
            )[k + 1].cov_num == bresenham_aa_pixels(p1, p2)[k].cov_den && bresenham_aa_pixels(
                p1,
                p2,
            )[k].valid() && bresenham_aa_pixels(p1, p2)[k + 1].valid(),
{
    assert forall|k: int|
        0 <= k && k + 1 < bresenham_aa_pixels(p1, p2).len() && k % 2 == 0 implies (
    #[trigger] bresenham_aa_pixels(p1, p2)[k]).cov_den == bresenham_aa_pixels(
        p1,
        p2,
    )[k + 1].cov_den && bresenham_aa_pixels(p1, p2)[k].cov_num + bresenham_aa_pixels(
        p1,
        p2,
    )[k + 1].cov_num == bresenham_aa_pixels(p1, p2)[k].cov_den && bresenham_aa_pixels(
        p1,
        p2,
    )[k].valid() && bresenham_aa_pixels(p1, p2)[k + 1].valid() by {
        let a = iabs(p2.x - p1.x);
        let b = iabs(p2.y - p1.y);
        let j = k / 2;
        assert((k + 1) / 2 == j && (k + 1) % 2 == 1);
        if a >= b {
            let den = if a == 0 {
                1int
            } else {
                a
            };
            lemma_mod_bound(j * b, den);
        } else {
            lemma_mod_bound(j * a, b);
        }
    }
}

/// Wu's line starts and ends, on the dominant axis, at the smaller and
/// larger endpoint coordinate.
pub proof fn lemma_wu_endpoints(p1: Pixel, p2: Pixel)
    ensures
        wu_pixels(p1, p2).len() >= 2,
        wu_steep(p1, p2) ==> wu_pixels(p1, p2).first().y == imin(p1.y as int, p2.y as int)
            && wu_pixels(p1, p2).last().y == imax(p1.y as int, p2.y as int),
        !wu_steep(p1, p2) ==> wu_pixels(p1, p2).first().x == imin(p1.x as int, p2.x as int)
            && wu_pixels(p1, p2).last().x == imax(p1.x as int, p2.x as int),
{
    let f = wu_frame(p1, p2);
    let dx = f.1.0 - f.0.0;
    let n = wu_len(p1, p2) as int;
    assert((n - 1) / 2 == dx && (n - 1) % 2 == 1) by (nonlinear_arith)
        requires
            n == 2 * (dx + 1),
            dx >= 0,
    ;
    assert(0int / 2 == 0 && 0int % 2 == 0);
}

/// The antialiased direct evaluator starts and ends, on the dominant axis,
/// at the smaller and larger endpoint coordinate.
pub proof fn lemma_step_by_step_aa_endpoints(p1: Pixel, p2: Pixel)
    ensures
        step_by_step_aa_pixels(p1, p2).len() >= 2,
        iabs(p2.x - p1.x) > iabs(p2.y - p1.y) ==> step_by_step_aa_pixels(p1, p2).first().x == imin(
            p1.x as int,
            p2.x as int,
        ) && step_by_step_aa_pixels(p1, p2).last().x == imax(p1.x as int, p2.x as int),
        iabs(p2.x - p1.x) <= iabs(p2.y - p1.y) && p1.y != p2.y ==> step_by_step_aa_pixels(
            p1,
            p2,
        ).first().y == imin(p1.y as int, p2.y as int) && step_by_step_aa_pixels(p1, p2).last().y
            == imax(p1.y as int, p2.y as int),
        p1 == p2 ==> step_by_step_aa_pixels(p1, p2).first().x == p1.x
            && step_by_step_aa_pixels(p1, p2).last().y == p1.y,
{
    let dx = p2.x - p1.x;
    let dy = p2.y - p1.y;
    let n = step_by_step_aa_len(p1, p2) as int;
    let m = imax(iabs(dx), iabs(dy));
    assert((n - 1) / 2 == m && (n - 1) % 2 == 1) by (nonlinear_arith)
        requires
            n == 2 * (m + 1),
            m >= 0,
    ;
    assert(0int / 2 == 0 && 0int % 2 == 0);
    if iabs(dx) > iabs(dy) {
        lemma_frac_line_bounds(p1.x as int, p1.y as int, p2.x as int, p2.y as int, imin(p1.x as int, p2.x as int));
        lemma_frac_line_bounds(p1.x as int, p1.y as int, p2.x as int, p2.y as int, imax(p1.x as int, p2.x as int));
    } else if dy != 0 {
        lemma_frac_line_bounds(p1.y as int, p1.x as int, p2.y as int, p2.x as int, imin(p1.y as int, p2.y as int));
        lemma_frac_line_bounds(p1.y as int, p1.x as int, p2.y as int, p2.x as int, imax(p1.y as int, p2.y as int));
    }
}

/// The antialiased differential analyzer starts at the first endpoint's
/// dominant coordinate and ends at the second's.
pub proof fn lemma_dda_aa_endpoints(p1: Pixel, p2: Pixel)
    ensures
        dda_aa_pixels(p1, p2).len() >= 2,
        iabs(p2.y - p1.y) > iabs(p2.x - p1.x) ==> dda_aa_pixels(p1, p2).first().y == p1.y
            && dda_aa_pixels(p1, p2).last().y == p2.y,
        iabs(p2.y - p1.y) <= iabs(p2.x - p1.x) ==> dda_aa_pixels(p1, p2).first().x == p1.x
            && dda_aa_pixels(p1, p2).last().x == p2.x,
{
    let dx = p2.x - p1.x;
    let dy = p2.y - p1.y;
    let s = imax(iabs(dx), iabs(dy));
    let n = dda_aa_len(p1, p2) as int;
    assert((n - 1) / 2 == s && (n - 1) % 2 == 1) by (nonlinear_arith)
        requires
            n == 2 * (s + 1),
            s >= 0,
    ;
    assert(0int / 2 == 0 && 0int % 2 == 0);
    if s != 0 {
        assert(p1.x * s + 0 * dx == p1.x * s) by (nonlinear_arith);
        assert(p1.y * s + 0 * dy == p1.y * s) by (nonlinear_arith);
        crate::arith::lemma_round_div_exact(p1.x as int, s);
        crate::arith::lemma_round_div_exact(p1.y as int, s);
        assert(p1.x * s + s * dx == p2.x * s) by (nonlinear_arith)
            requires
                dx == p2.x - p1.x as int,
        ;
        assert(p1.y * s + s * dy == p2.y * s) by (nonlinear_arith)
            requires
                dy == p2.y - p1.y as int,
        ;
        crate::arith::lemma_round_div_exact(p2.x as int, s);
        crate::arith::lemma_round_div_exact(p2.y as int, s);
    }
}

/// The error-weighted Bresenham's primary pixels start exactly at the
/// first endpoint and end exactly at the second.
pub proof fn lemma_bresenham_aa_endpoints(p1: Pixel, p2: Pixel)
    ensures
        bresenham_aa_pixels(p1, p2).len() >= 2,
        bresenham_aa_pixels(p1, p2).first().x == p1.x,
        bresenham_aa_pixels(p1, p2).first().y == p1.y,
        bresenham_aa_pixels(p1, p2)[bresenham_aa_pixels(p1, p2).len() - 2].x == p2.x,
        bresenham_aa_pixels(p1, p2)[bresenham_aa_pixels(p1, p2).len() - 2].y == p2.y,
{
    let a = iabs(p2.x - p1.x);
    let b = iabs(p2.y - p1.y);
    let sx = step_dir(p1.x as int, p2.x as int);
    let sy = step_dir(p1.y as int, p2.y as int);
    let n = bresenham_aa_len(p1, p2) as int;
    let m = imax(a, b);
    assert((n - 2) / 2 == m && (n - 2) % 2 == 0) by (nonlinear_arith)
        requires
            n == 2 * (m + 1),
            m >= 0,
    ;
    assert(0int / 2 == 0 && 0int % 2 == 0);
    crate::arith::lemma_mul_sign(sx, 0);
    crate::arith::lemma_mul_sign(sy, 0);
    crate::arith::lemma_mul_sign(sx, a);
    crate::arith::lemma_mul_sign(sy, b);
    crate::arith::lemma_mul_sign(sx, m);
    crate::arith::lemma_mul_sign(sy, m);
    if a >= b {
        let den = if a == 0 {
            1int
        } else {
            a
        };
        assert(0int * b == 0) by (nonlinear_arith);
        lemma_fundamental_div_mod_converse(0, den, 0, 0);
        assert(m * b == b * den || a == 0) by (nonlinear_arith)
            requires
                m == a,
                den == if a == 0 {
                    1int
                } else {
                    a
                },
        ;
        if a != 0 {
            lemma_fundamental_div_mod_converse(m * b, den, b, 0);
        }
        crate::arith::lemma_mul_sign(sy, (m * b) / den);
    } else {
        assert(0int * a == 0) by (nonlinear_arith);
        lemma_fundamental_div_mod_converse(0, b, 0, 0);
        assert(m * a == a * b) by (nonlinear_arith)
            requires
                m == b,
        ;
        lemma_fundamental_div_mod_converse(m * a, b, a, 0);
        crate::arith::lemma_mul_sign(sx, (m * a) / b);
    }
}

} // verus!
