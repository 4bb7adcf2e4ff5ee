//! The Bresenham (midpoint) circle rasterizer: one octant is walked with
//! an integer decision variable and every computed offset is reflected
//! into all eight octants around the center.

use crate::arith::iabs;
use crate::logger::Logger;
use crate::pixel::{px, Pixel};
use vstd::prelude::*;
use vstd::string::StringExecFns;

verus! {

/// The center offsets the octant walk emits from state `(x, y, d)` on:
/// eight reflections per iteration while `y >= x`, with the decision
/// variable `d` driving whether `y` steps down.
pub open spec fn circle_offsets(x: int, y: int, d: int) -> Seq<(int, int)>
    decreases y - x + 2,
{
    if y < x {
        Seq::empty()
    } else {
        let batch = seq![
            (x, y),
            (-x, y),
            (x, -y),
            (-x, -y),
            (y, x),
            (-y, x),
            (y, -x),
            (-y, -x),
        ];
        if d > 0 {
            batch + circle_offsets(x + 1, y - 1, d + 4 * ((x + 1) - (y - 1)) + 10)
        } else {
            batch + circle_offsets(x + 1, y, d + 4 * (x + 1) + 6)
        }
    }
}

/// The circle's offsets placed around a center.
pub open spec fn offsets_pixels(center: Pixel, offs: Seq<(int, int)>) -> Seq<Pixel> {
    Seq::new(offs.len(), |i: int| px(center.x + offs[i].0, center.y + offs[i].1))
}

/// Everything `bresenham_circle` returns, in order: the full octant walk
/// started at `(0, radius)` with decision variable `3 - 2 * radius`.
pub open spec fn circle_pixels(center: Pixel, radius: int) -> Seq<Pixel> {
    offsets_pixels(center, circle_offsets(0, radius, 3 - 2 * radius))
}

/// Every offset of the octant walk is bounded by the starting `y`.
pub proof fn lemma_circle_offsets_bounds(x: int, y: int, d: int)
    requires
        0 <= x,
    ensures
        forall|j: int|
            0 <= j < circle_offsets(x, y, d).len() ==> iabs(#[trigger] circle_offsets(x, y, d)[j].0)
                <= y && iabs(circle_offsets(x, y, d)[j].1) <= y,
    decreases y - x + 2,
{
    if y < x {
    } else {
        let s = circle_offsets(x, y, d);
        let rest = if d > 0 {
            circle_offsets(x + 1, y - 1, d + 4 * ((x + 1) - (y - 1)) + 10)
        } else {
            circle_offsets(x + 1, y, d + 4 * (x + 1) + 6)
        };
        if d > 0 {
            lemma_circle_offsets_bounds(x + 1, y - 1, d + 4 * ((x + 1) - (y - 1)) + 10);
        } else {
            lemma_circle_offsets_bounds(x + 1, y, d + 4 * (x + 1) + 6);
        }
        assert forall|j: int| 0 <= j < s.len() implies iabs(#[trigger] s[j].0) <= y && iabs(
            s[j].1,
        ) <= y by {
            if j >= 8 {
                assert(s[j] == rest[j - 8]);
            }
        }
    }
}

/// The octant walk's offset set is closed under swapping the axes and
/// under negating either axis.
pub proof fn lemma_circle_offsets_symmetric(x: int, y: int, d: int, o: (int, int))
    requires
        circle_offsets(x, y, d).contains(o),
    ensures
        circle_offsets(x, y, d).contains((o.1, o.0)),
        circle_offsets(x, y, d).contains((-o.0, o.1)),
        circle_offsets(x, y, d).contains((o.0, -o.1)),
    decreases y - x + 2,
{
    if y < x {
    } else {
        let s = circle_offsets(x, y, d);
        let batch = seq![
            (x, y),
            (-x, y),
            (x, -y),
            (-x, -y),
            (y, x),
            (-y, x),
            (y, -x),
            (-y, -x),
        ];
        let rest = if d > 0 {
            circle_offsets(x + 1, y - 1, d + 4 * ((x + 1) - (y - 1)) + 10)
        } else {
            circle_offsets(x + 1, y, d + 4 * (x + 1) + 6)
        };
        assert(s == batch + rest);
        let j = choose|j: int| 0 <= j < s.len() && s[j] == o;
        assert(forall|k: int| 0 <= k < 8 ==> s[k] == batch[k]);
        assert(forall|k: int| 0 <= k < rest.len() ==> s[k + 8] == rest[k]);
        if j < 8 {
            // the eight-element batch is itself closed under the reflections
            assert(s[0] == (x, y) && s[1] == (-x, y) && s[2] == (x, -y) && s[3] == (-x, -y) && s[4]
                == (y, x) && s[5] == (-y, x) && s[6] == (y, -x) && s[7] == (-y, -x));
        } else {
            assert(rest.contains(o)) by {
                assert(rest[j - 8] == s[j]);
            }
            if d > 0 {
                lemma_circle_offsets_symmetric(
                    x + 1,
                    y - 1,
                    d + 4 * ((x + 1) - (y - 1)) + 10,
                    o,
                );
            } else {
                lemma_circle_offsets_symmetric(x + 1, y, d + 4 * (x + 1) + 6, o);
            }
            let k1 = choose|k: int| 0 <= k < rest.len() && rest[k] == (o.1, o.0);
            assert(s[k1 + 8] == (o.1, o.0));
            let k2 = choose|k: int| 0 <= k < rest.len() && rest[k] == (-o.0, o.1);
            assert(s[k2 + 8] == (-o.0, o.1));
            let k3 = choose|k: int| 0 <= k < rest.len() && rest[k] == (o.0, -o.1);
            assert(s[k3 + 8] == (o.0, -o.1));
        }
    }
}

/// A circle drawn around the origin has a pixel set symmetric under the
/// eight octant reflections.
pub proof fn lemma_bresenham_circle_symmetric(radius: int, q: Pixel)
    requires
        0 <= radius <= i32::MAX,
        circle_pixels(px(0, 0), radius).to_set().contains(q),
    ensures
        circle_pixels(px(0, 0), radius).to_set().contains(px(q.y as int, q.x as int)),
        circle_pixels(px(0, 0), radius).to_set().contains(px(-q.x, q.y as int)),
        circle_pixels(px(0, 0), radius).to_set().contains(px(q.x as int, -q.y)),
        circle_pixels(px(0, 0), radius).to_set().contains(px(-q.x, -q.y)),
        circle_pixels(px(0, 0), radius).to_set().contains(px(-q.y, q.x as int)),
        circle_pixels(px(0, 0), radius).to_set().contains(px(q.y as int, -q.x)),
        circle_pixels(px(0, 0), radius).to_set().contains(px(-q.y, -q.x)),
{
    let offs = circle_offsets(0, radius, 3 - 2 * radius);
    let pix = circle_pixels(px(0, 0), radius);
    lemma_circle_offsets_bounds(0, radius, 3 - 2 * radius);
    let i = choose|i: int| 0 <= i < pix.len() && pix[i] == q;
    let o = offs[i];
    assert(q == px(o.0, o.1));
    assert(q.x == o.0 && q.y == o.1);
    lemma_circle_offsets_symmetric(0, radius, 3 - 2 * radius, o);
    lemma_circle_offsets_symmetric(0, radius, 3 - 2 * radius, (o.1, o.0));
    lemma_circle_offsets_symmetric(0, radius, 3 - 2 * radius, (-o.0, o.1));
    lemma_circle_offsets_symmetric(0, radius, 3 - 2 * radius, (o.1, -o.0));
    lemma_circle_offsets_symmetric(0, radius, 3 - 2 * radius, (-o.1, o.0));
    assert forall|oo: (int, int)| offs.contains(oo) implies pix.to_set().contains(
        px(oo.0, oo.1),
    ) by {
        let k = choose|k: int| 0 <= k < offs.len() && offs[k] == oo;
        assert(pix[k] == px(oo.0, oo.1));
        assert(pix.contains(pix[k]));
    }
}

/// Builds the trace line for one octant step.
fn trace_circle_message(x: i64, y: i64, d: i128) -> (r: String) {
    String::from_str("x = ")
        .concat(x.to_string().as_str())
        .concat(", y = ")
        .concat(y.to_string().as_str())
        .concat(", d = ")
        .concat(d.to_string().as_str())
}

/// Bresenham midpoint circle: walks one octant from `(0, radius)` while
/// `y >= x`, updating the decision variable by `4x + 6` or
/// `4(x - y) + 10`, and reflects every offset into all eight octants
/// around the center.  A negative radius yields no pixels; a zero radius
/// yields the eight (coincident) reflections of the center itself.
#[verifier::loop_isolation(false)]
pub fn bresenham_circle<L: Logger>(center: Pixel, radius: i32, logger: &mut L) -> (r: Vec<Pixel>)
    requires
        center.x - radius >= i32::MIN,
        center.x + radius <= i32::MAX,
        center.y - radius >= i32::MIN,
        center.y + radius <= i32::MAX,
    ensures
        r@ == circle_pixels(center, radius as int),
        final (logger).writes() == old(logger).writes(),
        !old(logger).writes() ==> final (logger).trace() == old(logger).trace(),
        old(logger).trace().is_prefix_of(final (logger).trace()),
        radius < 0 ==> final (logger).trace() == old(logger).trace(),
{
    let mut pixels: Vec<Pixel> = Vec::new();
    let cx: i64 = center.x as i64;
    let cy: i64 = center.y as i64;
    let rr: i64 = radius as i64;
    let mut x: i64 = 0;
    let mut y: i64 = rr;
    let mut d: i128 = 3 - 2 * (rr as i128);
    proof {
        assert(0int * (4 * rr + 18) == 0) by (nonlinear_arith);
        assert(circle_pixels(center, radius as int) =~= Seq::<Pixel>::empty() + offsets_pixels(
            center,
            circle_offsets(0, rr as int, 3 - 2 * (rr as int)),
        ));
    }
    while y >= x
        invariant
            0 <= x,
            logger.writes() == old(logger).writes(),
            !old(logger).writes() ==> logger.trace() == old(logger).trace(),
            old(logger).trace().is_prefix_of(logger.trace()),
            rr < 0 ==> logger.trace() == old(logger).trace(),
            rr >= 0 ==> x <= y + 2,
            y <= rr,
            rr >= 0 ==> iabs(d as int) <= 2 * rr + 3 + x * (4 * rr + 18),
            circle_pixels(center, radius as int) == pixels@ + offsets_pixels(
                center,
                circle_offsets(x as int, y as int, d as int),
            ),
        decreases y - x + 2,
    {
        proof {
            assert(iabs(d as int) <= 0x40_0000_0000_0000_0000) by (nonlinear_arith)
                requires
                    iabs(d as int) <= 2 * rr + 3 + x * (4 * rr + 18),
                    0 <= x,
                    x <= y + 2,
                    y <= rr,
                    0 <= rr < 0x1_0000_0000,
            ;
        }
        if logger.can_write() {
            let msg = trace_circle_message(x, y, d);
            let ghost m = msg@;
            let ghost prev = logger.trace();
            logger.log(msg);
            proof {
                crate::logger::lemma_trace_prefix_log(old(logger).trace(), prev, m, logger.trace());
            }
        }
        let ghost oldpix = pixels@;
        let ghost offs = circle_offsets(x as int, y as int, d as int);
        pixels.push(Pixel { x: (cx + x) as i32, y: (cy + y) as i32 });
        pixels.push(Pixel { x: (cx - x) as i32, y: (cy + y) as i32 });
        pixels.push(Pixel { x: (cx + x) as i32, y: (cy - y) as i32 });
        pixels.push(Pixel { x: (cx - x) as i32, y: (cy - y) as i32 });
        pixels.push(Pixel { x: (cx + y) as i32, y: (cy + x) as i32 });
        pixels.push(Pixel { x: (cx - y) as i32, y: (cy + x) as i32 });
        pixels.push(Pixel { x: (cx + y) as i32, y: (cy - x) as i32 });
        pixels.push(Pixel { x: (cx - y) as i32, y: (cy - x) as i32 });
        let ghost oldx = x as int;
        let ghost oldy = y as int;
        let ghost oldd = d as int;
        x = x + 1;
        if d > 0 {
            y = y - 1;
            d = d + 4 * ((x as i128) - (y as i128)) + 10;
        } else {
            d = d + 4 * (x as i128) + 6;
        }
        proof {
            assert((oldx + 1) * (4 * rr + 18) == oldx * (4 * rr + 18) + 4 * rr + 18)
                by (nonlinear_arith);
            let newoffs = circle_offsets(x as int, y as int, d as int);
            assert(offs == offs.subrange(0, 8) + newoffs);
            assert(offsets_pixels(center, offs) =~= offsets_pixels(center, offs.subrange(0, 8))
                + offsets_pixels(center, newoffs));
            assert(pixels@ =~= oldpix + offsets_pixels(center, offs.subrange(0, 8)));
            assert(pixels@ + offsets_pixels(center, newoffs) =~= oldpix + offsets_pixels(
                center,
                offs,
            ));
        }
    }
    proof {
        assert(circle_offsets(x as int, y as int, d as int) == Seq::<(int, int)>::empty());
        assert(pixels@ =~= circle_pixels(center, radius as int));
    }
    pixels
}

} // verus!
