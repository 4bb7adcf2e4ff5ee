//! Exact integer arithmetic shared by the rasterizers: absolute values,
//! step directions, and rounding of rationals to the nearest integer.

use vstd::arithmetic::div_mod::{
    lemma_div_is_ordered, lemma_fundamental_div_mod, lemma_fundamental_div_mod_converse,
};
use vstd::prelude::*;

verus! {

/// Absolute value of a mathematical integer.
pub open spec fn iabs(a: int) -> int {
    if a < 0 {
        -a
    } else {
        a
    }
}

/// Smaller of two integers.
pub open spec fn imin(a: int, b: int) -> int {
    if a <= b {
        a
    } else {
        b
    }
}

/// Larger of two integers.
pub open spec fn imax(a: int, b: int) -> int {
    if a >= b {
        a
    } else {
        b
    }
}

/// The unit step a rasterizer takes on one axis: `1` toward a larger target
/// coordinate, `-1` otherwise (also `-1` when the coordinates coincide).
pub open spec fn step_dir(from: int, to: int) -> int {
    if from < to {
        1
    } else {
        -1
    }
}

/// Nearest integer to `num / den` for `den > 0`, ties rounded away from zero.
pub open spec fn round_div(num: int, den: int) -> int
    recommends
        den > 0,
{
    if num >= 0 {
        (2 * num + den) / (2 * den)
    } else {
        -((2 * (-num) + den) / (2 * den))
    }
}

/// Nearest integer to `num / den` for any `den != 0`, ties away from zero.
pub open spec fn round_rat(num: int, den: int) -> int
    recommends
        den != 0,
{
    if den < 0 {
        round_div(-num, -den)
    } else {
        round_div(num, den)
    }
}

/// `round_div(num, den)` differs from the exact quotient by at most one half:
/// `2 * den * q - den <= 2 * num <= 2 * den * q + den`.
pub proof fn lemma_round_div_char(num: int, den: int)
    requires
        den > 0,
    ensures
        2 * den * round_div(num, den) - den <= 2 * num <= 2 * den * round_div(num, den) + den,
{
    if num >= 0 {
        let q = (2 * num + den) / (2 * den);
        lemma_fundamental_div_mod(2 * num + den, 2 * den);
        let r = (2 * num + den) % (2 * den);
        vstd::arithmetic::div_mod::lemma_mod_bound(2 * num + den, 2 * den);
        assert(2 * num == 2 * den * q + r - den);
    } else {
        let m = -num;
        let q = (2 * m + den) / (2 * den);
        lemma_fundamental_div_mod(2 * m + den, 2 * den);
        let r = (2 * m + den) % (2 * den);
        vstd::arithmetic::div_mod::lemma_mod_bound(2 * m + den, 2 * den);
        assert(2 * m == 2 * den * q + r - den);
        assert(2 * num == 2 * den * (-q) + den - r) by (nonlinear_arith)
            requires
                num == -m,
                2 * m == 2 * den * q + r - den,
        ;
    }
}

/// Rounding a quotient that is exactly an integer returns that integer.
pub proof fn lemma_round_div_exact(k: int, den: int)
    requires
        den > 0,
    ensures
        round_div(k * den, den) == k,
{
    lemma_round_div_char(k * den, den);
    let q = round_div(k * den, den);
    assert(2 * den * q - den <= 2 * (k * den) <= 2 * den * q + den);
    assert(2 * (k * den) == 2 * den * k) by (nonlinear_arith);
    assert(den * (2 * q - 2 * k) <= den && -den <= den * (2 * q - 2 * k)) by (nonlinear_arith)
        requires
            2 * den * q - den <= 2 * den * k <= 2 * den * q + den,
    ;
    assert(2 * q - 2 * k <= 0 && 0 <= 2 * q - 2 * k + 1) by (nonlinear_arith)
        requires
            den > 0,
            den * (2 * q - 2 * k) <= den,
            -den <= den * (2 * q - 2 * k),
    ;
}

/// A rounded quotient lies between any integer bounds that bracket the
/// exact quotient.
pub proof fn lemma_round_div_bounds(num: int, den: int, lo: int, hi: int)
    requires
        den > 0,
        lo * den <= num,
        num <= hi * den,
    ensures
        lo <= round_div(num, den) <= hi,
{
    lemma_round_div_char(num, den);
    let q = round_div(num, den);
    assert(lo <= q) by (nonlinear_arith)
        requires
            den > 0,
            lo * den <= num,
            2 * num <= 2 * den * q + den,
    ;
    assert(q <= hi) by (nonlinear_arith)
        requires
            den > 0,
            num <= hi * den,
            2 * den * q - den <= 2 * num,
    ;
}

/// The Euclidean quotient lies between any integer bounds that bracket the
/// exact quotient.
pub proof fn lemma_floor_div_bounds(num: int, den: int, lo: int, hi: int)
    requires
        den > 0,
        lo * den <= num,
        num <= hi * den,
    ensures
        lo <= num / den <= hi,
{
    lemma_fundamental_div_mod_converse(lo * den, den, lo, 0);
    lemma_fundamental_div_mod_converse(hi * den, den, hi, 0);
    lemma_div_is_ordered(lo * den, num, den);
    lemma_div_is_ordered(num, hi * den, den);
}

/// Multiplication by a unit sign, written out for the linear solver.
pub proof fn lemma_mul_sign(s: int, v: int)
    ensures
        s == 1 ==> s * v == v,
        s == -1 ==> s * v == -v,
        v == 0 ==> s * v == 0,
{
    assert((s == 1 ==> s * v == v) && (s == -1 ==> s * v == -v) && (v == 0 ==> s * v == 0))
        by (nonlinear_arith);
}

/// `a * b + c * d`, exactly, for operands of moderate magnitude.
pub fn mul_add_i128(a: i128, b: i128, c: i128, d: i128) -> (r: i128)
    requires
        iabs(a as int) < 0x80_0000_0000_0000,
        iabs(b as int) < 0x80_0000_0000_0000,
        iabs(c as int) < 0x80_0000_0000_0000,
        iabs(d as int) < 0x80_0000_0000_0000,
    ensures
        r == a * b + c * d,
        iabs(r as int) < 0x1_0000_0000_0000_0000_0000_0000_0000,
{
    proof {
        assert(iabs(a as int * b as int) < 0x4000_0000_0000_0000_0000_0000_0000
            && iabs(c as int * d as int) < 0x4000_0000_0000_0000_0000_0000_0000)
            by (nonlinear_arith)
            requires
                iabs(a as int) < 0x80_0000_0000_0000,
                iabs(b as int) < 0x80_0000_0000_0000,
                iabs(c as int) < 0x80_0000_0000_0000,
                iabs(d as int) < 0x80_0000_0000_0000,
        ;
    }
    a * b + c * d
}

/// Absolute value of an `i64`, as an `i64`.
pub fn abs_i64(a: i64) -> (r: i64)
    requires
        i64::MIN < a,
    ensures
        r == iabs(a as int),
{
    if a < 0 {
        -a
    } else {
        a
    }
}

/// Euclidean (floor) quotient of `num / den` for `den > 0`.
pub fn floor_div_i128(num: i128, den: i128) -> (r: i128)
    requires
        0 < den,
        i128::MIN < num,
    ensures
        r == num as int / den as int,
{
    if num >= 0 {
        let q: u128 = (num as u128) / (den as u128);
        proof {
            let n = num as int;
            let d = den as int;
            assert(n <= n * d) by (nonlinear_arith)
                requires
                    0 <= n,
                    1 <= d,
            ;
            lemma_floor_div_bounds(n, d, 0, n);
        }
        q as i128
    } else {
        let m: u128 = (-num) as u128;
        // ceil(m / den) written without risking overflow in m + den - 1
        let q: u128 = (m - 1) / (den as u128) + 1;
        proof {
            let mi = m as int;
            let d = den as int;
            lemma_fundamental_div_mod(mi - 1, d);
            vstd::arithmetic::div_mod::lemma_mod_bound(mi - 1, d);
            assert(mi - 1 <= (mi - 1) * d) by (nonlinear_arith)
                requires
                    0 <= mi - 1,
                    1 <= d,
            ;
            lemma_floor_div_bounds(mi - 1, d, 0, mi - 1);
            let qq = (mi - 1) / d + 1;
            let rr = (mi - 1) % d;
            // -m == (-qq) * d + (d - 1 - rr), with 0 <= d - 1 - rr < d
            assert(-mi == (-qq) * d + (d - 1 - rr)) by (nonlinear_arith)
                requires
                    mi - 1 == d * (qq - 1) + rr,
            ;
            lemma_fundamental_div_mod_converse(-mi, d, -qq, d - 1 - rr);
        }
        -(q as i128)
    }
}

/// Euclidean remainder of `num / den` for `den > 0`; the result is in `[0, den)`.
pub fn floor_mod_i128(num: i128, den: i128) -> (r: i128)
    requires
        0 < den,
        i128::MIN < num,
        iabs(num as int) < 0x2000_0000_0000_0000_0000_0000_0000_0000,
        den < 0x2000_0000_0000_0000_0000_0000_0000_0000,
    ensures
        r == num as int % den as int,
        0 <= r < den,
{
    let q = floor_div_i128(num, den);
    proof {
        lemma_fundamental_div_mod(num as int, den as int);
        vstd::arithmetic::div_mod::lemma_mod_bound(num as int, den as int);
    }
    num - den * q
}

/// Nearest integer to `num / den` for `den > 0`, ties away from zero.
pub fn round_div_i128(num: i128, den: i128) -> (r: i128)
    requires
        0 < den < 0x2000_0000_0000_0000_0000_0000_0000_0000,
        iabs(num as int) < 0x2000_0000_0000_0000_0000_0000_0000_0000,
    ensures
        r == round_div(num as int, den as int),
{
    if num >= 0 {
        let q: u128 = (2 * (num as u128) + (den as u128)) / (2 * (den as u128));
        proof {
            let n2 = 2 * (num as int) + den as int;
            let d2 = 2 * (den as int);
            assert(n2 <= (num as int + 1) * d2) by (nonlinear_arith)
                requires
                    0 <= num as int,
                    1 <= den as int,
                    n2 == 2 * (num as int) + den as int,
                    d2 == 2 * (den as int),
            ;
            lemma_floor_div_bounds(n2, d2, 0, num as int + 1);
        }
        q as i128
    } else {
        let m: u128 = (-num) as u128;
        let q: u128 = (2 * m + (den as u128)) / (2 * (den as u128));
        proof {
            let n2 = 2 * (m as int) + den as int;
            let d2 = 2 * (den as int);
            assert(n2 <= (m as int + 1) * d2) by (nonlinear_arith)
                requires
                    0 <= m as int,
                    1 <= den as int,
                    n2 == 2 * (m as int) + den as int,
                    d2 == 2 * (den as int),
            ;
            lemma_floor_div_bounds(n2, d2, 0, m as int + 1);
        }
        -(q as i128)
    }
}

/// Nearest integer to `num / den` for any `den != 0`, ties away from zero.
pub fn round_rat_i128(num: i128, den: i128) -> (r: i128)
    requires
        den != 0,
        i128::MIN < den,
        iabs(den as int) < 0x2000_0000_0000_0000_0000_0000_0000_0000,
        iabs(num as int) < 0x2000_0000_0000_0000_0000_0000_0000_0000,
    ensures
        r == round_rat(num as int, den as int),
{
    if den < 0 {
        round_div_i128(-num, -den)
    } else {
        round_div_i128(num, den)
    }
}

} // verus!
