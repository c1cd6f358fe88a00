//! Rounded division of integers, and bounds of products.

use vstd::prelude::*;
use vstd::arithmetic::div_mod::{
    lemma_fundamental_div_mod,
    lemma_fundamental_div_mod_converse_div,
    lemma_mod_bound,
};

verus! {

/// The quotient rounded towards minus infinity, for a positive divisor.
pub open spec fn floor_div(n: int, d: int) -> int {
    n / d
}

/// The quotient rounded towards plus infinity, for a positive divisor.
pub open spec fn ceil_div(n: int, d: int) -> int {
    -((-n) / d)
}

/// The rounded-down quotient is the largest integer whose multiple of `d`
/// does not exceed `n`.
pub proof fn lemma_floor_div(n: int, d: int)
    requires
        d > 0,
    ensures
        d * floor_div(n, d) <= n < d * floor_div(n, d) + d,
{
    lemma_fundamental_div_mod(n, d);
    lemma_mod_bound(n, d);
}

/// The rounded-up quotient is the smallest integer whose multiple of `d`
/// is not below `n`.
pub proof fn lemma_ceil_div(n: int, d: int)
    requires
        d > 0,
    ensures
        d * ceil_div(n, d) - d < n <= d * ceil_div(n, d),
{
    lemma_floor_div(-n, d);
    assert(d * (-((-n) / d)) == -(d * ((-n) / d))) by (nonlinear_arith);
}

/// An integer whose multiple of `d` lies within `d` below `n` is the
/// rounded-down quotient.
pub proof fn lemma_floor_div_unique(n: int, d: int, q: int)
    requires
        d > 0,
        d * q <= n < d * q + d,
    ensures
        floor_div(n, d) == q,
{
    assert(q * d == d * q) by (nonlinear_arith);
    lemma_fundamental_div_mod_converse_div(n, d, q, n - d * q);
}

/// Rounding down keeps the order.
pub proof fn lemma_floor_div_monotone(m: int, n: int, d: int)
    requires
        d > 0,
        m <= n,
    ensures
        floor_div(m, d) <= floor_div(n, d),
{
    lemma_floor_div(m, d);
    lemma_floor_div(n, d);
    let a = floor_div(m, d);
    let b = floor_div(n, d);
    assert(a <= b) by (nonlinear_arith)
        requires
            d > 0,
            d * a <= m,
            m <= n,
            n < d * b + d,
    ;
}

/// Rounding up keeps the order.
pub proof fn lemma_ceil_div_monotone(m: int, n: int, d: int)
    requires
        d > 0,
        m <= n,
    ensures
        ceil_div(m, d) <= ceil_div(n, d),
{
    lemma_floor_div_monotone(-n, -m, d);
}

/// The rounded-up quotient exceeds the rounded-down one by one at most.
pub proof fn lemma_ceil_le_floor_plus_one(n: int, d: int)
    requires
        d > 0,
    ensures
        floor_div(n, d) <= ceil_div(n, d) <= floor_div(n, d) + 1,
{
    lemma_floor_div(n, d);
    lemma_ceil_div(n, d);
    let a = floor_div(n, d);
    let b = ceil_div(n, d);
    assert(a <= b <= a + 1) by (nonlinear_arith)
        requires
            d > 0,
            d * a <= n < d * a + d,
            d * b - d < n <= d * b,
    ;
}

/// A product is bounded by the product of the bounds of its factors.
pub proof fn lemma_mul_bound(a: int, b: int, ma: int, mb: int)
    requires
        -ma <= a <= ma,
        -mb <= b <= mb,
    ensures
        -(ma * mb) <= a * b <= ma * mb,
{
    assert(-(ma * mb) <= a * b <= ma * mb) by (nonlinear_arith)
        requires
            -ma <= a <= ma,
            -mb <= b <= mb,
    ;
}

/// Largest magnitude of a dividend of the rounded divisions below.
pub const DIVIDEND_MAX: i128 = 0x1_0000_0000_0000_0000_0000_0000;

/// Computes [`floor_div`].
pub fn floor_div_i128(n: i128, d: i128) -> (q: i128)
    requires
        d > 0,
        -DIVIDEND_MAX <= n <= DIVIDEND_MAX,
        d <= DIVIDEND_MAX,
    ensures
        q == floor_div(n as int, d as int),
        -DIVIDEND_MAX <= q <= DIVIDEND_MAX,
{
    proof {
        lemma_floor_div(n as int, d as int);
        let q = floor_div(n as int, d as int);
        assert(-DIVIDEND_MAX <= q <= DIVIDEND_MAX) by (nonlinear_arith)
            requires
                d > 0,
                d * q <= n < d * q + d,
                -DIVIDEND_MAX <= n <= DIVIDEND_MAX,
        ;
    }
    if n >= 0 {
        ((n as u128) / (d as u128)) as i128
    } else {
        let m: u128 = (-n) as u128;
        let up: u128 = (m + (d as u128) - 1) / (d as u128);
        proof {
            let mi = m as int;
            let di = d as int;
            let ui = up as int;
            lemma_floor_div(mi + di - 1, di);
            assert(di * (-ui) <= n < di * (-ui) + di) by (nonlinear_arith)
                requires
                    di > 0,
                    di * ui <= mi + di - 1 < di * ui + di,
                    n == -mi,
            ;
            lemma_floor_div_unique(n as int, di, -ui);
        }
        -(up as i128)
    }
}

/// Computes [`ceil_div`].
pub fn ceil_div_i128(n: i128, d: i128) -> (q: i128)
    requires
        d > 0,
        -DIVIDEND_MAX <= n <= DIVIDEND_MAX,
        d <= DIVIDEND_MAX,
    ensures
        q == ceil_div(n as int, d as int),
        -DIVIDEND_MAX <= q <= DIVIDEND_MAX,
{
    -floor_div_i128(-n, d)
}

} // verus!

verus! {

/// Multiplying by a number that is not negative keeps the order.
pub proof fn lemma_scale_up(a: int, x: int, y: int)
    requires
        a >= 0,
        x <= y,
    ensures
        a * x <= a * y,
{
    assert(a * x <= a * y) by (nonlinear_arith)
        requires
            a >= 0,
            x <= y,
    ;
}

/// Multiplying by a number that is not positive turns the order around.
pub proof fn lemma_scale_down(a: int, x: int, y: int)
    requires
        a <= 0,
        x <= y,
    ensures
        a * x >= a * y,
{
    assert(a * x >= a * y) by (nonlinear_arith)
        requires
            a <= 0,
            x <= y,
    ;
}

/// A positive factor can be cancelled from both sides of an inequality.
pub proof fn lemma_cancel(a: int, x: int, y: int)
    requires
        a > 0,
        a * x <= a * y,
    ensures
        x <= y,
{
    assert(x <= y) by (nonlinear_arith)
        requires
            a > 0,
            a * x <= a * y,
    ;
}

/// A weighted sum lies between the least and the greatest of its terms,
/// each taken with the total weight.
pub proof fn lemma_weighted_between(u: int, v: int, w: int, p: int, q: int, r: int, lo: int, hi: int)
    requires
        u >= 0 && v >= 0 && w >= 0,
        lo <= p <= hi,
        lo <= q <= hi,
        lo <= r <= hi,
    ensures
        lo * (u + v + w) <= u * p + v * q + w * r <= hi * (u + v + w),
{
    lemma_scale_up(u, lo, p);
    lemma_scale_up(u, p, hi);
    lemma_scale_up(v, lo, q);
    lemma_scale_up(v, q, hi);
    lemma_scale_up(w, lo, r);
    lemma_scale_up(w, r, hi);
    assert(lo * (u + v + w) == u * lo + v * lo + w * lo) by (nonlinear_arith);
    assert(hi * (u + v + w) == u * hi + v * hi + w * hi) by (nonlinear_arith);
}

/// Over a rectangle a form `a * x + b * z + c` lies between its least and
/// its greatest value at the corners. The point `(px / d, pz / d)` of the
/// rectangle is given by its numerators.
pub proof fn lemma_affine_over_rectangle(
    a: int,
    b: int,
    c: int,
    px: int,
    pz: int,
    d: int,
    x0: int,
    z0: int,
    x1: int,
    z1: int,
    lo: int,
    hi: int,
)
    requires
        d > 0,
        x0 * d <= px <= x1 * d,
        z0 * d <= pz <= z1 * d,
        lo <= a * x0 + b * z0 + c <= hi,
        lo <= a * x0 + b * z1 + c <= hi,
        lo <= a * x1 + b * z0 + c <= hi,
        lo <= a * x1 + b * z1 + c <= hi,
    ensures
        d * lo <= a * px + b * pz + c * d <= d * hi,
{
    // the corner at which each term is greatest, and the one at which it is least
    let xh = if a >= 0 { x1 } else { x0 };
    let xl = if a >= 0 { x0 } else { x1 };
    let zh = if b >= 0 { z1 } else { z0 };
    let zl = if b >= 0 { z0 } else { z1 };
    if a >= 0 {
        lemma_scale_up(a, px, x1 * d);
        lemma_scale_up(a, x0 * d, px);
    } else {
        lemma_scale_down(a, x0 * d, px);
        lemma_scale_down(a, px, x1 * d);
    }
    if b >= 0 {
        lemma_scale_up(b, pz, z1 * d);
        lemma_scale_up(b, z0 * d, pz);
    } else {
        lemma_scale_down(b, z0 * d, pz);
        lemma_scale_down(b, pz, z1 * d);
    }
    assert(a * px <= a * (xh * d));
    assert(a * px >= a * (xl * d));
    assert(b * pz <= b * (zh * d));
    assert(b * pz >= b * (zl * d));
    let top = a * xh + b * zh + c;
    let bottom = a * xl + b * zl + c;
    assert(d * top == a * (xh * d) + b * (zh * d) + c * d) by (nonlinear_arith)
        requires
            top == a * xh + b * zh + c,
    ;
    assert(d * bottom == a * (xl * d) + b * (zl * d) + c * d) by (nonlinear_arith)
        requires
            bottom == a * xl + b * zl + c,
    ;
    assert(lo <= bottom && top <= hi);
    lemma_scale_up(d, top, hi);
    lemma_scale_up(d, lo, bottom);
}

} // verus!
