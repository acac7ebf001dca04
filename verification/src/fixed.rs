//! Fixed-point numbers.
//!
//! Every length, colour channel and opacity in this crate is an `i64` count of
//! `1 / ONE`ths. Sums and products that leave the range of an `i64` stop at its
//! ends rather than wrap.

use vstd::prelude::*;

verus! {

/// The fixed-point number one.
pub const ONE: i64 = 65536;

/// `v`, held to the range of an `i64`.
pub open spec fn saturate(v: int) -> int {
    if v < i64::MIN {
        i64::MIN as int
    } else if v > i64::MAX {
        i64::MAX as int
    } else {
        v
    }
}

pub open spec fn min(a: int, b: int) -> int {
    if a <= b {
        a
    } else {
        b
    }
}

pub open spec fn max(a: int, b: int) -> int {
    if a >= b {
        a
    } else {
        b
    }
}

/// `numerator / denominator`, rounded to the nearest whole number, halves up.
pub open spec fn nearest(numerator: int, denominator: int) -> int {
    (2 * numerator + denominator) / (2 * denominator)
}

/// The product of two fixed-point numbers.
pub open spec fn product(a: int, factor: int) -> int {
    saturate(nearest(a * factor, ONE as int))
}

pub fn saturated(v: i128) -> (r: i64)
    ensures
        r == saturate(v as int),
{
    if v < i64::MIN as i128 {
        i64::MIN
    } else if v > i64::MAX as i128 {
        i64::MAX
    } else {
        v as i64
    }
}

/// `a + b`.
pub fn plus(a: i64, b: i64) -> (r: i64)
    ensures
        r == saturate(a + b),
{
    saturated(a as i128 + b as i128)
}

/// `a - b`.
pub fn minus(a: i64, b: i64) -> (r: i64)
    ensures
        r == saturate(a - b),
{
    saturated(a as i128 - b as i128)
}

pub fn lesser(a: i64, b: i64) -> (r: i64)
    ensures
        r == min(a as int, b as int),
{
    if a <= b {
        a
    } else {
        b
    }
}

pub fn greater(a: i64, b: i64) -> (r: i64)
    ensures
        r == max(a as int, b as int),
{
    if a >= b {
        a
    } else {
        b
    }
}

/// The whole number at or below `numerator / denominator`.
pub fn floor_div(numerator: i128, denominator: i128) -> (r: i128)
    requires
        0 < denominator,
        -0x7fff_ffff_ffff_ffff_ffff_ffff_ffff_ffff <= numerator,
    ensures
        r == numerator as int / denominator as int,
{
    if numerator >= 0 {
        numerator / denominator
    } else {
        let above: i128 = (-(numerator + 1)) / denominator;
        proof {
            let n = numerator as int;
            let d = denominator as int;
            let q = (-(n + 1)) / d;
            assert(n / d == -q - 1) by (nonlinear_arith)
                requires
                    d > 0,
                    q == (-(n + 1)) / d,
            ;
            assert(0 <= q <= -(n + 1)) by (nonlinear_arith)
                requires
                    d > 0,
                    n < 0,
                    q == (-(n + 1)) / d,
            ;
        }
        -above - 1
    }
}

/// The whole number at or above `numerator / denominator`.
pub open spec fn ceil_of(numerator: int, denominator: int) -> int {
    -((-numerator) / denominator)
}

/// The product of `a` and `factor`.
pub fn times(a: i64, factor: i64) -> (r: i64)
    ensures
        r == product(a as int, factor as int),
{
    assert(-0x4000_0000_0000_0000_0000_0000_0000_0000 <= a * factor
        <= 0x4000_0000_0000_0000_0000_0000_0000_0000) by (nonlinear_arith)
        requires
            i64::MIN <= a <= i64::MAX,
            i64::MIN <= factor <= i64::MAX,
    ;
    let whole: i128 = a as i128 * factor as i128;
    let r: i128 = floor_div(whole + 32768, 65536);
    proof {
        let p = a * factor;
        assert((2 * p + 65536) / 131072 == (p + 32768) / 65536);
    }
    saturated(r)
}

/// Multiplying by one changes nothing.
pub proof fn multiplying_by_one_changes_nothing(a: i64)
    ensures
        product(a as int, ONE as int) == a,
{
    assert(a * ONE == a * 65536);
    assert((2 * (a * 65536) + 65536) / 131072 == a as int);
}

/// Whether `v` is `numerator / denominator`, to the nearest whole number.
pub open spec fn is_nearest(v: int, numerator: int, denominator: int) -> bool {
    -denominator <= 2 * (v * denominator - numerator) <= denominator
}

/// A quotient that lies in the range of an `i64` is held as it is, to the nearest
/// whole number.
pub proof fn lemma_rounds(numerator: int, denominator: int)
    requires
        0 < denominator,
        denominator * i64::MIN <= numerator <= denominator * i64::MAX,
    ensures
        is_nearest(saturate(nearest(numerator, denominator)), numerator, denominator),
{
    let r = nearest(numerator, denominator);
    let n = 2 * numerator + denominator;
    let d = 2 * denominator;
    assert(d * r <= n < d * r + d) by (nonlinear_arith)
        requires
            0 < d,
            r == n / d,
    ;
    assert(d * r == 2 * (r * denominator)) by (nonlinear_arith)
        requires
            d == 2 * denominator,
    ;
    assert(i64::MIN <= r <= i64::MAX) by (nonlinear_arith)
        requires
            0 < denominator,
            denominator * i64::MIN <= numerator <= denominator * i64::MAX,
            2 * (r * denominator) <= 2 * numerator + denominator,
            2 * numerator + denominator < 2 * (r * denominator) + 2 * denominator,
    ;
}

} // verus!
