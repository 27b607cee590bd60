//! What the bucket functions compute, in plain integers.
//!
//! A hash `x` is read as the fraction `x / P`, where `P` is `2^64`.

use crate::bucket_fn::{BucketFn, Cubic, CubicEps, Linear, Skewed, Square, SquareEps};
use crate::util;
use vstd::prelude::*;

verus! {

/// All functions but the skewed ones are defined everywhere.
pub proof fn lemma_total(x: u64)
    ensures
        Linear.accepts(x),
        Square.accepts(x),
        SquareEps.accepts(x),
        Cubic.accepts(x),
        CubicEps.accepts(x),
{
}

/// The linear function is the identity.
pub proof fn lemma_linear(x: u64)
    ensures
        Linear.bucket(x) == x,
{
}

/// The square of `x / P`, rounded down.
pub proof fn lemma_square(x: u64)
    ensures
        Square.bucket(x) * 0x1_0000_0000_0000_0000 <= x * x < (Square.bucket(x) + 1)
            * 0x1_0000_0000_0000_0000,
{
    util::lemma_high_product(x as int, x as int);
}

/// 127 parts of the square and one part of `x / P`, of 128, up to the rounding.
pub proof fn lemma_square_eps(x: u64)
    ensures
        0 <= 127 * (x * x) + x * 0x1_0000_0000_0000_0000 - 128 * SquareEps.bucket(x)
            * 0x1_0000_0000_0000_0000 < 16_383 * 0x1_0000_0000_0000_0000,
{
    lemma_square(x);
    let y = Square.bucket(x);
    let d = y / 128;
    let v = x as int / 128;
    assert(SquareEps.bucket(x) == d * 127 + v);
}

/// The rounding of [`SquareEps`]: what is left after a 128th part of `x`, rounded down, is
/// 127 times a 128th part of the square, rounded down.
pub proof fn lemma_square_eps_rounding(x: u64)
    ensures
        ({
            let rest = SquareEps.bucket(x) - x as int / 128;
            let d = rest / 127;
            &&& rest == 127 * d
            &&& 128 * d * 0x1_0000_0000_0000_0000 <= x * x < 128 * (d + 1)
                * 0x1_0000_0000_0000_0000
        }),
{
    lemma_square(x);
    let y = Square.bucket(x);
    let rest = SquareEps.bucket(x) - x as int / 128;
    assert(rest == y / 128 * 127);
    assert(rest / 127 == y / 128);
}

/// `x * x * (P + x)`, from what each rounding leaves behind.
proof fn lemma_cube(x: int, square: int, half: int, y: int, p: int)
    requires
        0 <= x < p,
        0 <= square,
        square * p <= x * x < (square + 1) * p,
        2 * half <= p + x <= 2 * half + 1,
        y * p <= square * half < (y + 1) * p,
    ensures
        0 <= x * x * (p + x) - 2 * y * (p * p) < 5 * (p * p),
{
    let a = x * x - square * p;
    let b = square * half - y * p;
    let r = p + x - 2 * half;
    assert(x * x * (p + x) == 2 * (square * half) * p + r * (square * p) + a * (p + x))
        by (nonlinear_arith)
        requires
            x * x == square * p + a,
            p + x == 2 * half + r,
    {
        let t = x * x;
        let q = p + x;
        assert(t * q == (square * p) * q + a * q);
        assert((square * p) * q == (square * p) * (2 * half) + (square * p) * r);
        assert((square * p) * (2 * half) == 2 * (square * half) * p);
    }
    assert(2 * (square * half) * p == 2 * y * (p * p) + 2 * (b * p)) by (nonlinear_arith)
        requires
            square * half == y * p + b,
    ;
    assert((square + 1) * p == square * p + p) by (nonlinear_arith);
    assert((y + 1) * p == y * p + p) by (nonlinear_arith);
    assert(0 <= b * p <= (p - 1) * p) by (nonlinear_arith)
        requires
            0 <= b <= p - 1,
            0 < p,
    ;
    assert((p - 1) * p == p * p - p) by (nonlinear_arith);
    assert(x * x < p * p) by (nonlinear_arith)
        requires
            0 <= x < p,
    ;
    assert(0 <= square * p) by (nonlinear_arith)
        requires
            0 <= square,
            0 < p,
    ;
    assert(r == 0 || r == 1);
    assert(0 <= r * (square * p) <= square * p) by (nonlinear_arith)
        requires
            r == 0 || r == 1,
            0 <= square * p,
    ;
    assert(0 <= a * (p + x) <= p * (2 * p)) by (nonlinear_arith)
        requires
            0 <= a <= p,
            0 <= p + x <= 2 * p,
    ;
    assert(p * (2 * p) == 2 * (p * p)) by (nonlinear_arith);
}

/// `x * x * (1 + x) / 2`, up to the rounding: with `x` in units of `1 / P`, less than five
/// halves of a unit are lost, and nothing is gained.
pub proof fn lemma_cubic(x: u64)
    ensures
        0 <= x * x * (0x1_0000_0000_0000_0000 + x) - 2 * Cubic.bucket(x) * (
        0x1_0000_0000_0000_0000 * 0x1_0000_0000_0000_0000) < 5 * (0x1_0000_0000_0000_0000
            * 0x1_0000_0000_0000_0000),
{
    let square = Square.bucket(x);
    let half = x as int / 2 + 0x8000_0000_0000_0000;
    lemma_square(x);
    util::lemma_high_product(square, half);
    assert(0 <= x * x) by (nonlinear_arith);
    lemma_cube(x as int, square, half, Cubic.bucket(x), 0x1_0000_0000_0000_0000);
}

/// The rounding of [`Cubic`]: `square` is `x * x / P` rounded down, one half of `1 + x` is
/// rounded down, and so is their product.
pub proof fn lemma_cubic_rounding(x: u64, square: int)
    requires
        square * 0x1_0000_0000_0000_0000 <= x * x < (square + 1) * 0x1_0000_0000_0000_0000,
    ensures
        Cubic.bucket(x) * 0x1_0000_0000_0000_0000 <= square * (x as int / 2
            + 0x8000_0000_0000_0000) < (Cubic.bucket(x) + 1) * 0x1_0000_0000_0000_0000,
{
    lemma_square(x);
    assert(square == Square.bucket(x));
    util::lemma_high_product(square, x as int / 2 + 0x8000_0000_0000_0000);
}

/// What the roundings of [`CubicEps`] leave behind.
proof fn lemma_mixed(x: int, e: int, y: int, z: int, one: int)
    requires
        0 < one,
        0 <= e - 2 * y * one < 5 * one,
        z == y / 128 * 127 + x / 128,
    ensures
        0 <= 127 * e + 2 * x * one - 256 * z * one < 33_147 * one,
{
    let u = y % 128;
    let w = x % 128;
    assert(128 * z == 127 * (y - u) + (x - w));
    assert(127 * e + 2 * x * one - 256 * z * one == 127 * (e - 2 * y * one) + (254 * u + 2 * w)
        * one) by (nonlinear_arith)
        requires
            128 * z == 127 * (y - u) + (x - w),
    ;
    assert(0 <= (254 * u + 2 * w) * one <= 32_512 * one) by (nonlinear_arith)
        requires
            0 <= u <= 127,
            0 <= w <= 127,
            0 < one,
    ;
}

/// 127 parts of `x * x * (1 + x) / 2` and one part of `x`, of 128, up to the rounding.
pub proof fn lemma_cubic_eps(x: u64)
    ensures
        0 <= 127 * (x * x * (0x1_0000_0000_0000_0000 + x)) + 2 * x * (0x1_0000_0000_0000_0000
            * 0x1_0000_0000_0000_0000) - 256 * CubicEps.bucket(x) * (0x1_0000_0000_0000_0000
            * 0x1_0000_0000_0000_0000) < 33_147 * (0x1_0000_0000_0000_0000
            * 0x1_0000_0000_0000_0000),
{
    lemma_cubic(x);
    lemma_mixed(
        x as int,
        x * x * (0x1_0000_0000_0000_0000 + x),
        Cubic.bucket(x),
        CubicEps.bucket(x),
        (0x1_0000_0000_0000_0000int * 0x1_0000_0000_0000_0000int),
    );
}

/// The rounding of [`CubicEps`]: what is left after a 128th part of `x`, rounded down, is
/// 127 times a 128th part of the cubic value, rounded down.
pub proof fn lemma_cubic_eps_rounding(x: u64, square: int, y: int)
    requires
        square * 0x1_0000_0000_0000_0000 <= x * x < (square + 1) * 0x1_0000_0000_0000_0000,
        y * 0x1_0000_0000_0000_0000 <= square * (x as int / 2 + 0x8000_0000_0000_0000) < (y + 1)
            * 0x1_0000_0000_0000_0000,
    ensures
        CubicEps.bucket(x) == y / 128 * 127 + x as int / 128,
{
    lemma_cubic_rounding(x, square);
    assert(y == Cubic.bucket(x));
}

/// Telling a skewed function the number of buckets sets its break, and multiplies its
/// slopes and its offset by that number, rounding towards zero. Its parameters stay, so
/// that it can be told again.
pub proof fn lemma_skewed_sized(f: Skewed, b: u64)
    ensures
        ({
            let g = f.resized(b);
            &&& g.b == b
            &&& g.beta == f.beta_units
            &&& g.beta_units == f.beta_units
            &&& g.slope1_units == f.slope1_units
            &&& g.slope2_units == f.slope2_units
            &&& g.offset_units == f.offset_units
            &&& g.slope1 * 0x1_0000_0000_0000_0000 <= b * f.slope1_units < (g.slope1 + 1)
                * 0x1_0000_0000_0000_0000
            &&& g.slope2 * 0x1_0000_0000_0000_0000 <= b * f.slope2_units < (g.slope2 + 1)
                * 0x1_0000_0000_0000_0000
            &&& f.offset_units >= 0 ==> g.neg_offset * 0x1_0000_0000_0000_0000 <= b
                * f.offset_units < (g.neg_offset + 1) * 0x1_0000_0000_0000_0000
            &&& f.offset_units < 0 ==> -g.neg_offset * 0x1_0000_0000_0000_0000 <= b * (
            -f.offset_units) < (-g.neg_offset + 1) * 0x1_0000_0000_0000_0000
        }),
{
    f.lemma_resized(b);
    util::lemma_high_product(b as int, f.slope1_units as int);
    util::lemma_high_product(b as int, f.slope2_units as int);
    util::lemma_high_product(b as int, f.offset_units as int);
    util::lemma_high_product(b as int, -f.offset_units);
}

/// Only the last number of buckets that a skewed function was told counts.
pub proof fn lemma_skewed_resized_again(f: Skewed, a: u64, b: u64)
    ensures
        f.resized(a).resized(b) == f.resized(b),
{
}

/// A skewed function follows its first slope below the break, and from there on its second
/// slope less the offset, rounded down. It is defined where the result is a `u64`.
pub proof fn lemma_skewed_value(f: Skewed, x: u64)
    ensures
        x < f.beta ==> f.bucket(x) * 0x1_0000_0000_0000_0000 <= x * f.slope1 < (f.bucket(x) + 1)
            * 0x1_0000_0000_0000_0000,
        x >= f.beta ==> (f.bucket(x) + f.neg_offset) * 0x1_0000_0000_0000_0000 <= x * f.slope2 < (
        f.bucket(x) + f.neg_offset + 1) * 0x1_0000_0000_0000_0000,
        f.accepts(x) <==> 0 <= f.bucket(x) <= 0xffff_ffff_ffff_ffff,
{
    util::lemma_high_product(x as int, f.slope1 as int);
    util::lemma_high_product(x as int, f.slope2 as int);
}

/// The default skewed function has `beta = 0.6` and `gamma = 0.3` as IEEE doubles: the break
/// is the double nearest to three fifths, the first slope is one half, and the second slope
/// and the offset are the doubles next below seven quarters and three quarters. The number
/// of buckets is not known yet.
pub proof fn lemma_default_parameters()
    ensures
        ({
            let f = Skewed::six_tenths_to_three();
            &&& 5 * f.beta_units + 2_048 == 3 * 0x1_0000_0000_0000_0000
            &&& 2 * f.slope1_units == 0x1_0000_0000_0000_0000
            &&& 4 * (f.slope2_units + 4_096) == 7 * 0x1_0000_0000_0000_0000
            &&& 4 * (f.offset_units + 2_048) == 3 * 0x1_0000_0000_0000_0000
            &&& f.b == 0 && f.beta == 0 && f.slope1 == 0 && f.slope2 == 0 && f.neg_offset == 0
        }),
{
}

} // verus!
