//! Functions from a key's hash, read as a fraction of `2^64`, to its bucket.
//!
//! A skewed function sends many keys to few buckets. Those large buckets are placed while
//! most slots are still free.

use crate::util;
use crate::util::{mul_high, mul_high_wide};
use std::fmt::Debug;
use vstd::prelude::*;

verus! {

/// A function from hashes to buckets.
pub trait BucketFn: Clone + Copy + Sync + Debug {
    /// Whether the function is the identity.
    const LINEAR: bool = false;

    /// Whether the result is a bucket of the part, rather than a fraction of `2^64`.
    const B_OUTPUT: bool = false;

    /// The value of the function at `x`.
    spec fn bucket(&self, x: u64) -> int;

    /// Whether the function is defined at `x`.
    spec fn accepts(&self, x: u64) -> bool;

    /// Tells the function how many buckets a part has.
    fn set_buckets_per_part(&mut self, _b: u64)
        default_ensures
            *final(self) == *old(self),
    {
    }

    /// Applies the function.
    fn call(&self, x: u64) -> (y: u64)
        requires
            self.accepts(x),
        ensures
            y == self.bucket(x),
    ;
}

/// The identity.
#[derive(Clone, Copy, Debug)]
pub struct Linear;

impl BucketFn for Linear {
    const LINEAR: bool = true;

    open spec fn bucket(&self, x: u64) -> int {
        x as int
    }

    open spec fn accepts(&self, x: u64) -> bool {
        true
    }

    fn call(&self, x: u64) -> (y: u64)
        ensures
            y == x,
    {
        x
    }
}

/// A function of two linear pieces:
///
/// ```text
/// |              .
/// |             .
/// |         ....---< gamma
/// |    .....   |
/// |....        |
/// +------------^--
///              beta
///
/// line 1: y = x * (gamma / beta)
/// line 2: y = x * ((1 - gamma) / (1 - beta)) + (gamma - beta) / (1 - beta)
/// ```
///
/// The numbers are given in units of `2^-64`. The slopes and the offset can be 1 or more.
#[derive(Clone, Copy, Debug, PartialEq, Eq, Structural)]
pub struct Skewed {
    /// `beta`, the share of the keys that goes to the first buckets.
    pub beta_units: u64,
    /// `gamma / beta`.
    pub slope1_units: u128,
    /// `(1 - gamma) / (1 - beta)`.
    pub slope2_units: u128,
    /// `(beta - gamma) / (1 - beta)`, which is below zero where `gamma` exceeds `beta`.
    pub offset_units: i128,
    /// The number of buckets of a part.
    pub b: u64,
    /// Where the second piece begins.
    pub beta: u64,
    /// The slope of the first piece, in buckets.
    pub slope1: u128,
    /// The slope of the second piece, in buckets.
    pub slope2: u128,
    /// How far the second piece lies below the origin, in buckets.
    pub neg_offset: i128,
}

impl Skewed {
    /// Maps the first `beta` of the hashes to the first `gamma` of the buckets. The number
    /// of buckets is not known yet.
    pub fn new(beta: u64, slope1: u128, slope2: u128, offset: i128) -> (f: Skewed)
        ensures
            f == (Skewed {
                beta_units: beta,
                slope1_units: slope1,
                slope2_units: slope2,
                offset_units: offset,
                b: 0,
                beta: 0,
                slope1: 0,
                slope2: 0,
                neg_offset: 0,
            }),
    {
        Skewed {
            beta_units: beta,
            slope1_units: slope1,
            slope2_units: slope2,
            offset_units: offset,
            b: 0,
            beta: 0,
            slope1: 0,
            slope2: 0,
            neg_offset: 0,
        }
    }

    /// The offset in buckets, rounded towards zero.
    pub open spec fn offset_in(self, b: u64) -> int {
        if self.offset_units >= 0 {
            util::high_product(b as int, self.offset_units as int)
        } else {
            -util::high_product(b as int, -self.offset_units)
        }
    }

    /// The same function for parts of `b` buckets.
    pub open spec fn resized(self, b: u64) -> Skewed {
        Skewed {
            b,
            beta: self.beta_units,
            slope1: util::high_product(b as int, self.slope1_units as int) as u128,
            slope2: util::high_product(b as int, self.slope2_units as int) as u128,
            neg_offset: self.offset_in(b) as i128,
            ..self
        }
    }

    /// The numbers of buckets fit in their types.
    pub(crate) proof fn lemma_resized(self, b: u64)
        ensures
            self.resized(b).slope1 == util::high_product(b as int, self.slope1_units as int),
            self.resized(b).slope2 == util::high_product(b as int, self.slope2_units as int),
            self.resized(b).neg_offset == self.offset_in(b),
            -i128::MAX <= self.offset_in(b) <= i128::MAX,
    {
        util::lemma_high_product_strictly_below(b as int, self.slope1_units as int);
        util::lemma_high_product_strictly_below(b as int, self.slope2_units as int);
        if self.offset_units >= 0 {
            util::lemma_high_product_strictly_below(b as int, self.offset_units as int);
        } else {
            util::lemma_high_product_strictly_below(b as int, -self.offset_units);
        }
    }
}

impl Default for Skewed {
    /// `beta = 0.6` and `gamma = 0.3`.
    fn default() -> (f: Skewed)
        ensures
            f == Self::six_tenths_to_three(),
    {
        Skewed::new(
            11_068_046_444_225_730_560,
            9_223_372_036_854_775_808,
            32_281_802_128_991_711_232,
            13_835_058_055_282_161_664,
        )
    }
}

impl Skewed {
    /// The function with `beta = 0.6` and `gamma = 0.3`, to the precision of an IEEE double.
    pub open spec fn six_tenths_to_three() -> Skewed {
        Skewed {
            beta_units: 11_068_046_444_225_730_560,
            slope1_units: 9_223_372_036_854_775_808,
            slope2_units: 32_281_802_128_991_711_232,
            offset_units: 13_835_058_055_282_161_664,
            b: 0,
            beta: 0,
            slope1: 0,
            slope2: 0,
            neg_offset: 0,
        }
    }

    /// Whether the function is defined at `x`.
    pub fn is_defined_at(&self, x: u64) -> (r: bool)
        ensures
            r == self.accepts(x),
    {
        if x < self.beta {
            mul_high_wide(x, self.slope1) <= u64::MAX as u128
        } else {
            let y: u128 = mul_high_wide(x, self.slope2);
            if self.neg_offset >= 0 {
                let down: u128 = self.neg_offset as u128;
                y >= down && y - down <= u64::MAX as u128
            } else {
                let up: u128 = magnitude(self.neg_offset);
                y <= u64::MAX as u128 && up <= u64::MAX as u128 - y
            }
        }
    }
}

/// The distance of `n` from zero.
fn magnitude(n: i128) -> (m: u128)
    ensures
        m == if n >= 0 {
            n as int
        } else {
            -n
        },
{
    if n >= 0 {
        n as u128
    } else {
        (-(n + 1)) as u128 + 1
    }
}

impl BucketFn for Skewed {
    const B_OUTPUT: bool = true;

    open spec fn bucket(&self, x: u64) -> int {
        if x >= self.beta {
            util::high_product(x as int, self.slope2 as int) - self.neg_offset
        } else {
            util::high_product(x as int, self.slope1 as int)
        }
    }

    /// The result must be a `u64`.
    open spec fn accepts(&self, x: u64) -> bool {
        0 <= self.bucket(x) <= u64::MAX
    }

    fn set_buckets_per_part(&mut self, b: u64)
        ensures
            *final(self) == old(self).resized(b),
    {
        proof {
            self.lemma_resized(b);
        }
        self.b = b;
        self.slope1 = mul_high_wide(b, self.slope1_units);
        self.slope2 = mul_high_wide(b, self.slope2_units);
        let offset: i128 = mul_high_wide(b, magnitude(self.offset_units)) as i128;
        self.neg_offset = if self.offset_units >= 0 {
            offset
        } else {
            -offset
        };
        self.beta = self.beta_units;
    }

    fn call(&self, x: u64) -> (y: u64) {
        let is_large: bool = x >= self.beta;
        let slope: u128 = if is_large {
            self.slope2
        } else {
            self.slope1
        };
        let y: u128 = mul_high_wide(x, slope);
        if !is_large {
            y as u64
        } else if self.neg_offset >= 0 {
            (y - self.neg_offset as u128) as u64
        } else {
            (y + magnitude(self.neg_offset)) as u64
        }
    }
}

/// The square.
#[derive(Clone, Copy, Debug)]
pub struct Square;

impl BucketFn for Square {
    open spec fn bucket(&self, x: u64) -> int {
        util::high_product(x as int, x as int)
    }

    open spec fn accepts(&self, x: u64) -> bool {
        true
    }

    fn call(&self, x: u64) -> (y: u64)
        ensures
            y * 0x1_0000_0000_0000_0000 <= x * x < (y + 1) * 0x1_0000_0000_0000_0000,
    {
        mul_high(x, x)
    }
}

/// `y` with a small share of `x` mixed in: 127 parts of the one, and one of the other.
pub open spec fn with_epsilon(y: int, x: int) -> int {
    y / 128 * 127 + x / 128
}

/// The square, with a small linear share.
#[derive(Clone, Copy, Debug)]
pub struct SquareEps;

impl BucketFn for SquareEps {
    open spec fn bucket(&self, x: u64) -> int {
        with_epsilon(Square.bucket(x), x as int)
    }

    open spec fn accepts(&self, x: u64) -> bool {
        true
    }

    fn call(&self, x: u64) -> (y: u64) {
        mul_high(x, x) / 128 * 127 + x / 128
    }
}

/// `x * x * (1 + x) / 2`.
#[derive(Clone, Copy, Debug)]
pub struct Cubic;

/// `(1 + x) / 2`, as a fraction of `2^64`.
fn half_up(x: u64) -> (h: u64)
    ensures
        h == x / 2 + 0x8000_0000_0000_0000,
{
    proof {
        assert((x >> 1) | 0x8000_0000_0000_0000u64 == x / 2 + 0x8000_0000_0000_0000u64)
            by (bit_vector);
        assert((1u64 << 63) == 0x8000_0000_0000_0000u64) by (bit_vector);
    }
    (x >> 1) | (1u64 << 63)
}

impl BucketFn for Cubic {
    open spec fn bucket(&self, x: u64) -> int {
        util::high_product(
            util::high_product(x as int, x as int),
            x as int / 2 + 0x8000_0000_0000_0000,
        )
    }

    open spec fn accepts(&self, x: u64) -> bool {
        true
    }

    fn call(&self, x: u64) -> (y: u64) {
        mul_high(mul_high(x, x), half_up(x))
    }
}

/// [`Cubic`], with a small linear share.
#[derive(Clone, Copy, Debug)]
pub struct CubicEps;

impl BucketFn for CubicEps {
    open spec fn bucket(&self, x: u64) -> int {
        with_epsilon(Cubic.bucket(x), x as int)
    }

    open spec fn accepts(&self, x: u64) -> bool {
        true
    }

    fn call(&self, x: u64) -> (y: u64) {
        mul_high(mul_high(x, x), half_up(x)) / 128 * 127 + x / 128
    }
}

/// A larger hash never goes to a smaller bucket.
pub proof fn lemma_monotone(x: u64, y: u64)
    requires
        x <= y,
    ensures
        Linear.bucket(x) <= Linear.bucket(y),
        Square.bucket(x) <= Square.bucket(y),
        SquareEps.bucket(x) <= SquareEps.bucket(y),
        Cubic.bucket(x) <= Cubic.bucket(y),
        CubicEps.bucket(x) <= CubicEps.bucket(y),
{
    util::lemma_high_product_monotone(x as int, y as int, x as int, y as int);
    util::lemma_high_product_monotone(
        Square.bucket(x),
        Square.bucket(y),
        x as int / 2 + 0x8000_0000_0000_0000,
        y as int / 2 + 0x8000_0000_0000_0000,
    );
}

/// No function lies above the identity: all of them crowd the keys into the first buckets.
pub proof fn lemma_below_identity(x: u64)
    ensures
        0 <= Square.bucket(x) <= x,
        0 <= SquareEps.bucket(x) <= x,
        0 <= Cubic.bucket(x) <= Square.bucket(x),
        0 <= CubicEps.bucket(x) <= x,
{
    util::lemma_high_product_below(x as int, x as int);
    util::lemma_high_product_below(Square.bucket(x), x as int / 2 + 0x8000_0000_0000_0000);
}

/// A skewed function never sends a larger hash to a smaller bucket, on each of its two
/// pieces, and across them if it does not fall where the second piece begins.
pub proof fn lemma_skewed_monotone(f: Skewed, x: u64, y: u64)
    requires
        x <= y,
        x >= f.beta || y < f.beta || f.bucket((f.beta - 1) as u64) <= f.bucket(f.beta),
    ensures
        f.bucket(x) <= f.bucket(y),
{
    if x >= f.beta || y < f.beta {
        util::lemma_high_product_monotone(x as int, y as int, f.slope1 as int, f.slope1 as int);
        util::lemma_high_product_monotone(x as int, y as int, f.slope2 as int, f.slope2 as int);
    } else {
        let slope1 = f.slope1 as int;
        let slope2 = f.slope2 as int;
        util::lemma_high_product_monotone(x as int, f.beta - 1, slope1, slope1);
        util::lemma_high_product_monotone(f.beta as int, y as int, slope2, slope2);
    }
}

/// A skewed function is defined everywhere if it is defined at the ends of its two pieces.
pub proof fn lemma_skewed_total(f: Skewed, x: u64)
    requires
        f.beta > 0 ==> f.accepts((f.beta - 1) as u64),
        f.accepts(f.beta),
        f.accepts(u64::MAX),
    ensures
        f.accepts(x),
{
    if x < f.beta {
        lemma_skewed_monotone(f, x, (f.beta - 1) as u64);
        util::lemma_high_product_strictly_below(x as int, f.slope1 as int);
    } else {
        lemma_skewed_monotone(f, f.beta, x);
        lemma_skewed_monotone(f, x, u64::MAX);
    }
}

/// **The two lines.** A skewed function for `b` buckets lies on `line 1` and `line 2`, up to
/// the rounding of the product, the slope and the offset: it is less than two buckets below
/// the first line and never above it, and less than three buckets below the second line and
/// less than one above it. Both sides are given in units of `2^-128`.
pub proof fn lemma_skewed_lines(f: Skewed, b: u64, x: u64)
    ensures
        ({
            let y = f.resized(b).bucket(x);
            let one = util::two64() * util::two64();
            if x < f.beta_units {
                0 <= x * (f.slope1_units * b) - y * one < 2 * one
            } else {
                -one < x * (f.slope2_units * b) - (f.offset_units * b) * util::two64() - y * one < 3
                    * one
            }
        }),
{
    let g = f.resized(b);
    let p = util::two64();
    let y = g.bucket(x);
    f.lemma_resized(b);
    if x < f.beta_units {
        util::lemma_high_product_twice(x as int, f.slope1_units as int, b as int);
    } else {
        util::lemma_high_product_twice(x as int, f.slope2_units as int, b as int);
        let line = util::high_product(x as int, g.slope2 as int);
        let n = g.neg_offset as int;
        let o = f.offset_units as int;
        assert(y * (p * p) == line * (p * p) - n * (p * p)) by (nonlinear_arith)
            requires
                y == line - n,
        ;
        assert(b * o == o * b && b * (-o) == -(o * b)) by (nonlinear_arith);
        assert(-p < o * b - n * p < p);
        assert(-(p * p) < (o * b) * p - n * (p * p) < p * p) by (nonlinear_arith)
            requires
                -p < o * b - n * p < p,
                p > 0,
        ;
    }
}

/// The first `beta` of the hashes go to the first `gamma` of the buckets, where `gamma` is
/// `beta` times the first slope.
pub proof fn lemma_skewed_first_buckets(f: Skewed, b: u64, x: u64)
    requires
        x < f.beta_units,
    ensures
        f.resized(b).bucket(x) * (util::two64() * util::two64()) <= (f.beta_units * f.slope1_units)
            * b,
{
    lemma_skewed_lines(f, b, x);
    let beta = f.beta_units as int;
    let slope = f.slope1_units as int;
    assert(x * (slope * b) <= (beta * slope) * b) by (nonlinear_arith)
        requires
            0 <= x <= beta,
            0 <= slope,
            0 <= b,
    ;
}

/// A skewed function sends every hash to one of the buckets of the part, provided that
/// neither piece rises above them: the first ends at 1 or below, and so does the second.
pub proof fn lemma_skewed_in_part(f: Skewed, b: u64, x: u64)
    requires
        0 < b,
        f.beta_units * f.slope1_units <= util::two64() * util::two64(),
        f.slope2_units <= f.offset_units + util::two64(),
        -util::two64() < f.offset_units,
        f.resized(b).accepts(x),
    ensures
        0 <= f.resized(b).bucket(x) < b,
{
    let g = f.resized(b);
    let p = util::two64();
    let y = g.bucket(x);
    f.lemma_resized(b);
    if x < g.beta {
        let beta = f.beta_units as int;
        let slope = f.slope1_units as int;
        lemma_skewed_lines(f, b, x);
        assert(y < b) by (nonlinear_arith)
            requires
                y * (p * p) <= x * (slope * b),
                0 <= x < beta,
                0 <= slope,
                beta * slope <= p * p,
                0 < b,
                p > 0,
        {
            if slope == 0 {
                assert(x * (slope * b) == 0);
                assert(y * (p * p) <= 0);
                assert(y <= 0);
            } else {
                assert(x * (slope * b) < (beta * slope) * b);
                assert((beta * slope) * b <= (p * p) * b);
                assert(y * (p * p) < b * (p * p));
            }
        }
    } else {
        let s = f.slope2_units as int;
        let o = f.offset_units as int;
        assert(b * s <= b * o + b * p && b * (-o) == -(b * o) && -(b * p) < b * o)
            by (nonlinear_arith)
            requires
                s <= o + p,
                -p < o,
                0 < b,
        ;
        util::lemma_high_product_strictly_below(x as int, g.slope2 as int);
        assert(g.slope2 <= g.neg_offset + b);
        assert(-g.neg_offset < b);
    }
}

/// The default skewed function is defined everywhere, and sends every hash to one of the
/// buckets of the part, whatever their number.
pub proof fn lemma_default_in_part(b: u64, x: u64)
    requires
        0 < b,
    ensures
        Skewed::six_tenths_to_three().resized(b).accepts(x),
        0 <= Skewed::six_tenths_to_three().resized(b).bucket(x) < b,
{
    let f = Skewed::six_tenths_to_three();
    let g = f.resized(b);
    f.lemma_resized(b);
    util::lemma_high_product_strictly_below(x as int, g.slope2 as int);
    util::lemma_high_product_strictly_below(x as int, g.slope1 as int);
    assert(g.bucket(x) >= 0) by {
        if x >= g.beta {
            util::lemma_high_product_monotone(
                g.beta as int,
                x as int,
                g.slope2 as int,
                g.slope2 as int,
            );
            assert(util::high_product(g.beta as int, g.slope2 as int) == (11_068_046_444_225_730_560
                * g.slope2) / 0x1_0000_0000_0000_0000);
        }
    }
    assert(g.bucket(x) < b);
    lemma_skewed_in_part(f, b, x);
}

/// The slopes and the offset of the default skewed function are just below `b / 2`,
/// `7 * b / 4` and `3 * b / 4`.
proof fn lemma_default_slopes(b: int)
    requires
        1 <= b <= 0x1_0000_0000,
    ensures
        (b * 9_223_372_036_854_775_808) / 0x1_0000_0000_0000_0000 == b / 2,
        (b * 32_281_802_128_991_711_232) / 0x1_0000_0000_0000_0000 == (7 * b - 1) / 4,
        (b * 13_835_058_055_282_161_664) / 0x1_0000_0000_0000_0000 == (3 * b - 1) / 4,
{
}

/// In whole buckets, three fifths of the second slope exceed the offset by more than three
/// tenths of the buckets. It is enough to look at one period of twenty buckets.
proof fn lemma_default_break(b: int)
    requires
        1 <= b,
    ensures
        5 * ((3 * b - 1) / 4 + 3 * b / 10) < 3 * ((7 * b - 1) / 4),
{
    let k = b / 20;
    let r = b % 20;
    assert(b == 20 * k + r);
    assert((3 * b - 1) / 4 == 15 * k + (3 * r - 1) / 4);
    assert((7 * b - 1) / 4 == 35 * k + (7 * r - 1) / 4);
    assert(3 * b / 10 == 6 * k + 3 * r / 10);
    assert(5 * ((3 * r - 1) / 4 + 3 * r / 10) < 3 * ((7 * r - 1) / 4));
}

/// Where the default skewed function changes from one piece to the other.
proof fn lemma_default_ends(b: int)
    requires
        1 <= b <= 0x1_0000_0000,
    ensures
        10 * ((11_068_046_444_225_730_559 * (b / 2)) / 0x1_0000_0000_0000_0000) < 3 * b,
        (11_068_046_444_225_730_560 * ((7 * b - 1) / 4)) / 0x1_0000_0000_0000_0000 - (3 * b - 1) / 4
            >= 3 * b / 10,
{
    lemma_default_break(b);
    let slope = (7 * b - 1) / 4;
    let m = (3 * b - 1) / 4 + 3 * b / 10;
    assert(5 * m + 1 <= 3 * slope);
    assert(m * 0x1_0000_0000_0000_0000 <= 11_068_046_444_225_730_560 * slope);
}

/// **The default skew.** The first six tenths of the hashes go to the first three tenths of
/// the buckets, and the others to the rest. A larger hash never goes to a smaller bucket.
pub proof fn lemma_default_skew(b: u64, x: u64, y: u64)
    requires
        1 <= b <= 0x1_0000_0000,
        x <= y,
    ensures
        ({
            let f = Skewed::six_tenths_to_three().resized(b);
            &&& x < f.beta ==> 10 * f.bucket(x) < 3 * b
            &&& x >= f.beta ==> f.bucket(x) >= 3 * b / 10
            &&& f.bucket(x) <= f.bucket(y)
        }),
{
    let d = Skewed::six_tenths_to_three();
    let f = d.resized(b);
    let slope1 = f.slope1 as int;
    let slope2 = f.slope2 as int;
    let last = (f.beta - 1) as u64;
    d.lemma_resized(b);
    lemma_default_slopes(b as int);
    lemma_default_ends(b as int);
    assert(10 * f.bucket(last) < 3 * b);
    assert(f.bucket(f.beta) >= 3 * b / 10);
    lemma_skewed_monotone(f, x, y);
    if x < f.beta {
        util::lemma_high_product_monotone(x as int, last as int, slope1, slope1);
    } else {
        util::lemma_high_product_monotone(f.beta as int, x as int, slope2, slope2);
    }
}

} // verus!
