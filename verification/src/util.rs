use vstd::prelude::*;

verus! {

/// 2^64, the number of values of a `u64` and the denominator of the fixed-point
/// fractions that bucket functions work with.
pub open spec fn two64() -> int {
    0x1_0000_0000_0000_0000
}

/// The integer part of `a * b / 2^64`.
pub open spec fn high_product(a: int, b: int) -> int {
    (a * b) / two64()
}

/// The high 64 bits of the 128-bit product: `a` scaled by the fraction `b / 2^64`.
pub fn mul_high(a: u64, b: u64) -> (high: u64)
    ensures
        high == high_product(a as int, b as int),
        high * 0x1_0000_0000_0000_0000 <= a * b < (high + 1) * 0x1_0000_0000_0000_0000,
{
    proof {
        lemma_product_fits(a, b);
        lemma_high_product(a as int, b as int);
    }
    let product: u128 = a as u128 * b as u128;
    let high: u128 = product >> 64;
    proof {
        assert(high == product / 0x1_0000_0000_0000_0000u128 && high <= 0xffff_ffff_ffff_ffffu128)
            by (bit_vector)
            requires
                high == product >> 64u128,
        ;
    }
    high as u64
}

/// The same for a factor of 128 bits, that is, for a number with 64 bits before the binary
/// point and 64 behind it.
pub fn mul_high_wide(a: u64, b: u128) -> (high: u128)
    ensures
        high == high_product(a as int, b as int),
        high * 0x1_0000_0000_0000_0000 <= a * b < (high + 1) * 0x1_0000_0000_0000_0000,
{
    proof {
        lemma_high_product(a as int, b as int);
    }
    let whole: u128 = b >> 64;
    let fraction: u128 = b & 0xffff_ffff_ffff_ffff;
    proof {
        assert(whole == b / 0x1_0000_0000_0000_0000u128 && whole <= 0xffff_ffff_ffff_ffffu128
            && fraction == b % 0x1_0000_0000_0000_0000u128) by (bit_vector)
            requires
                whole == b >> 64u128,
                fraction == b & 0xffff_ffff_ffff_ffffu128,
        ;
        let w = a * whole;
        let f = a * fraction;
        assert(a * b == w * two64() + f) by (nonlinear_arith)
            requires
                b == whole * two64() + fraction,
                w == a * whole,
                f == a * fraction,
        ;
        assert(w + two64() <= 0x1_0000_0000_0000_0000 * 0x1_0000_0000_0000_0000) by (
        nonlinear_arith)
            requires
                w == a * whole,
                0 <= a <= 0xffff_ffff_ffff_ffff,
                0 <= whole <= 0xffff_ffff_ffff_ffff,
                two64() == 0x1_0000_0000_0000_0000,
        ;
        lemma_product_fits(a, whole as u64);
    }
    a as u128 * whole + mul_high(a, fraction as u64) as u128
}

/// The high part of a product is the product over `2^64`, rounded down.
pub proof fn lemma_high_product(a: int, b: int)
    ensures
        high_product(a, b) * 0x1_0000_0000_0000_0000 <= a * b < (high_product(a, b) + 1)
            * 0x1_0000_0000_0000_0000,
{
}

/// Larger factors give a product that is not smaller.
pub(crate) proof fn lemma_high_product_monotone(a: int, c: int, b: int, d: int)
    requires
        0 <= a <= c,
        0 <= b <= d,
    ensures
        high_product(a, b) <= high_product(c, d),
{
    assert(a * b <= c * d) by (nonlinear_arith)
        requires
            0 <= a <= c,
            0 <= b <= d,
    ;
    vstd::arithmetic::div_mod::lemma_div_is_ordered(a * b, c * d, two64());
}

/// To scale by a fraction does not enlarge.
pub(crate) proof fn lemma_high_product_below(a: int, b: int)
    requires
        0 <= a,
        0 <= b < two64(),
    ensures
        0 <= high_product(a, b) <= a,
{
    assert(0 <= a * b <= a * two64()) by (nonlinear_arith)
        requires
            0 <= a,
            0 <= b < two64(),
    ;
}

/// A fraction of a positive number is below it.
pub(crate) proof fn lemma_high_product_strictly_below(a: int, b: int)
    requires
        0 <= a < two64(),
        0 <= b,
    ensures
        0 <= high_product(a, b),
        b > 0 ==> high_product(a, b) < b,
        b == 0 ==> high_product(a, b) == 0,
{
    assert(0 <= a * b) by (nonlinear_arith)
        requires
            0 <= a,
            0 <= b,
    ;
    if b > 0 {
        assert(a * b < b * two64()) by (nonlinear_arith)
            requires
                0 <= a < two64(),
                0 < b,
        ;
    } else {
        assert(a * b == 0) by (nonlinear_arith)
            requires
                b == 0,
        ;
    }
}

/// To scale twice and round both times loses less than two.
pub(crate) proof fn lemma_high_product_twice(x: int, a: int, b: int)
    requires
        0 <= x < two64(),
        0 <= a,
        0 <= b,
    ensures
        0 <= x * (a * b) - high_product(x, high_product(b, a)) * (two64() * two64()) < 2 * (two64()
            * two64()),
{
    let p = two64();
    let s = high_product(b, a);
    let y = high_product(x, s);
    let ab = a * b;
    assert(b * a == ab) by (nonlinear_arith)
        requires
            ab == a * b,
    ;
    assert(s * p <= ab < s * p + p);
    assert(y * p <= x * s < y * p + p);
    assert(0 <= x * ab - y * (p * p) < 2 * (p * p)) by (nonlinear_arith)
        requires
            s * p <= ab < s * p + p,
            y * p <= x * s < y * p + p,
            0 <= x < p,
    {
        assert(x * (s * p) <= x * ab <= x * (s * p + p));
        assert(x * (s * p) == (x * s) * p);
        assert((y * p) * p <= (x * s) * p < (y * p + p) * p);
    }
}

proof fn lemma_product_fits(a: u64, b: u64)
    ensures
        0 <= a * b <= u128::MAX,
{
    assert(0 <= a * b <= 0xffff_ffff_ffff_ffff * 0xffff_ffff_ffff_ffff) by (nonlinear_arith)
        requires
            0 <= a <= 0xffff_ffff_ffff_ffff,
            0 <= b <= 0xffff_ffff_ffff_ffff,
    ;
}

/// `usize::is_power_of_two`: whether the number is `2^k` for some `k`.
pub assume_specification[ usize::is_power_of_two ](n: usize) -> (r: bool)
    ensures
        r == crate::placement::is_power_of_two(n as int),
;

/// `<[usize]>::sort_unstable`: puts the elements in ascending order and keeps each as
/// often as it occurs.
#[verifier::external_body]
pub(crate) fn sort_unstable(v: &mut Vec<usize>)
    ensures
        final(v)@.to_multiset() == old(v)@.to_multiset(),
        forall|i: int, j: int| 0 <= i <= j < final(v)@.len() ==> final(v)@[i] <= final(v)@[j],
{
    v.sort_unstable()
}

/// Whether an element occurs twice. The elements are put in ascending order for that.
pub fn has_duplicates(v: &mut Vec<usize>) -> (r: bool)
    ensures
        r == !old(v)@.no_duplicates(),
        final(v)@.to_multiset() == old(v)@.to_multiset(),
        forall|i: int, j: int| 0 <= i <= j < final(v)@.len() ==> final(v)@[i] <= final(v)@[j],
{
    let ghost before = v@;
    sort_unstable(v);
    let mut i: usize = 1;
    while i < v.len()
        invariant
            1 <= i,
            i <= v@.len() || v@.len() == 0,
            before == old(v)@,
            v@.to_multiset() == before.to_multiset(),
            forall|k: int, l: int| 0 <= k <= l < v@.len() ==> v@[k] <= v@[l],
            forall|k: int, l: int| 0 <= k < l < i && l < v@.len() ==> v@[k] < v@[l],
        decreases v.len() - i,
    {
        if v[i - 1] == v[i] {
            proof {
                if before.no_duplicates() {
                    before.lemma_multiset_has_no_duplicates();
                    v@.lemma_multiset_has_no_duplicates_conv();
                    assert(v@[i - 1] != v@[i as int]);
                }
            }
            return true;
        }
        proof {
            assert forall|k: int| 0 <= k < i implies v@[k] < v@[i as int] by {
                assert(v@[k] <= v@[i - 1]);
                assert(v@[i - 1] <= v@[i as int]);
            }
        }
        i += 1;
    }
    proof {
        assert(v@.no_duplicates());
        v@.lemma_multiset_has_no_duplicates();
        before.lemma_multiset_has_no_duplicates_conv();
    }
    false
}

} // verus!
