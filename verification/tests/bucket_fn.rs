use ptr_hash::bucket_fn::{BucketFn, Cubic, CubicEps, Linear, Skewed, Square, SquareEps};
use ptr_hash::util::{mul_high, mul_high_wide};

/// A skewed function from its two real parameters.
fn skewed(beta: f64, gamma: f64) -> Skewed {
    let p61 = (1u64 << 61) as f64;
    let eighths = |x: f64| (x * p61) as u128 * 8;
    let offset = (beta - gamma) / (1. - beta);
    let sign = if offset < 0. { -1 } else { 1 };
    Skewed::new(
        (beta * 8. * p61) as u64,
        (gamma / beta * 8. * p61) as u128,
        eighths((1. - gamma) / (1. - beta)),
        sign * eighths(offset.abs()) as i128,
    )
}

#[test]
fn test_skewed() {
    let mut skewed = skewed(0.6, 0.3);
    skewed.set_buckets_per_part(1000000000);

    let n = 100;
    for i in 0..100 {
        let x = u64::MAX / n * i;
        let y = skewed.call(x);
        println!("{x:>20} => {y:>20}");
    }
    let beta = 11068046444225730960;
    for x in 0..50 {
        let y = skewed.call(x);
        println!("{x:>20} => {y:>20}");
    }
    for x in beta - 50..beta + 50 {
        let y = skewed.call(x);
        println!("{x:>20} => {y:>20}");
    }
    for x in u64::MAX - 50..=u64::MAX {
        let y = skewed.call(x);
        println!("{x:>20} => {y:>20}");
    }
}

#[test]
fn skewed_has_exact_values() {
    let mut f = skewed(0.6, 0.3);
    f.set_buckets_per_part(1_000_000_000);
    assert_eq!(f.b, 1_000_000_000);
    assert_eq!(f.beta, 11068046444225730560);
    assert_eq!(f.slope1, 500_000_000);
    assert_eq!(f.slope2, 1_749_999_999);
    assert_eq!(f.neg_offset, 749_999_999);
    assert_eq!(f.call(0), 0);
    assert_eq!(f.call(1), 0);
    assert_eq!(f.call(1 << 63), 250_000_000);
    assert_eq!(f.call(11068046444225730559), 299_999_999);
    assert_eq!(f.call(11068046444225730560), 300_000_000);
    assert_eq!(f.call(u64::MAX), 999_999_999);
}

#[test]
fn skewed_is_zero_before_it_knows_the_buckets() {
    let f = skewed(0.6, 0.3);
    assert_eq!(f.call(0), 0);
    assert_eq!(f.call(u64::MAX), 0);
}

#[test]
fn skewed_with_an_offset_above_one() {
    // line 2: y = 3x - 2
    let mut f = skewed(0.75, 0.25);
    f.set_buckets_per_part(1000);
    assert_eq!((f.slope1, f.slope2, f.neg_offset), (333, 3000, 2000));
    assert_eq!(f.call(u64::MAX), 999);
    assert_eq!(f.call(3 << 62), 250);
    assert_eq!(f.call((3 << 62) - 1), 249);
    assert_eq!(f.call(7 << 61), 625);
    assert_eq!(f.call(0), 0);
}

#[test]
fn skewed_with_a_slope_above_eight() {
    // line 2: y = 9x - 8
    let mut f = skewed(0.9, 0.1);
    f.set_buckets_per_part(1_000_000);
    assert_eq!(f.call(u64::MAX), 999_999);
    assert!(f.call(f.beta - 1) < 100_000);
    assert!((99_998..=100_000).contains(&f.call(f.beta)));
    // line 2: y = 63.5x - 62.5
    let mut f = skewed(0.9921875, 0.50390625);
    f.set_buckets_per_part(1 << 40);
    assert_eq!(f.slope2, 127 << 39);
    assert_eq!(f.neg_offset, 125 << 39);
    assert_eq!(f.call(u64::MAX), (1 << 40) - 1);
}

#[test]
fn skewed_towards_the_last_buckets() {
    // line 1: y = 3x, line 2: y = x / 3 + 2 / 3
    let mut f = skewed(0.25, 0.75);
    f.set_buckets_per_part(3000);
    assert_eq!((f.slope1, f.slope2, f.neg_offset), (9000, 999, -1999));
    assert_eq!(f.call(1 << 61), 1125);
    assert_eq!(f.call(1 << 62), 2248);
    assert_eq!(f.call(u64::MAX), 2997);
}

#[test]
fn skewed_with_equal_shares_is_linear() {
    let mut f = skewed(0.5, 0.5);
    f.set_buckets_per_part(1 << 62);
    assert_eq!(f.call(1 << 62), 1 << 60);
    assert_eq!(f.call(3 << 62), 3 << 60);
    assert_eq!(f.call(u64::MAX), (1 << 62) - 1);
}

#[test]
fn skewed_lies_on_its_two_lines() {
    for (beta, gamma) in [(0.6, 0.3), (0.75, 0.25), (0.9, 0.1), (0.3, 0.6), (0.5, 0.5)] {
        for b in [1000u64, 123_457, 10_000_000] {
            let mut f = skewed(beta, gamma);
            f.set_buckets_per_part(b);
            for i in 0..500u64 {
                let x = u64::MAX / 500 * i;
                let r = x as f64 / u64::MAX as f64;
                let line = if x < f.beta {
                    r * (gamma / beta)
                } else {
                    r * ((1. - gamma) / (1. - beta)) + (gamma - beta) / (1. - beta)
                };
                assert!((f.call(x) as f64 - line * b as f64).abs() < 3.01);
            }
        }
    }
}

#[test]
fn skewed_is_undefined_below_zero() {
    let mut f = Skewed::new(0, 0, 1 << 64, 1 << 64);
    f.set_buckets_per_part(10);
    assert!(!f.is_defined_at(0) && !f.is_defined_at(u64::MAX));
    let mut f = Skewed::new(0, 0, u128::MAX, i128::MIN);
    f.set_buckets_per_part(u64::MAX);
    assert!(!f.is_defined_at(0) && !f.is_defined_at(u64::MAX));
    let mut f = Skewed::new(1, 0, 1 << 64, -(1 << 62));
    f.set_buckets_per_part(8);
    assert!(f.is_defined_at(0) && f.is_defined_at(u64::MAX));
    assert_eq!((f.call(0), f.call(1), f.call(u64::MAX)), (0, 2, 9));
}

#[test]
fn default_skew_sends_six_tenths_to_three() {
    for b in (1..3000u64).chain([1 << 32, (1 << 32) - 1, 999_999_937]) {
        let mut f = Skewed::default();
        f.set_buckets_per_part(b);
        let last = f.call(f.beta - 1);
        let first = f.call(f.beta);
        assert!(10 * last < 3 * b && first >= 3 * b / 10 && last <= first);
    }
}

#[test]
fn default_skewed_is_six_tenths_to_three() {
    assert_eq!(Skewed::default(), skewed(0.6, 0.3));
}

#[test]
fn default_skewed_stays_in_the_part() {
    for b in (1..2000u64).chain([1 << 61, u64::MAX]) {
        let mut f = Skewed::default();
        f.set_buckets_per_part(b);
        for x in [0, 1, f.beta - 1, f.beta, f.beta + 1, u64::MAX / 2, u64::MAX] {
            assert!(f.call(x) < b);
        }
    }
}

#[test]
fn skewed_never_decreases_on_a_piece() {
    let mut f = Skewed::default();
    f.set_buckets_per_part(12345);
    let mut last = 0;
    for i in 0..1000u64 {
        let y = f.call(u64::MAX / 1000 * i);
        assert!(last <= y);
        last = y;
    }
}

#[test]
fn set_buckets_per_part_leaves_plain_functions_alone() {
    let mut f = Square;
    f.set_buckets_per_part(17);
    assert_eq!(f.call(1 << 63), 1 << 62);
}

#[test]
fn constants_tell_the_functions_apart() {
    assert!(Linear::LINEAR && !Linear::B_OUTPUT);
    assert!(!Skewed::LINEAR && Skewed::B_OUTPUT);
    assert!(!Square::LINEAR && !Square::B_OUTPUT);
    assert!(!SquareEps::LINEAR && !SquareEps::B_OUTPUT);
    assert!(!Cubic::LINEAR && !Cubic::B_OUTPUT);
    assert!(!CubicEps::LINEAR && !CubicEps::B_OUTPUT);
}

#[test]
fn plain_functions_have_exact_values() {
    let half = 1u64 << 63;
    assert_eq!(Linear.call(12345), 12345);
    assert_eq!(Square.call(half), 1 << 62);
    assert_eq!(Square.call(u64::MAX), u64::MAX - 1);
    assert_eq!(SquareEps.call(half), (1 << 55) * 127 + (1 << 56));
    assert_eq!(SquareEps.call(u64::MAX), ((1 << 57) - 1) * 128);
    // 1/4 * 3/4 = 3/16
    assert_eq!(Cubic.call(half), 3 << 60);
    assert_eq!(CubicEps.call(half), (3 << 53) * 127 + (1 << 56));
    assert_eq!(Cubic.call(0), 0);
    assert_eq!(CubicEps.call(128), 1);
}

#[test]
fn plain_functions_are_monotone_and_below_the_identity() {
    let mut last = [0u64; 4];
    for i in 0..10_000u64 {
        let x = u64::MAX / 10_000 * i;
        let now = [Square.call(x), SquareEps.call(x), Cubic.call(x), CubicEps.call(x)];
        for k in 0..4 {
            assert!(last[k] <= now[k] && now[k] <= x);
        }
        assert!(now[2] <= now[0]);
        last = now;
    }
}

#[test]
fn mul_high_is_the_high_half_of_the_product() {
    assert_eq!(mul_high(0, u64::MAX), 0);
    assert_eq!(mul_high(u64::MAX, u64::MAX), u64::MAX - 1);
    assert_eq!(mul_high(1 << 32, 1 << 32), 1);
    assert_eq!(mul_high((1 << 32) - 1, 1 << 32), 0);
    assert_eq!(mul_high(1 << 63, 10), 5);
}

#[test]
fn mul_high_wide_takes_numbers_above_one() {
    assert_eq!(mul_high_wide(10, 1 << 64), 10);
    assert_eq!(mul_high_wide(10, 5 << 63), 25);
    assert_eq!(mul_high_wide(3, 1 << 63), 1);
    assert_eq!(mul_high_wide(u64::MAX, u128::MAX), u128::MAX - (1 << 64));
}
