//! The arithmetic of doubles, held against that of the machine.

use agent_bench::answer::{is_expected, to_cents, TOLERANCE};
use agent_bench::arith::Double;

fn double(number: f64) -> Double {
    Double { bits: number.to_bits() }
}

fn same(ours: Double, theirs: f64) -> bool {
    let number = f64::from_bits(ours.bits);
    ours.bits == theirs.to_bits() || (number.is_nan() && theirs.is_nan())
}

fn hold(a: f64, b: f64) {
    let (x, y) = (double(a), double(b));
    assert!(same(x.add(&y), a + b), "{a:e} + {b:e}");
    assert!(same(x.subtract(&y), a - b), "{a:e} - {b:e}");
    assert!(same(x.multiply(&y), a * b), "{a:e} * {b:e}");
    assert!(same(x.divide(&y), a / b), "{a:e} / {b:e}");
    assert_eq!(f64::from_bits(x.max(&y).bits).is_nan(), a.max(b).is_nan());
    if !a.max(b).is_nan() {
        assert_eq!(f64::from_bits(x.max(&y).bits), a.max(b), "{a:e} max {b:e}");
    }
}

fn next(seed: &mut u64) -> u64 {
    *seed ^= *seed << 13;
    *seed ^= *seed >> 7;
    *seed ^= *seed << 17;
    *seed
}

#[test]
fn special_values() {
    let values = [
        0.0, 1.0, 2.0, 3.0, 0.1, 0.5, 1e-5, 1e9, 1e300, 1e-300, 5e-324, 1e-310, f64::MIN_POSITIVE,
        f64::EPSILON, f64::MAX, f64::INFINITY, f64::NAN, 9_007_199_254_740_992.0,
        9_007_199_254_740_991.0, 4_503_599_627_370_496.0, 1.0 + f64::EPSILON,
        1.0 - f64::EPSILON / 2.0, 2.2250738585072011e-308,
    ];
    for a in values {
        for b in values {
            hold(a, b);
            hold(-a, b);
            hold(a, -b);
            hold(-a, -b);
        }
    }
}

#[test]
fn scattered_patterns() {
    let mut seed: u64 = 88_172_645_463_325_252;
    for _ in 0..100_000 {
        let a = f64::from_bits(next(&mut seed));
        let b = f64::from_bits(next(&mut seed));
        hold(a, b);
    }
}

#[test]
fn scattered_neighbours() {
    let mut seed: u64 = 1_234_567_890_123;
    for _ in 0..100_000 {
        let a = f64::from_bits(next(&mut seed));
        let shift = next(&mut seed) % 160;
        let exponent = ((a.to_bits() >> 52) & 2047) as i64 - 80 + shift as i64;
        let field = exponent.clamp(0, 2046) as u64;
        let b = f64::from_bits((next(&mut seed) & 0x800f_ffff_ffff_ffff) | (field << 52));
        hold(a, b);
    }
}

#[test]
fn scattered_short_mantissas() {
    let mut seed: u64 = 42;
    for _ in 0..100_000 {
        let mask = u64::MAX << (next(&mut seed) % 53);
        let a = f64::from_bits(next(&mut seed) & mask);
        let b = f64::from_bits(next(&mut seed) & mask);
        hold(a, b);
    }
}

#[test]
fn integers_as_doubles() {
    let mut seed: u64 = 77;
    for _ in 0..50_000 {
        let n = next(&mut seed) >> (next(&mut seed) % 64);
        assert!(same(Double::from_u128(n as u128), n as f64));
        let i = n as i64;
        assert!(same(Double::from_i64(i), i as f64));
        let wide = (n as u128) << (next(&mut seed) % 60);
        assert!(same(Double::from_u128(wide), wide as f64));
    }
    assert!(same(Double::from_i64(i64::MIN), i64::MIN as f64));
    assert!(same(Double::from_u128(u64::MAX as u128), u64::MAX as f64));
    assert!(same(double(1.5).negate(), -1.5));
}

fn hold_one(a: f64) {
    assert!(same(double(a).round(), a.round()), "{a:e}");
    assert!(same(double(a).abs(), a.abs()), "{a:e}");
    assert!(same(to_cents(&double(a)), (a * 100.0).round() / 100.0), "{a:e}");
}

#[test]
fn whole_numbers_and_cents() {
    assert_eq!(TOLERANCE, 0.01f64.to_bits());
    let mut seed: u64 = 99;
    for _ in 0..50_000 {
        let a = f64::from_bits(next(&mut seed));
        hold_one(a);
        let field = 1000 + next(&mut seed) % 80;
        hold_one(f64::from_bits((next(&mut seed) & 0x800f_ffff_ffff_ffff) | (field << 52)));
        let quarter = (next(&mut seed) % 10_000) as f64 / 4.0;
        hold_one(quarter);
        hold_one(-quarter);
    }
    for a in [0.0, -0.0, 0.5, -0.5, 0.49999999999999994, 1.5, 2.5, f64::NAN, f64::INFINITY, 1e308] {
        hold_one(a);
    }
}

#[test]
fn order_of_doubles() {
    let mut seed: u64 = 7;
    for round in 0..50_000 {
        let a = f64::from_bits(next(&mut seed));
        let b = if round % 3 == 0 { -a } else { f64::from_bits(next(&mut seed)) };
        assert_eq!(double(a).is_at_most(&double(b)), a <= b);
    }
    for a in [0.0, -0.0, 1.0, -1.0, f64::NAN, f64::INFINITY, f64::NEG_INFINITY] {
        for b in [0.0, -0.0, 1.0, -1.0, f64::NAN, f64::INFINITY, f64::NEG_INFINITY] {
            assert_eq!(double(a).is_at_most(&double(b)), a <= b);
        }
    }
}

#[test]
fn values_that_are_expected() {
    let close = |value: f64, expected: f64| is_expected(&double(value), &double(expected));
    assert!(close(14.73, 14.73));
    assert!(close(14.7349, 14.73));
    assert!(!close(14.76, 14.73));
    assert!(!close(f64::NAN, 14.73));
    assert!(!close(f64::INFINITY, 14.73));
    for step in 0..4000 {
        let value = 14.0 + step as f64 / 1000.0;
        let rounded = (value * 100.0).round() / 100.0;
        assert_eq!(close(value, 14.73), (rounded - 14.73).abs() <= 0.01);
    }
}
