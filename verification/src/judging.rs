//! When a value is the expected one.

use vstd::arithmetic::div_mod::lemma_fundamental_div_mod;
use vstd::arithmetic::power2::{
    lemma2_to64, lemma2_to64_rest, lemma_pow2_adds, lemma_pow2_pos, pow2,
};
use vstd::prelude::*;

use crate::answer::{cents_of, meets, TOLERANCE};
use crate::arith::{meaning, nearest_integer, rounded, settled, Double, Meaning, INFINITY, SIGN};
use crate::double::{exponent_field, EXACT_LIMIT, FRACTION_UNIT};
use crate::exact::{
    lemma_minus_exact, lemma_of_meaning, lemma_of_minus, lemma_of_over, lemma_of_over_factor,
    lemma_of_times, lemma_of_units, lemma_of_whole, lemma_parts_units, lemma_same_units, parts_of,
};
use crate::order::{
    lemma_amount, lemma_finer_exact, lemma_negated, lemma_of_ordered, lemma_rounded_moved,
    lemma_rounded_ordered, lemma_rounded_sign, lemma_times_units, lemma_units_ordered, units,
};

verus! {

/// A count of 512ths times a hundred, rounded to a whole number: halves go up.
proof fn lemma_hundredfold_whole(count: nat)
    requires
        100 * count < EXACT_LIMIT,
    ensures
        parts_of(count).times(Double::of(100)).whole() == Double::of(
            ((25 * count + 64) / 128) as int,
        ),
{
    let x = parts_of(count);
    let product = x.times(Double::of(100));
    lemma_parts_units(count);
    let (n, d) = lemma_of_meaning(100);
    lemma_times_units(x, n, -d, Double::of(100));
    let (p, q) = (pow2(1065), pow2(d));
    lemma_pow2_adds(1065, d);
    assert((count * p) * n == (100 * count) * (p * q)) by (nonlinear_arith)
        requires
            n == 100 * q,
    ;
    lemma_rounded_moved(false, 100 * count, 1, -9, 1065 + d);
    assert(product.bits == rounded(false, 100 * count, 1, -9));
    lemma_finer_exact(100 * count, -9);
    if count == 0 {
        assert(product.bits == 0);
        assert(meaning(0) == (Meaning::Finite { negative: false, mantissa: 0, exponent: -1074 }));
        let unit = pow2(1074);
        lemma_pow2_pos(1074);
        assert((2 * 0 + unit) / (2 * unit) == 0) by (nonlinear_arith)
            requires
                unit > 0,
        ;
    } else {
        lemma_amount(product);
        let (m, e) = match meaning(product.bits) {
            Meaning::Finite { mantissa, exponent, .. } => (mantissa, exponent),
            _ => (0, 0),
        };
        assert(m * pow2((e + 1074) as nat) == (100 * count) * p);
        lemma2_to64();
        if e >= 0 {
            let r = pow2(e as nat);
            lemma_pow2_adds(e as nat, 1074);
            lemma_pow2_adds(9, 1065);
            lemma_pow2_pos(1065);
            assert(m * (r * (512 * p)) == (100 * count) * p);
            assert((m * r) * 512 == 100 * count) by (nonlinear_arith)
                requires
                    m * (r * (512 * p)) == (100 * count) * p,
                    p > 0,
            ;
            let w = m * r;
            assert(25 * count == 128 * w);
            assert((25 * count + 64) / 128 == w);
            lemma_of_units(w);
            lemma_pow2_adds(9, 1065);
            assert(w * (512 * p) == (100 * count) * p) by (nonlinear_arith)
                requires
                    w * 512 == 100 * count,
            ;
            lemma_same_units(product, Double::of(w as int));
        } else {
            let k = (-e) as nat;
            let unit = pow2(k);
            lemma_pow2_pos(k);
            lemma_pow2_pos(1065);
            let low = pow2((1074 - k) as nat);
            lemma_pow2_adds(k, (1074 - k) as nat);
            lemma_pow2_adds(9, 1065);
            lemma_pow2_pos((1074 - k) as nat);
            assert(m * 512 == (100 * count) * unit) by (nonlinear_arith)
                requires
                    m * low == (100 * count) * p,
                    unit * low == 512 * p,
                    low > 0,
            ;
            let c = 25 * count;
            assert(m * 128 == c * unit) by (nonlinear_arith)
                requires
                    m * 512 == (100 * count) * unit,
                    c == 25 * count,
            ;
            let w = (c + 64) / 128;
            let f = (c + 64) % 128;
            assert(c + 64 == 128 * w + f);
            assert((2 * m + unit) / (2 * unit) == w) by (nonlinear_arith)
                requires
                    m * 128 == c * unit,
                    c + 64 == 128 * w + f,
                    0 <= f < 128,
                    unit > 0,
            {
                // 128 * (2 * m + unit) is (c + 64) times the double unit.
                assert(128 * (2 * m + unit) == (c + 64) * (2 * unit));
                assert(128 * (2 * m + unit) == (128 * w + f) * (2 * unit));
                assert(2 * m + unit >= w * (2 * unit));
                assert(2 * m + unit < (w + 1) * (2 * unit));
            }
        }
    }
}

/// Rounded to two places, a value is the nearest whole number of hundredths,
/// over a hundred: exactly so of 512ths, where halves go up. Whole numbers
/// stay as they are.
pub proof fn law_cents_are_hundredths(count: nat, whole: nat)
    requires
        100 * count < EXACT_LIMIT,
        100 * whole < EXACT_LIMIT,
    ensures
        cents_of(Double::of(count as int).over(Double::of(512))) == Double::of(
            ((25 * count + 64) / 128) as int,
        ).over(Double::of(100)),
        cents_of(Double::of(whole as int)) == Double::of(whole as int),
{
    lemma_hundredfold_whole(count);
    lemma_of_times(whole, 100);
    lemma_of_whole(whole * 100);
    lemma_of_over_factor(whole, 100);
}

/// Rounded to two places, a value is a whole number of hundredths, over a
/// hundred: the one that is nearest to a hundred times the value.
pub proof fn law_cents_are_nearest(value: Double) -> (cents: nat)
    requires
        value.bits < INFINITY,
        value.times(Double::of(100)).bits < INFINITY,
        units(value.times(Double::of(100))) < EXACT_LIMIT * pow2(1074),
    ensures
        cents_of(value) == Double::of(cents as int).over(Double::of(100)),
        2 * units(value.times(Double::of(100))) <= (2 * cents + 1) * pow2(1074),
        (2 * cents - 1) * pow2(1074) <= 2 * units(value.times(Double::of(100))),
{
    let y = value.times(Double::of(100));
    lemma_amount(y);
    let (m, e) = match meaning(y.bits) {
        Meaning::Finite { mantissa, exponent, .. } => (mantissa, exponent),
        _ => (0, 0),
    };
    let one = pow2(1074);
    lemma_pow2_pos(1074);
    if e >= 0 {
        let r = pow2(e as nat);
        let w = m * r;
        lemma_pow2_adds(e as nat, 1074);
        assert(units(y) == w * one) by (nonlinear_arith)
            requires
                units(y) == m * (r * one),
                w == m * r,
        ;
        assert(w < EXACT_LIMIT) by (nonlinear_arith)
            requires
                w * one < EXACT_LIMIT * one,
                one > 0,
        ;
        lemma_of_units(w);
        lemma_same_units(y, Double::of(w as int));
        assert(2 * (w * one) <= (2 * w + 1) * one && (2 * w - 1) * one <= 2 * (w * one))
            by (nonlinear_arith)
            requires
                one > 0,
        ;
        w
    } else {
        let k = (-e) as nat;
        let unit = pow2(k);
        let low = pow2((1074 - k) as nat);
        lemma_pow2_adds(k, (1074 - k) as nat);
        lemma_pow2_pos(k);
        lemma_pow2_pos((1074 - k) as nat);
        let w = (2 * m + unit) / (2 * unit);
        lemma_fundamental_div_mod((2 * m + unit) as int, (2 * unit) as int);
        let f = (2 * m + unit) % (2 * unit);
        assert(2 * m + unit == (2 * unit) * w + f);
        assert(2 * (m * low) <= (2 * w + 1) * (unit * low)) by (nonlinear_arith)
            requires
                2 * m + unit == (2 * unit) * w + f,
                0 <= f < 2 * unit,
                low > 0,
        ;
        assert((2 * w - 1) * (unit * low) <= 2 * (m * low)) by (nonlinear_arith)
            requires
                2 * m + unit == (2 * unit) * w + f,
                0 <= f < 2 * unit,
                low > 0,
        ;
        w
    }
}

/// Below zero, a value is rounded as its opposite is above.
pub proof fn law_cents_keep_the_sign(value: Double)
    requires
        value.bits < INFINITY,
    ensures
        cents_of(value.negated()) == cents_of(value).negated(),
{
    let hundred = Double::of(100);
    let (n, d) = lemma_of_meaning(100);
    lemma_pow2_pos(d);
    assert(n > 0) by (nonlinear_arith)
        requires
            n == 100 * pow2(d),
            pow2(d) > 0,
    ;
    lemma_of_units(100);
    let y = value.times(hundred);
    lemma_amount(value);
    lemma_negated(value);
    let (m, e) = match meaning(value.bits) {
        Meaning::Finite { mantissa, exponent, .. } => (mantissa, exponent),
        _ => (0, 0),
    };
    lemma_rounded_sign(m * n, 1, e - d);
    lemma_rounded_ordered(m * n, m * n, 1, e - d);
    assert(value.negated().times(hundred) == y.negated());
    lemma_amount(y);
    lemma_negated(y);
    let z = y.whole();
    match meaning(y.bits) {
        Meaning::Finite { mantissa, exponent, .. } => {
            if exponent < 0 {
                let unit = pow2((-exponent) as nat);
                lemma_pow2_pos((-exponent) as nat);
                let w = (2 * mantissa + unit) / (2 * unit);
                lemma_rounded_sign(w, 1, 0);
                lemma_rounded_ordered(w, w, 1, 0);
            }
        },
        _ => {},
    }
    assert(y.negated().whole() == z.negated());
    lemma_amount(z);
    lemma_negated(z);
    match meaning(z.bits) {
        Meaning::Finite { mantissa, exponent, .. } => {
            lemma_rounded_sign(mantissa, n, exponent + d);
            lemma_rounded_ordered(mantissa, mantissa, n, exponent + d);
        },
        _ => {},
    }
}

/// A finite value is expected where the expected value is what it rounds to,
/// and of whole numbers only the same one is expected.
pub proof fn law_expected_values(value: Double, a: nat, b: nat)
    requires
        100 * a < EXACT_LIMIT,
        b < EXACT_LIMIT,
    ensures
        cents_of(value).bits < INFINITY ==> meets(value, cents_of(value)),
        meets(Double::of(a as int), Double::of(b as int)) <==> a == b,
{
    lemma_tolerance();
    if cents_of(value).bits < INFINITY {
        let cents = cents_of(value);
        lemma_of_units(0);
        assert(0 * pow2(1074) == 0);
        lemma_minus_exact(cents, cents, Double::of(0));
        lemma_amount(Double::of(0));
    }
    law_cents_are_hundredths(0, a);
    let (x, y) = (Double::of(a as int), Double::of(b as int));
    let rest = x.minus(y);
    if a >= b {
        lemma_of_minus(a, b);
        lemma_of_units((a - b) as nat);
        lemma_amount(rest);
        if a > b {
            lemma_of_ordered(1, (a - b) as nat);
        }
    } else {
        let d = (b - a) as nat;
        lemma_of_minus(b, a);
        lemma_of_units(d);
        lemma_of_ordered(1, d);
        let p = pow2(1074);
        lemma_pow2_pos(1074);
        lemma_of_units(a);
        lemma_of_units(b);
        assert(a * p < b * p) by (nonlinear_arith)
            requires
                a < b,
                p > 0,
        ;
        lemma_opposite(x, y);
        lemma_amount(Double::of(d as int));
        lemma_negated(Double::of(d as int));
    }
}

/// The difference the other way round.
proof fn lemma_opposite(a: Double, b: Double)
    requires
        a.bits < INFINITY,
        b.bits < INFINITY,
        units(a) < units(b),
    ensures
        a.minus(b).bits == SIGN + b.minus(a).bits,
        b.minus(a).bits <= INFINITY,
{
    lemma_amount(a);
    lemma_amount(b);
    lemma_negated(a);
    lemma_negated(b);
    let (m, e) = match meaning(a.bits) {
        Meaning::Finite { mantissa, exponent, .. } => (mantissa, exponent),
        _ => (0, 0),
    };
    let (n, f) = match meaning(b.bits) {
        Meaning::Finite { mantissa, exponent, .. } => (mantissa, exponent),
        _ => (0, 0),
    };
    let low = if e < f {
        e
    } else {
        f
    };
    let k = (low + 1074) as nat;
    let (p, q, r) = (pow2((e - low) as nat), pow2((f - low) as nat), pow2(k));
    lemma_pow2_adds((e - low) as nat, k);
    lemma_pow2_adds((f - low) as nat, k);
    lemma_pow2_pos(k);
    let sum = n * q - m * p;
    assert(sum * r == n * (q * r) - m * (p * r)) by (nonlinear_arith)
        requires
            sum == n * q - m * p,
    ;
    assert(sum > 0) by (nonlinear_arith)
        requires
            sum * r > 0,
            r > 0,
    ;
    lemma_rounded_sign(sum as nat, 1, low);
    lemma_rounded_ordered(sum as nat, sum as nat, 1, low);
}

/// A value is expected where, rounded to two places, it is no farther from the
/// expected value than a hundredth, on either side. `distance` is how far it
/// is, where that is a double.
pub proof fn law_expected_within_a_cent(value: Double, expected: Double, distance: Double)
    requires
        cents_of(value).bits < INFINITY,
        expected.bits < INFINITY,
        distance.bits < INFINITY,
        units(distance) + units(expected) == units(cents_of(value)) || units(distance) + units(
            cents_of(value),
        ) == units(expected),
    ensures
        meets(value, expected) <==> distance.bits <= Double::of(1).over(Double::of(100)).bits,
{
    let cents = cents_of(value);
    lemma_tolerance();
    lemma_amount(distance);
    if units(distance) + units(expected) == units(cents) {
        lemma_minus_exact(cents, expected, distance);
    } else {
        lemma_minus_exact(expected, cents, distance);
        if units(distance) > 0 {
            lemma_opposite(cents, expected);
            lemma_negated(distance);
        } else {
            lemma_minus_exact(cents, expected, distance);
        }
    }
}

/// One is more than the tolerance, and the tolerance is a number.
proof fn lemma_tolerance()
    ensures
        TOLERANCE < Double::of(1).bits < INFINITY,
        meaning(TOLERANCE) is Finite,
        TOLERANCE < SIGN,
        TOLERANCE == Double::of(1).over(Double::of(100)).bits,
{
    lemma_of_over(1, 100);
    lemma_rounded_moved(false, 1, 100, 0, 59);
    lemma2_to64_rest();
    let num: nat = 576_460_752_303_423_488;
    assert(1 * pow2(59) == num);
    assert(num / 100 == 5_764_607_523_034_234 && num % 100 == 88);
    assert(nearest_integer(num, 100) == 5_764_607_523_034_235);
    assert(rounded(false, num, 100, -59) == settled(false, num, 100, -59));
    let t = Double { bits: TOLERANCE };
    lemma_amount(t);
    lemma_of_units(1);
    let unit = FRACTION_UNIT;
    assert(TOLERANCE / unit == 1016);
    assert(exponent_field(TOLERANCE) == 1016);
    let m = (unit + TOLERANCE % unit) as nat;
    assert(units(t) == m * pow2(1015));
    lemma_pow2_adds(59, 1015);
    lemma2_to64();
    lemma2_to64_rest();
    let p = pow2(1015);
    lemma_pow2_pos(1015);
    assert(m * p < pow2(59) * p) by (nonlinear_arith)
        requires
            m < pow2(59),
            p > 0,
    ;
    if Double::of(1).bits <= TOLERANCE {
        lemma_units_ordered(Double::of(1), t);
    }
}

} // verus!
