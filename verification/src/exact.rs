//! Where the arithmetic of doubles loses nothing: integers below two to the
//! 53rd, and differences that are doubles themselves.

use vstd::arithmetic::power2::{lemma2_to64, lemma_pow2_adds, lemma_pow2_pos, pow2};
use vstd::prelude::*;

use crate::arith::{meaning, rounded, Double, Meaning, INFINITY};
use crate::double::{EXACT_LIMIT, FRACTION_UNIT};
use crate::order::{
    lemma_amount, lemma_finer_exact, lemma_negated, lemma_over_units, lemma_plus_units,
    lemma_rounded_moved, lemma_rounded_scaled, lemma_rounded_units, lemma_times_units, units,
};
use crate::stats::{seconds_of, thousandfold, NANOS_PER_SEC};

verus! {

/// An integer below two to the 53rd is a double.
pub proof fn lemma_of_units(n: nat)
    requires
        n < EXACT_LIMIT,
    ensures
        Double::of(n as int).bits < INFINITY,
        units(Double::of(n as int)) == n * pow2(1074),
{
    lemma_finer_exact(n, 0);
    if n == 0 {
        assert(meaning(0) == (Meaning::Finite { negative: false, mantissa: 0, exponent: -1074 }));
        assert(0 * pow2(0) == 0);
        assert(0 * pow2(1074) == 0);
    }
}

/// Doubles with the same units are the same.
pub proof fn lemma_same_units(a: Double, b: Double)
    requires
        a.bits < INFINITY,
        b.bits < INFINITY,
        units(a) == units(b),
    ensures
        a == b,
{
    lemma_rounded_units(a);
    lemma_rounded_units(b);
}

/// The sum of integers.
pub proof fn lemma_of_plus(a: nat, b: nat)
    requires
        a < EXACT_LIMIT,
        b < EXACT_LIMIT,
    ensures
        Double::of(a as int).plus(Double::of(b as int)) == Double::of((a + b) as int),
{
    lemma_of_units(a);
    lemma_of_units(b);
    lemma_plus_units(Double::of(a as int), Double::of(b as int));
    let p = pow2(1074);
    assert(a * p + b * p == (a + b) * p) by (nonlinear_arith);
    lemma_rounded_moved(false, a + b, 1, 0, 1074);
}

/// A double and zero.
pub proof fn lemma_plus_zero(d: Double)
    requires
        d.bits < INFINITY,
    ensures
        d.plus(Double::of(0)) == d,
{
    lemma_of_units(0);
    assert(0 * pow2(1074) == 0);
    lemma_plus_units(d, Double::of(0));
    lemma_rounded_units(d);
}

/// The difference of two amounts where the first is no less: rounded once.
pub proof fn lemma_minus_units(a: Double, b: Double)
    requires
        a.bits < INFINITY,
        b.bits < INFINITY,
        units(a) >= units(b),
    ensures
        a.minus(b).bits == rounded(false, (units(a) - units(b)) as nat, 1, -1074),
{
    lemma_amount(a);
    lemma_amount(b);
    lemma_negated(b);
    let (m, e) = match meaning(a.bits) {
        Meaning::Finite { mantissa, exponent, .. } => (mantissa, exponent),
        _ => (0, 0),
    };
    let (n, f) = match meaning(b.bits) {
        Meaning::Finite { mantissa, exponent, .. } => (mantissa, exponent),
        _ => (0, 0),
    };
    let low = if e < f {
        e
    } else {
        f
    };
    let k = (low + 1074) as nat;
    let (p, q, r) = (pow2((e - low) as nat), pow2((f - low) as nat), pow2(k));
    lemma_pow2_adds((e - low) as nat, k);
    lemma_pow2_adds((f - low) as nat, k);
    lemma_pow2_pos(k);
    let sum = m * p - n * q;
    assert(sum * r == m * (p * r) - n * (q * r)) by (nonlinear_arith)
        requires
            sum == m * p - n * q,
    ;
    assert(sum >= 0) by (nonlinear_arith)
        requires
            sum * r >= 0,
            r > 0,
    ;
    if sum == 0 {
        assert(0 * r == 0);
    } else {
        lemma_rounded_moved(false, sum as nat, 1, low, k);
        assert(sum * r == (sum as nat) * r);
    }
}

/// Where the exact difference is a double, the difference is that double.
pub proof fn lemma_minus_exact(a: Double, b: Double, rest: Double)
    requires
        a.bits < INFINITY,
        b.bits < INFINITY,
        rest.bits < INFINITY,
        units(rest) + units(b) == units(a),
    ensures
        a.minus(b) == rest,
{
    lemma_minus_units(a, b);
    lemma_rounded_units(rest);
}

/// The product of integers.
pub proof fn lemma_of_times(a: nat, b: nat)
    requires
        a < EXACT_LIMIT,
        b < EXACT_LIMIT,
    ensures
        Double::of(a as int).times(Double::of(b as int)) == Double::of((a * b) as int),
{
    let x = Double::of(a as int);
    let y = Double::of(b as int);
    let (n, d) = lemma_of_meaning(b);
    lemma_of_units(a);
    lemma_times_units(x, n, -d, y);
    let (p, q) = (pow2(1074), pow2(d));
    assert((a * p) * n == (a * n) * p) by (nonlinear_arith);
    lemma_rounded_moved(false, a * n, 1, -d, 1074);
    assert(a * n == (a * b) * q) by (nonlinear_arith)
        requires
            n == b * q,
    ;
    lemma_rounded_moved(false, a * b, 1, 0, d);
}

/// What an integer below two to the 53rd stands for: itself times a power of
/// two, over that power.
pub proof fn lemma_of_meaning(b: nat) -> (res: (nat, nat))
    requires
        b < EXACT_LIMIT,
    ensures
        meaning(Double::of(b as int).bits) == (Meaning::Finite {
            negative: false,
            mantissa: res.0,
            exponent: -(res.1 as int),
        }),
        res.0 == b * pow2(res.1),
{
    let y = Double::of(b as int);
    lemma_of_units(b);
    lemma_amount(y);
    let (n, f) = match meaning(y.bits) {
        Meaning::Finite { mantissa, exponent, .. } => (mantissa, exponent),
        _ => (0, 0),
    };
    let p = pow2(1074);
    lemma_pow2_pos(1074);
    if f > 0 {
        let k = f as nat;
        let q = pow2(k);
        lemma_pow2_adds(k, 1074);
        lemma_pow2_adds(1, (k - 1) as nat);
        lemma_pow2_pos((k - 1) as nat);
        lemma2_to64();
        assert(q >= 2);
        assert(n * (q * p) >= EXACT_LIMIT * p) by (nonlinear_arith)
            requires
                n >= FRACTION_UNIT,
                EXACT_LIMIT == 2 * FRACTION_UNIT,
                q >= 2,
                p > 0,
        ;
        assert(b * p < EXACT_LIMIT * p) by (nonlinear_arith)
            requires
                b < EXACT_LIMIT,
                p > 0,
        ;
    }
    let d = (-f) as nat;
    let (q, r) = (pow2(d), pow2((1074 - d) as nat));
    lemma_pow2_adds(d, (1074 - d) as nat);
    lemma_pow2_pos((1074 - d) as nat);
    assert(n == b * q) by (nonlinear_arith)
        requires
            n * r == b * (q * r),
            r > 0,
    ;
    (n, d)
}

/// The quotient of two integers is the double nearest to the true quotient.
pub proof fn lemma_of_over(a: nat, b: nat)
    requires
        a < EXACT_LIMIT,
        0 < b < EXACT_LIMIT,
    ensures
        Double::of(a as int).over(Double::of(b as int)).bits == rounded(false, a, b, 0),
{
    let x = Double::of(a as int);
    let y = Double::of(b as int);
    let (n, d) = lemma_of_meaning(b);
    let (p, q) = (pow2(1074), pow2(d));
    lemma_pow2_pos(d);
    assert(n > 0) by (nonlinear_arith)
        requires
            n == b * q,
            b > 0,
            q > 0,
    ;
    lemma_of_units(a);
    lemma_over_units(x, n, -d, y);
    lemma_rounded_moved(false, a, n, d as int, 1074);
    lemma_rounded_moved(false, a, b, 0, d);
}

/// A multiple over one factor is the other factor.
pub proof fn lemma_of_over_factor(quotient: nat, b: nat)
    requires
        quotient * b < EXACT_LIMIT,
        0 < b < EXACT_LIMIT,
    ensures
        Double::of((quotient * b) as int).over(Double::of(b as int)) == Double::of(quotient as int),
{
    lemma_of_over(quotient * b, b);
    lemma_rounded_scaled(false, quotient, 1, b, 0);
    assert(b * quotient == quotient * b) by (nonlinear_arith);
    assert(b * 1 == b);
}

/// The difference of two integers.
pub proof fn lemma_of_minus(a: nat, b: nat)
    requires
        b <= a < EXACT_LIMIT,
    ensures
        Double::of(a as int).minus(Double::of(b as int)) == Double::of(a - b),
{
    lemma_of_units(a);
    lemma_of_units(b);
    lemma_of_units((a - b) as nat);
    let p = pow2(1074);
    assert((a - b) * p + b * p == a * p) by (nonlinear_arith);
    lemma_minus_exact(Double::of(a as int), Double::of(b as int), Double::of(a - b));
}

/// A whole number is its own nearest whole number.
pub proof fn lemma_of_whole(a: nat)
    requires
        a < EXACT_LIMIT,
    ensures
        Double::of(a as int).whole() == Double::of(a as int),
{
    let (n, d) = lemma_of_meaning(a);
    if d > 0 {
        let unit = pow2(d);
        lemma_pow2_pos(d);
        assert((2 * n + unit) / (2 * unit) == a) by (nonlinear_arith)
            requires
                n == a * unit,
                unit > 0,
        ;
    }
}

/// Nanoseconds in a 512th of a second. Doubles hold so short a time exactly.
pub const PART: u64 = 1_953_125;

/// So many 512ths.
pub open spec fn parts_of(count: nat) -> Double {
    Double::of(count as int).over(Double::of(512))
}

/// A count of 512ths is a double.
pub proof fn lemma_parts_units(count: nat)
    requires
        count < EXACT_LIMIT,
    ensures
        parts_of(count).bits == rounded(false, count, 512, 0),
        parts_of(count).bits < INFINITY,
        units(parts_of(count)) == count * pow2(1065),
{
    lemma_of_over(count, 512);
    lemma2_to64();
    lemma_rounded_moved(false, count, 1, -9, 9);
    assert(1 * pow2(9) == 512);
    lemma_finer_exact(count, -9);
    if count == 0 {
        assert(meaning(0) == (Meaning::Finite { negative: false, mantissa: 0, exponent: -1074 }));
        assert(0 * pow2(0) == 0);
        assert(0 * pow2(1065) == 0);
    }
}

/// The sum of two counts of 512ths.
pub proof fn lemma_parts_plus(a: nat, b: nat)
    requires
        a + b < EXACT_LIMIT,
    ensures
        parts_of(a).plus(parts_of(b)) == parts_of(a + b),
{
    lemma_parts_units(a);
    lemma_parts_units(b);
    lemma_parts_units(a + b);
    let p = pow2(1065);
    assert(a * p + b * p == (a + b) * p) by (nonlinear_arith);
    lemma_plus_units(parts_of(a), parts_of(b));
    lemma_rounded_units(parts_of(a + b));
}

/// So many 512ths of a second, in seconds.
pub proof fn law_seconds_of_parts(nanos: u128, count: nat)
    requires
        nanos == count * PART,
        count < EXACT_LIMIT,
    ensures
        seconds_of(nanos) == Double::of(count as int).over(Double::of(512)),
{
    let unit = NANOS_PER_SEC as nat;
    let (w, j) = ((count / 512) as nat, (count % 512) as nat);
    assert(count == 512 * w + j);
    assert(nanos == w * unit + j * PART);
    vstd::arithmetic::div_mod::lemma_fundamental_div_mod_converse(
        nanos as int,
        unit as int,
        w as int,
        (j * PART) as int,
    );
    let r = j * PART;
    lemma_of_over(r as nat, unit);
    lemma_rounded_scaled(false, j, 512, PART as nat, 0);
    assert(PART * j == r);
    lemma_parts_units(j);
    lemma_parts_units(512 * w);
    lemma_of_over_factor(w, 512);
    assert(w * 512 == 512 * w);
    lemma_whole_parts(w);
    lemma_parts_plus(512 * w, j);
}

/// Whole seconds in 512ths.
proof fn lemma_whole_parts(w: nat)
    requires
        512 * w < EXACT_LIMIT,
    ensures
        parts_of(512 * w) == Double::of(w as int),
{
    lemma_of_over_factor(w, 512);
    assert(w * 512 == 512 * w);
}

/// So many 512ths of a second, in milliseconds: whole seconds are a thousand
/// each.
pub proof fn law_milliseconds_of_parts(nanos: u128, count: nat)
    requires
        nanos == count * PART,
        count < EXACT_LIMIT,
    ensures
        thousandfold(seconds_of(nanos)) == Double::of(count as int).over(Double::of(512)).times(
            Double::of(1000),
        ),
        forall|secs: nat|
            count == #[trigger] (512 * secs) ==> thousandfold(seconds_of(nanos)) == Double::of(
                (secs * 1000) as int,
            ),
{
    law_seconds_of_parts(nanos, count);
    assert forall|secs: nat| count == #[trigger] (512 * secs) implies thousandfold(
        seconds_of(nanos),
    ) == Double::of((secs * 1000) as int) by {
        lemma_whole_parts(secs);
        lemma_of_times(secs, 1000);
    }
}

/// A double over one is the double.
pub proof fn lemma_over_one(d: Double)
    requires
        d.bits <= INFINITY,
    ensures
        d.over(Double::of(1)) == d,
{
    let one = Double::of(1);
    let (n, k) = lemma_of_meaning(1);
    lemma_pow2_pos(k);
    assert(n == pow2(k));
    lemma_amount(d);
    if d.bits < INFINITY {
        lemma_over_units(d, n, -k, one);
        lemma_rounded_moved(false, units(d), 1, -1074, k);
        assert(1 * pow2(k) == n);
        lemma_rounded_units(d);
    }
}

} // verus!
