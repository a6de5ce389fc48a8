//! The order of doubles: rounding keeps it, and so does the arithmetic.

use vstd::arithmetic::div_mod::{
    lemma_div_is_ordered, lemma_fundamental_div_mod, lemma_fundamental_div_mod_converse,
};
use vstd::arithmetic::power2::{
    lemma2_to64, lemma_pow2_adds, lemma_pow2_pos, lemma_pow2_unfold, pow2,
};
use vstd::prelude::*;

use crate::arith::{
    coarser, finer, meaning, nearest_integer, pattern, rounded, settled, Double, Meaning, INFINITY,
    SIGN,
};
use crate::double::{exponent_field, EXACT_LIMIT, FRACTION_UNIT};
use crate::report::excess_of;
use crate::stats::{
    mean_in_order, percentile_ms_of, percentile_sample, seconds_of, seconds_sum, thousandfold,
    NANOS_PER_SEC,
};

verus! {

/// The nearest integer does not depend on a common factor.
proof fn lemma_nearest_integer_scaled(num: nat, den: nat, k: nat)
    requires
        den > 0,
        k > 0,
    ensures
        nearest_integer(k * num, k * den) == nearest_integer(num, den),
{
    let q = num / den;
    let r = num % den;
    lemma_fundamental_div_mod(num as int, den as int);
    assert(k * num == q * (k * den) + k * r) by (nonlinear_arith)
        requires
            num == den * q + r,
    ;
    assert(0 <= k * r < k * den) by (nonlinear_arith)
        requires
            0 <= r < den,
            k > 0,
    ;
    lemma_fundamental_div_mod_converse(
        (k * num) as int,
        (k * den) as int,
        q as int,
        (k * r) as int,
    );
    assert(2 * (k * r) > k * den <==> 2 * r > den) by (nonlinear_arith)
        requires
            k > 0,
    ;
    assert(2 * (k * r) == k * den <==> 2 * r == den) by (nonlinear_arith)
        requires
            k > 0,
    ;
}

/// A greater number has no smaller nearest integer.
proof fn lemma_nearest_integer_ordered(a: nat, b: nat, den: nat)
    requires
        den > 0,
        a <= b,
    ensures
        nearest_integer(a, den) <= nearest_integer(b, den),
{
    lemma_div_is_ordered(a as int, b as int, den as int);
    lemma_fundamental_div_mod(a as int, den as int);
    lemma_fundamental_div_mod(b as int, den as int);
    if a / den == b / den {
        assert(a % den <= b % den);
    }
}

/// The nearest integer of a number between two multiples of the divisor.
proof fn lemma_nearest_integer_between(num: nat, den: nat, low: nat, high: nat)
    requires
        den > 0,
        low * den <= num <= high * den,
    ensures
        low <= nearest_integer(num, den) <= high,
{
    assert(den * low == low * den) by (nonlinear_arith);
    assert(den * high == high * den) by (nonlinear_arith);
    lemma_fundamental_div_mod_converse((low * den) as int, den as int, low as int, 0);
    lemma_fundamental_div_mod_converse((high * den) as int, den as int, high as int, 0);
    lemma_nearest_integer_ordered(low * den, num, den);
    lemma_nearest_integer_ordered(num, high * den, den);
}

/// Comparisons with a multiple of a divisor do not depend on a common factor.
proof fn lemma_limit_scaled(num: nat, den: nat, k: nat, limit: nat)
    requires
        k > 0,
    ensures
        k * num >= limit * (k * den) <==> num >= limit * den,
{
    assert(limit * (k * den) == k * (limit * den)) by (nonlinear_arith);
    let x = limit * den;
    assert(k * num >= k * x <==> num >= x) by (nonlinear_arith)
        requires
            k > 0,
    ;
}

/// What has the digits of a mantissa rounds alike whatever common factor it has.
proof fn lemma_settled_scaled(negative: bool, num: nat, den: nat, k: nat, exponent: int)
    requires
        den > 0,
        k > 0,
    ensures
        settled(negative, k * num, k * den, exponent) == settled(negative, num, den, exponent),
{
    lemma_nearest_integer_scaled(num, den, k);
}

/// So does what has too few digits.
proof fn lemma_finer_scaled(negative: bool, num: nat, den: nat, k: nat, exponent: int)
    requires
        den > 0,
        k > 0,
    ensures
        finer(negative, k * num, k * den, exponent) == finer(negative, num, den, exponent),
    decreases exponent + 1074,
{
    lemma_limit_scaled(num, den, k, FRACTION_UNIT as nat);
    if num < FRACTION_UNIT * den && exponent > -1074 {
        assert(2 * (k * num) == k * (2 * num)) by (nonlinear_arith);
        lemma_finer_scaled(negative, 2 * num, den, k, exponent - 1);
    } else {
        lemma_settled_scaled(negative, num, den, k, exponent);
    }
}

/// So does what has too many digits.
proof fn lemma_coarser_scaled(negative: bool, num: nat, den: nat, k: nat, exponent: int)
    requires
        den > 0,
        k > 0,
    ensures
        coarser(negative, k * num, k * den, exponent) == coarser(negative, num, den, exponent),
    decreases
            (if exponent < -1074 {
                -1074 - exponent
            } else {
                0
            }) + (if num > den {
                num - den
            } else {
                0
            }),
{
    lemma_limit_scaled(num, den, k, EXACT_LIMIT as nat);
    assert(k * den > 0) by (nonlinear_arith)
        requires
            k > 0,
            den > 0,
    ;
    if num >= EXACT_LIMIT * den || exponent < -1074 {
        assert(2 * (k * den) == k * (2 * den)) by (nonlinear_arith);
        lemma_coarser_scaled(negative, num, 2 * den, k, exponent + 1);
    } else {
        lemma_settled_scaled(negative, num, den, k, exponent);
    }
}

/// Rounding does not depend on a common factor.
pub proof fn lemma_rounded_scaled(negative: bool, num: nat, den: nat, k: nat, exponent: int)
    requires
        den > 0,
        k > 0,
    ensures
        rounded(negative, k * num, k * den, exponent) == rounded(negative, num, den, exponent),
{
    lemma_limit_scaled(num, den, k, EXACT_LIMIT as nat);
    lemma_coarser_scaled(negative, num, den, k, exponent);
    lemma_finer_scaled(negative, num, den, k, exponent);
    assert(k * num == 0 <==> num == 0) by (nonlinear_arith)
        requires
            k > 0,
    ;
}

/// Rounding does not depend on how a power of two is written.
proof fn lemma_rounded_shifted(negative: bool, num: nat, den: nat, exponent: int)
    requires
        den > 0,
    ensures
        rounded(negative, num, 2 * den, exponent + 1) == rounded(negative, num, den, exponent),
        rounded(negative, 2 * num, den, exponent - 1) == rounded(negative, num, den, exponent),
{
    lemma_rounded_shifted_up(negative, num, den, exponent);
    lemma_rounded_shifted_up(negative, 2 * num, den, exponent - 1);
    lemma_rounded_scaled(negative, num, den, 2, exponent);
}

/// Rounding with twice the divisor and the next exponent.
proof fn lemma_rounded_shifted_up(negative: bool, num: nat, den: nat, exponent: int)
    requires
        den > 0,
    ensures
        rounded(negative, num, 2 * den, exponent + 1) == rounded(negative, num, den, exponent),
{
    if num > 0 {
        let twice = 2 * den;
        let next = exponent + 1;
        if num >= EXACT_LIMIT * den || exponent < -1074 {
            assert(coarser(negative, num, den, exponent) == coarser(negative, num, twice, next));
            if !(num >= EXACT_LIMIT * twice || next < -1074) {
                assert(coarser(negative, num, twice, next) == settled(negative, num, twice, next));
                assert(finer(negative, num, twice, next) == settled(negative, num, twice, next));
            }
        } else {
            assert(num < FRACTION_UNIT * twice);
            assert(finer(negative, num, twice, next) == finer(negative, 2 * num, twice, exponent));
            lemma_finer_scaled(negative, num, den, 2, exponent);
        }
    }
}

/// Rounding does not depend on how a power of two is written.
pub proof fn lemma_rounded_moved(negative: bool, num: nat, den: nat, exponent: int, d: nat)
    requires
        den > 0,
    ensures
        rounded(negative, num * pow2(d), den, exponent - d) == rounded(
            negative,
            num,
            den,
            exponent,
        ),
        rounded(negative, num, den * pow2(d), exponent + d) == rounded(
            negative,
            num,
            den,
            exponent,
        ),
    decreases d,
{
    if d == 0 {
        lemma2_to64();
        assert(num * 1 == num && den * 1 == den);
    } else {
        let c = (d - 1) as nat;
        let p = pow2(c);
        lemma_pow2_unfold(d);
        lemma_pow2_pos(c);
        lemma_rounded_moved(negative, num, den, exponent, c);
        assert(num * (2 * p) == 2 * (num * p)) by (nonlinear_arith);
        assert(den * (2 * p) == 2 * (den * p)) by (nonlinear_arith);
        assert(den * p > 0) by (nonlinear_arith)
            requires
                den > 0,
                p > 0,
        ;
        lemma_rounded_shifted(negative, num * p, den, exponent - c);
        lemma_rounded_shifted(negative, num, den * p, exponent + c);
    }
}

/// The bit pattern of a mantissa does not exceed that of the next exponent.
proof fn lemma_pattern_ordered(m: nat, n: nat, exponent: int)
    requires
        m <= n < EXACT_LIMIT,
        exponent >= -1074,
        m >= FRACTION_UNIT || exponent == -1074,
    ensures
        pattern(false, m, exponent) <= pattern(false, n, exponent) <= pattern(
            false,
            FRACTION_UNIT as nat,
            exponent + 1,
        ) <= INFINITY,
{
}

/// A number with as many digits as a mantissa rounds to no less than the least
/// such number.
proof fn lemma_coarser_at_least(num: nat, den: nat, exponent: int)
    requires
        den > 0,
        exponent >= -1074,
        num >= FRACTION_UNIT * den,
    ensures
        pattern(false, FRACTION_UNIT as nat, exponent) <= coarser(false, num, den, exponent)
            <= INFINITY,
    decreases
            if num > den {
                num - den
            } else {
                0
            },
{
    if num >= EXACT_LIMIT * den {
        lemma_coarser_at_least(num, 2 * den, exponent + 1);
        lemma_pattern_ordered(FRACTION_UNIT as nat, FRACTION_UNIT as nat, exponent);
    } else {
        lemma_nearest_integer_between(num, den, FRACTION_UNIT as nat, EXACT_LIMIT as nat);
        let m = nearest_integer(num, den);
        if m < EXACT_LIMIT {
            lemma_pattern_ordered(FRACTION_UNIT as nat, m, exponent);
        } else {
            lemma_pattern_ordered(FRACTION_UNIT as nat, FRACTION_UNIT as nat, exponent);
            lemma_pattern_ordered(FRACTION_UNIT as nat, FRACTION_UNIT as nat, exponent + 1);
        }
    }
}

/// Rounding at the least exponent keeps the order.
proof fn lemma_coarser_ordered(a: nat, b: nat, den: nat, exponent: int)
    requires
        den > 0,
        a <= b,
        exponent == -1074 || (exponent > -1074 && a >= FRACTION_UNIT * den),
    ensures
        coarser(false, a, den, exponent) <= coarser(false, b, den, exponent) <= INFINITY,
    decreases
            if b > den {
                b - den
            } else {
                0
            },
{
    if b >= EXACT_LIMIT * den {
        if a >= EXACT_LIMIT * den {
            lemma_coarser_ordered(a, b, 2 * den, exponent + 1);
        } else {
            lemma_coarser_at_least(b, 2 * den, exponent + 1);
            lemma_settled_at_most(a, den, exponent);
        }
    } else {
        lemma_settled_at_most(a, den, exponent);
        lemma_settled_at_most(b, den, exponent);
        lemma_nearest_integer_ordered(a, b, den);
        let (m, n) = (nearest_integer(a, den), nearest_integer(b, den));
        if m < EXACT_LIMIT && n < EXACT_LIMIT {
            lemma_pattern_ordered(m, n, exponent);
        }
    }
}

/// A number with no more digits than a mantissa rounds to no more than the least
/// number with one more.
proof fn lemma_settled_at_most(num: nat, den: nat, exponent: int)
    requires
        den > 0,
        num < EXACT_LIMIT * den,
        exponent == -1074 || (exponent > -1074 && num >= FRACTION_UNIT * den),
    ensures
        exponent == -1074 || nearest_integer(num, den) >= FRACTION_UNIT,
        nearest_integer(num, den) <= EXACT_LIMIT,
        settled(false, num, den, exponent) <= pattern(false, FRACTION_UNIT as nat, exponent + 1)
            <= INFINITY,
{
    assert(0 * den == 0);
    if exponent == -1074 {
        lemma_nearest_integer_between(num, den, 0, EXACT_LIMIT as nat);
    } else {
        lemma_nearest_integer_between(num, den, FRACTION_UNIT as nat, EXACT_LIMIT as nat);
    }
    let m = nearest_integer(num, den);
    if m < EXACT_LIMIT {
        lemma_pattern_ordered(m, m, exponent);
    } else {
        lemma_pattern_ordered(FRACTION_UNIT as nat, FRACTION_UNIT as nat, exponent + 1);
    }
}

/// Rounding keeps the order.
pub proof fn lemma_rounded_ordered(a: nat, b: nat, den: nat, exponent: int)
    requires
        den > 0,
        a <= b,
    ensures
        rounded(false, a, den, exponent) <= rounded(false, b, den, exponent) <= INFINITY,
{
    let (x, y, d) = if exponent >= -1074 {
        let k = (exponent + 1074) as nat;
        let p = pow2(k);
        lemma_rounded_moved(false, a, den, exponent, k);
        lemma_rounded_moved(false, b, den, exponent, k);
        assert(a * p <= b * p) by (nonlinear_arith)
            requires
                a <= b,
                p >= 0,
        ;
        (a * p, b * p, den)
    } else {
        let k = (-1074 - exponent) as nat;
        let p = pow2(k);
        lemma_pow2_pos(k);
        lemma_rounded_moved(false, a, den, exponent, k);
        lemma_rounded_moved(false, b, den, exponent, k);
        assert(den * p > 0) by (nonlinear_arith)
            requires
                den > 0,
                p > 0,
        ;
        (a, b, den * p)
    };
    assert(rounded(false, a, den, exponent) == rounded(false, x, d, -1074));
    assert(rounded(false, b, den, exponent) == rounded(false, y, d, -1074));
    lemma_coarser_ordered(x, y, d, -1074);
}

/// A double that is no less than zero.
pub open spec fn is_amount(d: Double) -> bool {
    d.bits <= INFINITY
}

/// A finite amount, in units of the least double.
pub open spec fn units(d: Double) -> nat {
    match meaning(d.bits) {
        Meaning::Finite { mantissa, exponent, .. } => mantissa * pow2((exponent + 1074) as nat),
        _ => 0,
    }
}

/// What an amount stands for.
pub proof fn lemma_amount(d: Double)
    requires
        is_amount(d),
    ensures
        d.bits < INFINITY ==> meaning(d.bits) is Finite,
        d.bits == INFINITY ==> meaning(d.bits) == (Meaning::Infinite { negative: false }),
        meaning(d.bits) matches Meaning::Finite { negative, mantissa, exponent } ==> {
            &&& !negative
            &&& mantissa < EXACT_LIMIT
            &&& -1074 <= exponent <= 971
            &&& mantissa < FRACTION_UNIT ==> exponent == -1074
            &&& pattern(false, mantissa, exponent) == d.bits
        },
{
    let top = d.bits / FRACTION_UNIT;
    let fraction = d.bits % FRACTION_UNIT;
    assert(d.bits == top * FRACTION_UNIT + fraction);
    assert(top <= 2047);
    assert(exponent_field(d.bits) == top);
}

/// A greater amount has no fewer units.
pub proof fn lemma_units_ordered(a: Double, b: Double)
    requires
        a.bits <= b.bits < INFINITY,
    ensures
        units(a) <= units(b),
{
    lemma_amount(a);
    lemma_amount(b);
    let (m, e) = match meaning(a.bits) {
        Meaning::Finite { mantissa, exponent, .. } => (mantissa, exponent),
        _ => (0, 0),
    };
    let (n, f) = match meaning(b.bits) {
        Meaning::Finite { mantissa, exponent, .. } => (mantissa, exponent),
        _ => (0, 0),
    };
    let p = pow2((e + 1074) as nat);
    assert(e <= f);
    if e == f {
        assert(m <= n);
        assert(m * p <= n * p) by (nonlinear_arith)
            requires
                m <= n,
                p >= 0,
        ;
    } else {
        let d = (f - e - 1) as nat;
        lemma_pow2_unfold((f + 1074) as nat);
        lemma_pow2_adds((e + 1074) as nat, d);
        lemma_pow2_pos(d);
        let q = pow2(d);
        assert(pow2((f + 1074) as nat) == 2 * (p * q));
        assert(p * q >= p) by (nonlinear_arith)
            requires
                q >= 1,
                p >= 0,
        ;
        let r = p * q;
        assert(m * p <= n * (2 * r)) by (nonlinear_arith)
            requires
                m <= EXACT_LIMIT,
                n >= FRACTION_UNIT,
                EXACT_LIMIT == 2 * FRACTION_UNIT,
                p <= r,
                p >= 0,
        ;
    }
}

/// What has few enough digits is not changed.
pub proof fn lemma_finer_exact(num: nat, exponent: int)
    requires
        num < EXACT_LIMIT,
        -1074 <= exponent <= 971,
    ensures
        finer(false, num, 1, exponent) < INFINITY,
        units(Double { bits: finer(false, num, 1, exponent) }) == num * pow2(
            (exponent + 1074) as nat,
        ),
    decreases exponent + 1074,
{
    let d = Double { bits: finer(false, num, 1, exponent) };
    if num < FRACTION_UNIT && exponent > -1074 {
        lemma_finer_exact(2 * num, exponent - 1);
        let p = pow2((exponent + 1073) as nat);
        lemma_pow2_unfold((exponent + 1074) as nat);
        assert((2 * num) * p == num * (2 * p)) by (nonlinear_arith);
    } else {
        assert(nearest_integer(num, 1) == num);
        assert(d.bits == pattern(false, num, exponent));
        lemma_amount(d);
        if num < FRACTION_UNIT {
            assert(exponent == -1074);
            assert(d.bits == num);
            assert(d.bits / FRACTION_UNIT == 0);
            assert(d.bits % FRACTION_UNIT == num);
        } else {
            let field = exponent + 1075;
            let fraction = num - FRACTION_UNIT;
            lemma_fundamental_div_mod_converse(
                d.bits as int,
                FRACTION_UNIT as int,
                field,
                fraction,
            );
            assert(exponent_field(d.bits) == field);
        }
    }
}

/// A finite amount is the double nearest to itself.
pub proof fn lemma_rounded_units(d: Double)
    requires
        d.bits < INFINITY,
    ensures
        rounded(false, units(d), 1, -1074) == d.bits,
{
    lemma_amount(d);
    let (m, e) = match meaning(d.bits) {
        Meaning::Finite { mantissa, exponent, .. } => (mantissa, exponent),
        _ => (0, 0),
    };
    lemma_rounded_moved(false, m, 1, e, (e + 1074) as nat);
    assert(nearest_integer(m, 1) == m);
}

/// An integer as a double is an amount, and the greater one is no less.
pub proof fn lemma_of_ordered(a: nat, b: nat)
    requires
        a <= b,
    ensures
        Double::of(a as int).bits <= Double::of(b as int).bits <= INFINITY,
{
    lemma_rounded_ordered(a, b, 1, 0);
}

/// A count as a double is finite and not zero.
pub proof fn lemma_of_count(n: nat)
    requires
        0 < n <= u64::MAX,
    ensures
        Double::of(n as int).bits < INFINITY,
        units(Double::of(n as int)) > 0,
{
    let one = Double::of(1);
    let great: nat = 0x10000000000000000;
    lemma_of_ordered(1, n);
    lemma_of_ordered(n, great);
    lemma_finer_exact(1, 0);
    lemma_finer_exact(1, 64);
    lemma2_to64();
    lemma_rounded_moved(false, 1, 1, 64, 64);
    assert(1 * pow2(64) == great);
    lemma_units_ordered(one, Double::of(n as int));
    lemma_pow2_pos(1074);
}

/// The sum of two finite amounts, rounded once.
pub proof fn lemma_plus_units(a: Double, b: Double)
    requires
        a.bits < INFINITY,
        b.bits < INFINITY,
    ensures
        a.plus(b).bits == rounded(false, units(a) + units(b), 1, -1074),
{
    lemma_amount(a);
    lemma_amount(b);
    let (m, e) = match meaning(a.bits) {
        Meaning::Finite { mantissa, exponent, .. } => (mantissa, exponent),
        _ => (0, 0),
    };
    let (n, f) = match meaning(b.bits) {
        Meaning::Finite { mantissa, exponent, .. } => (mantissa, exponent),
        _ => (0, 0),
    };
    let low = if e < f {
        e
    } else {
        f
    };
    let k = (low + 1074) as nat;
    let (p, q, r) = (pow2((e - low) as nat), pow2((f - low) as nat), pow2(k));
    lemma_pow2_adds((e - low) as nat, k);
    lemma_pow2_adds((f - low) as nat, k);
    lemma_pow2_pos(k);
    let sum = m * p + n * q;
    assert(sum * r == m * (p * r) + n * (q * r)) by (nonlinear_arith)
        requires
            sum == m * p + n * q,
    ;
    lemma_rounded_moved(false, sum, 1, low, k);
}

/// A greater sum.
pub proof fn lemma_plus_ordered(a: Double, b: Double, c: Double, d: Double)
    requires
        a.bits <= c.bits <= INFINITY,
        b.bits <= d.bits <= INFINITY,
    ensures
        a.plus(b).bits <= c.plus(d).bits <= INFINITY,
{
    lemma_amount(a);
    lemma_amount(b);
    lemma_amount(c);
    lemma_amount(d);
    if a.bits < INFINITY && b.bits < INFINITY {
        lemma_plus_units(a, b);
        if c.bits < INFINITY && d.bits < INFINITY {
            lemma_plus_units(c, d);
            lemma_units_ordered(a, c);
            lemma_units_ordered(b, d);
            lemma_rounded_ordered(units(a) + units(b), units(c) + units(d), 1, -1074);
        } else {
            lemma_rounded_ordered(units(a) + units(b), units(a) + units(b), 1, -1074);
        }
    }
}

/// A greater product.
pub proof fn lemma_times_ordered(a: Double, b: Double, c: Double)
    requires
        a.bits <= b.bits <= INFINITY,
        c.bits < INFINITY,
        units(c) > 0,
    ensures
        a.times(c).bits <= b.times(c).bits <= INFINITY,
{
    lemma_amount(a);
    lemma_amount(b);
    lemma_amount(c);
    let (n, f) = match meaning(c.bits) {
        Meaning::Finite { mantissa, exponent, .. } => (mantissa, exponent),
        _ => (0, 0),
    };
    assert(n > 0) by {
        if n == 0 {
            let p = pow2((f + 1074) as nat);
            assert(0 * p == 0);
        }
    }
    if a.bits < INFINITY {
        lemma_times_units(a, n, f, c);
        lemma_rounded_ordered(units(a) * n, units(a) * n, 1, f - 1074);
        if b.bits < INFINITY {
            lemma_times_units(b, n, f, c);
            lemma_units_ordered(a, b);
            let (x, y) = (units(a), units(b));
            assert(x * n <= y * n) by (nonlinear_arith)
                requires
                    x <= y,
                    n >= 0,
            ;
            lemma_rounded_ordered(x * n, y * n, 1, f - 1074);
        }
    }
}

/// The product of a finite amount and a finite double, rounded once.
pub proof fn lemma_times_units(a: Double, n: nat, f: int, c: Double)
    requires
        a.bits < INFINITY,
        meaning(c.bits) == (Meaning::Finite { negative: false, mantissa: n, exponent: f }),
    ensures
        a.times(c).bits == rounded(false, units(a) * n, 1, f - 1074),
{
    lemma_amount(a);
    let (m, e) = match meaning(a.bits) {
        Meaning::Finite { mantissa, exponent, .. } => (mantissa, exponent),
        _ => (0, 0),
    };
    let k = (e + 1074) as nat;
    let p = pow2(k);
    lemma_rounded_moved(false, m * n, 1, e + f, k);
    assert((m * n) * p == (m * p) * n) by (nonlinear_arith);
}

/// A greater quotient.
pub proof fn lemma_over_ordered(a: Double, b: Double, c: Double)
    requires
        a.bits <= b.bits <= INFINITY,
        c.bits < INFINITY,
        units(c) > 0,
    ensures
        a.over(c).bits <= b.over(c).bits <= INFINITY,
{
    lemma_amount(a);
    lemma_amount(b);
    lemma_amount(c);
    let (n, f) = match meaning(c.bits) {
        Meaning::Finite { mantissa, exponent, .. } => (mantissa, exponent),
        _ => (0, 0),
    };
    assert(n > 0) by {
        if n == 0 {
            let p = pow2((f + 1074) as nat);
            assert(0 * p == 0);
        }
    }
    if a.bits < INFINITY {
        lemma_over_units(a, n, f, c);
        lemma_rounded_ordered(units(a), units(a), n, -1074 - f);
        if b.bits < INFINITY {
            lemma_over_units(b, n, f, c);
            lemma_units_ordered(a, b);
            lemma_rounded_ordered(units(a), units(b), n, -1074 - f);
        }
    }
}

/// The quotient of a finite amount and a finite double, rounded once.
pub proof fn lemma_over_units(a: Double, n: nat, f: int, c: Double)
    requires
        a.bits < INFINITY,
        n > 0,
        meaning(c.bits) == (Meaning::Finite { negative: false, mantissa: n, exponent: f }),
    ensures
        a.over(c).bits == rounded(false, units(a), n, -1074 - f),
{
    lemma_amount(a);
    let (m, e) = match meaning(a.bits) {
        Meaning::Finite { mantissa, exponent, .. } => (mantissa, exponent),
        _ => (0, 0),
    };
    lemma_rounded_moved(false, m, n, e - f, (e + 1074) as nat);
}

/// A part of a count makes up no more than one.
pub proof fn lemma_share_at_most_one(part: nat, count: nat)
    requires
        part <= count,
        0 < count <= u64::MAX,
    ensures
        Double::of(part as int).over(Double::of(count as int)).bits <= Double::of(1).bits,
{
    let whole = Double::of(count as int);
    lemma_of_count(count);
    lemma_of_ordered(part, count);
    lemma_over_ordered(Double::of(part as int), whole, whole);
    lemma_over_itself(whole);
}

/// A finite amount over itself is one.
pub proof fn lemma_over_itself(d: Double)
    requires
        d.bits < INFINITY,
        units(d) > 0,
    ensures
        d.over(d) == Double::of(1),
{
    lemma_amount(d);
    let (m, e) = match meaning(d.bits) {
        Meaning::Finite { mantissa, exponent, .. } => (mantissa, exponent),
        _ => (0, 0),
    };
    assert(m > 0) by {
        let p = pow2((e + 1074) as nat);
        assert(0 * p == 0);
    }
    lemma_rounded_scaled(false, 1, 1, m, 0);
    assert(m * 1 == m);
}

/// A longer time has no fewer seconds.
#[verifier::spinoff_prover]
pub proof fn law_seconds_ordered(a: u64, b: u64)
    requires
        a <= b,
    ensures
        seconds_of(a as u128).bits <= seconds_of(b as u128).bits <= INFINITY,
{
    let unit = NANOS_PER_SEC as nat;
    let (w, x) = ((a as nat / unit) as nat, (a as nat % unit) as nat);
    let (v, y) = ((b as nat / unit) as nat, (b as nat % unit) as nat);
    let billion = Double::of(unit as int);
    let one = Double::of(1);
    lemma_of_count(unit);
    lemma_of_ordered(w, v);
    lemma_of_ordered(w, w);
    lemma_of_ordered(x, unit);
    lemma_of_ordered(y, y);
    let part = Double::of(x as int).over(billion);
    let rest = Double::of(y as int).over(billion);
    lemma_over_ordered(Double::of(x as int), billion, billion);
    lemma_over_ordered(Double::of(y as int), Double::of(y as int), billion);
    if w == v {
        lemma_of_ordered(x, y);
        lemma_over_ordered(Double::of(x as int), Double::of(y as int), billion);
        lemma_plus_ordered(Double::of(w as int), part, Double::of(v as int), rest);
    } else {
        lemma_over_itself(billion);
        lemma_of_ordered(1, 1);
        let next = Double::of((w + 1) as int);
        assert(Double::of(w as int).plus(one) == next) by {
            lemma_finer_exact(w, 0);
            lemma_finer_exact(1, 0);
            assert(units(Double::of(w as int)) == w * pow2(1074)) by {
                if w == 0 {
                    assert(0 * pow2(1074) == 0);
                }
            }
            lemma_plus_units(Double::of(w as int), one);
            assert(w * pow2(1074) + 1 * pow2(1074) == (w + 1) * pow2(1074)) by (nonlinear_arith);
            lemma_rounded_moved(false, w + 1, 1, 0, 1074);
        }
        lemma_plus_ordered(Double::of(w as int), part, Double::of(w as int), one);
        lemma_of_ordered(w + 1, v);
        let zero = Double::of(0);
        assert(Double::of(v as int).plus(zero) == Double::of(v as int)) by {
            lemma_finer_exact(v, 0);
            lemma_rounded_units(Double::of(v as int));
            assert(units(zero) == 0) by {
                assert(0 * pow2(0) == 0);
                assert(meaning(0) == (Meaning::Finite {
                    negative: false,
                    mantissa: 0,
                    exponent: -1074,
                }));
            }
            lemma_plus_units(Double::of(v as int), zero);
        }
        lemma_plus_ordered(Double::of(v as int), zero, Double::of(v as int), rest);
    }
}

/// A longer time has no fewer milliseconds.
pub proof fn law_milliseconds_ordered(a: u64, b: u64)
    requires
        a <= b,
    ensures
        thousandfold(seconds_of(a as u128)).bits <= thousandfold(seconds_of(b as u128)).bits
            <= INFINITY,
{
    law_seconds_ordered(a, b);
    lemma_of_count(1000);
    lemma_times_ordered(seconds_of(a as u128), seconds_of(b as u128), Double::of(1000));
}

/// A mean is an amount.
pub proof fn lemma_mean_is_amount(s: Seq<u128>)
    requires
        s.len() <= u64::MAX,
    ensures
        is_amount(mean_in_order(s)),
{
    lemma_of_ordered(0, 0);
    if s.len() > 0 {
        lemma_sum_is_amount(s);
        lemma_of_count(s.len());
        lemma_of_count(1000);
        let sum = seconds_sum(s);
        let count = Double::of(s.len() as int);
        lemma_over_ordered(sum, sum, count);
        lemma_times_ordered(sum.over(count), sum.over(count), Double::of(1000));
    }
}

/// Any time in seconds is an amount.
pub proof fn lemma_seconds_is_amount(nanos: u128)
    ensures
        is_amount(seconds_of(nanos)),
{
    let (w, x) = ((nanos / NANOS_PER_SEC) as nat, (nanos % NANOS_PER_SEC) as nat);
    lemma_of_ordered(w, w);
    lemma_of_ordered(x, x);
    lemma_of_count(NANOS_PER_SEC as nat);
    let part = Double::of(x as int).over(Double::of(NANOS_PER_SEC as int));
    lemma_over_ordered(
        Double::of(x as int),
        Double::of(x as int),
        Double::of(NANOS_PER_SEC as int),
    );
    lemma_plus_ordered(Double::of(w as int), part, Double::of(w as int), part);
}

/// A sum of times is an amount.
proof fn lemma_sum_is_amount(s: Seq<u128>)
    ensures
        is_amount(seconds_sum(s)),
    decreases s.len(),
{
    if s.len() == 0 {
        lemma_of_ordered(0, 0);
    } else {
        let (sum, last) = (seconds_sum(s.drop_last()), seconds_of(s.last()));
        lemma_sum_is_amount(s.drop_last());
        lemma_seconds_is_amount(s.last());
        lemma_plus_ordered(sum, last, sum, last);
    }
}

/// A percentile is an amount.
pub proof fn lemma_percentile_is_amount(s: Seq<u128>, percentile: u64)
    ensures
        is_amount(percentile_ms_of(s, percentile)),
{
    lemma_of_ordered(0, 0);
    if s.len() > 0 {
        let secs = seconds_of(percentile_sample(s, percentile));
        lemma_seconds_is_amount(percentile_sample(s, percentile));
        lemma_of_count(1000);
        lemma_times_ordered(secs, secs, Double::of(1000));
    }
}

/// Rounding does not depend on the sign.
pub proof fn lemma_rounded_sign(num: nat, den: nat, exponent: int)
    requires
        den > 0,
    ensures
        rounded(true, num, den, exponent) == SIGN + rounded(false, num, den, exponent),
{
    lemma_rounded_ordered(num, num, den, exponent);
    if num > 0 {
        if num >= EXACT_LIMIT * den || exponent < -1074 {
            lemma_coarser_sign(num, den, exponent);
        } else {
            lemma_finer_sign(num, den, exponent);
        }
    }
}

/// The sign of what has too many digits.
proof fn lemma_coarser_sign(num: nat, den: nat, exponent: int)
    requires
        den > 0,
        coarser(false, num, den, exponent) <= INFINITY,
    ensures
        coarser(true, num, den, exponent) == SIGN + coarser(false, num, den, exponent),
    decreases
            (if exponent < -1074 {
                -1074 - exponent
            } else {
                0
            }) + (if num > den {
                num - den
            } else {
                0
            }),
{
    if num >= EXACT_LIMIT * den || exponent < -1074 {
        lemma_coarser_sign(num, 2 * den, exponent + 1);
    } else {
        lemma_settled_sign(num, den, exponent);
    }
}

/// The sign of what has too few digits.
proof fn lemma_finer_sign(num: nat, den: nat, exponent: int)
    requires
        den > 0,
        num < EXACT_LIMIT * den,
        exponent >= -1074,
    ensures
        finer(true, num, den, exponent) == SIGN + finer(false, num, den, exponent),
    decreases exponent + 1074,
{
    if num < FRACTION_UNIT * den && exponent > -1074 {
        lemma_finer_sign(2 * num, den, exponent - 1);
    } else {
        lemma_settled_sign(num, den, exponent);
    }
}

/// The sign of what has the digits of a mantissa.
proof fn lemma_settled_sign(num: nat, den: nat, exponent: int)
    requires
        den > 0,
        num < EXACT_LIMIT * den,
        exponent >= -1074,
    ensures
        settled(true, num, den, exponent) == SIGN + settled(false, num, den, exponent),
{
    assert(0 * den == 0);
    lemma_nearest_integer_between(num, den, 0, EXACT_LIMIT as nat);
}

/// The difference of two amounts: at most the first, or below zero, or none.
proof fn lemma_minus(a: Double, b: Double)
    requires
        is_amount(a),
        is_amount(b),
    ensures
        a.minus(b).bits <= a.bits || a.minus(b).bits >= SIGN || meaning(a.minus(b).bits)
            is NoNumber,
{
    lemma_amount(a);
    lemma_amount(b);
    lemma_negated(b);
    if a.bits < INFINITY && b.bits < INFINITY {
        let (m, e) = match meaning(a.bits) {
            Meaning::Finite { mantissa, exponent, .. } => (mantissa, exponent),
            _ => (0, 0),
        };
        let (n, f) = match meaning(b.bits) {
            Meaning::Finite { mantissa, exponent, .. } => (mantissa, exponent),
            _ => (0, 0),
        };
        let low = if e < f {
            e
        } else {
            f
        };
        let k = (low + 1074) as nat;
        let (p, q, r) = (pow2((e - low) as nat), pow2((f - low) as nat), pow2(k));
        let sum = m * p - n * q;
        if sum > 0 {
            lemma_pow2_adds((e - low) as nat, k);
            assert((m * p) * r == m * (p * r)) by (nonlinear_arith);
            lemma_rounded_moved(false, m * p, 1, low, k);
            lemma_rounded_units(a);
            assert(n * q >= 0) by (nonlinear_arith)
                requires
                    n >= 0,
                    q >= 0,
            ;
            lemma_rounded_ordered(sum as nat, m * p, 1, low);
        } else if sum < 0 {
            lemma_rounded_sign((-sum) as nat, 1, low);
        }
    }
}

/// The other sign of an amount.
pub proof fn lemma_negated(b: Double)
    requires
        is_amount(b),
    ensures
        b.negated().bits == b.bits + SIGN,
        meaning(b.bits) matches Meaning::Finite { mantissa, exponent, .. } ==> meaning(
            b.negated().bits,
        ) == (Meaning::Finite { negative: true, mantissa, exponent }),
        meaning(b.bits) is Infinite ==> meaning(b.negated().bits) == (Meaning::Infinite {
            negative: true,
        }),
{
    let top = b.bits / FRACTION_UNIT;
    let fraction = b.bits % FRACTION_UNIT;
    assert(b.bits == top * FRACTION_UNIT + fraction);
    assert(SIGN == 2048 * FRACTION_UNIT);
    let other = b.negated().bits;
    lemma_fundamental_div_mod_converse(
        other as int,
        FRACTION_UNIT as int,
        top + 2048,
        fraction as int,
    );
    assert(top <= 2047);
}

/// What is below zero stays so when an amount is taken off.
pub proof fn lemma_minus_below(a: Double, b: Double)
    requires
        a.bits >= SIGN,
        is_amount(b),
    ensures
        a.minus(b).bits >= SIGN || meaning(a.minus(b).bits) is NoNumber,
{
    lemma_amount(b);
    lemma_negated(b);
    match (meaning(a.bits), meaning(b.bits)) {
        (
            Meaning::Finite { mantissa: m, exponent: e, .. },
            Meaning::Finite { mantissa: n, exponent: f, .. },
        ) => {
            let low = if e < f {
                e
            } else {
                f
            };
            let (p, q) = (pow2((e - low) as nat), pow2((f - low) as nat));
            let sum = m * p + n * q;
            assert(m * p >= 0 && n * q >= 0) by (nonlinear_arith)
                requires
                    m >= 0,
                    n >= 0,
                    p >= 0,
                    q >= 0,
            ;
            lemma_rounded_sign(sum, 1, low);
        },
        _ => {},
    }
}

/// An overhead is never below zero, and never above the time that it is part
/// of.
pub proof fn law_overhead_within_call(time: Double, first: Double, second: Double)
    requires
        is_amount(time),
        is_amount(first),
        is_amount(second),
    ensures
        excess_of(time, first, second).bits <= time.bits,
{
    let rest = time.minus(first);
    lemma_minus(time, first);
    if meaning(rest.bits) is NoNumber {
    } else if rest.bits >= SIGN {
        lemma_minus_below(rest, second);
    } else {
        lemma_minus(rest, second);
    }
}

/// A time has no excess over itself and some other time.
pub proof fn lemma_nothing_left(time: Double, other: Double)
    requires
        is_amount(time),
        is_amount(other),
    ensures
        excess_of(time, time, other) == Double::of(0),
{
    let zero = Double::of(0);
    lemma_amount(time);
    lemma_negated(time);
    let rest = time.minus(time);
    if time.bits < INFINITY {
        assert(rest == zero);
        lemma_minus(zero, other);
    }
}

} // verus!
