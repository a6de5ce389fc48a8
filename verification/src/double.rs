//! Doubles as integers: what a product of a double and a count rounds to.

use vstd::arithmetic::div_mod::{
    lemma_div_denominator, lemma_div_is_ordered, lemma_fundamental_div_mod,
    lemma_fundamental_div_mod_converse,
};
use vstd::arithmetic::power2::{
    lemma2_to64, lemma_pow2_pos, lemma_pow2_strictly_increases, lemma_pow2_unfold, pow2,
};
use vstd::prelude::*;

verus! {

/// Two to the 52nd: the fraction of a double counts in parts of it.
pub const FRACTION_UNIT: u64 = 4_503_599_627_370_496;

/// Two to the 53rd: each integer below it is a double.
pub const EXACT_LIMIT: u128 = 9_007_199_254_740_992;

/// How far apart the doubles around `x` are: the least power of two of which
/// `x` holds fewer than `EXACT_LIMIT`.
pub open spec fn grain(x: nat) -> nat
    decreases x,
{
    if x < EXACT_LIMIT {
        1
    } else {
        2 * grain(x / 2)
    }
}

/// The double nearest to `x`; of two that are equally near, the one that is an
/// even multiple of their distance.
pub open spec fn nearest_double(x: nat) -> nat {
    let g = grain(x);
    let below = x / g;
    let rest = x % g;
    if 2 * rest < g || (2 * rest == g && below % 2 == 0) {
        below * g
    } else {
        (below + 1) * g
    }
}

/// The quotient of `x` and `d`, rounded up.
pub open spec fn ceiling(x: nat, d: nat) -> nat {
    if x % d == 0 {
        x / d
    } else {
        x / d + 1
    }
}

/// A double between zero and one: `mantissa` over two to the power `scale`.
#[derive(Clone, Copy, Debug, PartialEq, Eq, Structural)]
pub struct Share {
    pub mantissa: u64,
    pub scale: u32,
}

/// The exponent field of a double, from its bit pattern.
pub open spec fn exponent_field(bits: u64) -> u64 {
    (bits / FRACTION_UNIT) % 2048
}

/// The double with this bit pattern, held between zero and one. What is no
/// number counts as zero.
pub open spec fn share_of(bits: u64) -> Share {
    let exponent = exponent_field(bits);
    let fraction = bits % FRACTION_UNIT;
    if bits / FRACTION_UNIT >= 2048 || (exponent == 2047 && fraction > 0) {
        Share { mantissa: 0, scale: 0 }
    } else if exponent >= 1023 {
        Share { mantissa: 1, scale: 0 }
    } else if exponent == 0 {
        Share { mantissa: fraction, scale: 1074 }
    } else {
        Share { mantissa: (FRACTION_UNIT + fraction) as u64, scale: (1075 - exponent) as u32 }
    }
}

/// The share of `n` that a double is, as doubles multiply, rounded up.
pub open spec fn share_count(n: nat, share: Share) -> nat {
    ceiling(nearest_double(share.mantissa as nat * nearest_double(n)), pow2(share.scale as nat))
}

/// The bounds of `grain`.
pub proof fn lemma_grain(x: nat)
    ensures
        grain(x) >= 1,
        x < grain(x) * EXACT_LIMIT,
        x >= EXACT_LIMIT ==> grain(x) * FRACTION_UNIT <= x,
        grain(x) == 1 || grain(x) * FRACTION_UNIT <= x,
        x > 0 ==> grain(x) <= x,
    decreases x,
{
    if x >= EXACT_LIMIT {
        lemma_grain(x / 2);
        let h = grain(x / 2);
        assert(x < 2 * h * EXACT_LIMIT) by (nonlinear_arith)
            requires
                x / 2 < h * EXACT_LIMIT,
        ;
        assert((2 * h) * FRACTION_UNIT <= x) by (nonlinear_arith)
            requires
                h == 1 || h * FRACTION_UNIT <= x / 2,
                x >= EXACT_LIMIT,
                EXACT_LIMIT == 9_007_199_254_740_992,
                FRACTION_UNIT == 4_503_599_627_370_496,
        ;
    }
}

/// The grain of a number below a bound.
pub proof fn lemma_grain_below(x: nat, e: nat)
    requires
        x < EXACT_LIMIT * pow2(e),
    ensures
        grain(x) <= pow2(e),
    decreases e,
{
    lemma_pow2_pos(e);
    if x >= EXACT_LIMIT {
        if e == 0 {
            lemma2_to64();
        } else {
            let p = pow2((e - 1) as nat);
            lemma_pow2_unfold(e);
            assert(x / 2 < EXACT_LIMIT * p) by (nonlinear_arith)
                requires
                    x < EXACT_LIMIT * (2 * p),
            ;
            lemma_grain_below(x / 2, (e - 1) as nat);
        }
    }
}

/// A rounded number lies within half a grain.
pub proof fn lemma_nearest(x: nat)
    ensures
        2 * nearest_double(x) <= 2 * x + grain(x),
        2 * x <= 2 * nearest_double(x) + grain(x),
        (x / grain(x)) * grain(x) <= nearest_double(x) <= (x / grain(x) + 1) * grain(x),
        nearest_double(x) <= 2 * x,
        x < EXACT_LIMIT ==> nearest_double(x) == x,
{
    let g = grain(x);
    lemma_grain(x);
    lemma_fundamental_div_mod(x as int, g as int);
    let below = x / g;
    let rest = x % g;
    assert(g * below == below * g) by (nonlinear_arith);
    assert((below + 1) * g == below * g + g) by (nonlinear_arith);
    if x == 0 {
        assert(below == 0 && rest == 0);
        assert(below * g == 0) by (nonlinear_arith)
            requires
                below == 0,
        ;
    }
}

/// The grain of a greater number is the same, or twice as great at least.
proof fn lemma_grain_steps(x: nat, y: nat)
    requires
        x <= y,
    ensures
        grain(x) == grain(y) || 2 * grain(x) <= grain(y),
    decreases y,
{
    if x < EXACT_LIMIT {
        if y >= EXACT_LIMIT {
            lemma_grain(y / 2);
        }
    } else {
        lemma_grain_steps(x / 2, y / 2);
    }
}

/// Rounding keeps the order.
pub proof fn lemma_nearest_ordered(x: nat, y: nat)
    requires
        x <= y,
    ensures
        nearest_double(x) <= nearest_double(y),
{
    let g = grain(x);
    let h = grain(y);
    lemma_grain(x);
    lemma_grain(y);
    lemma_nearest(x);
    lemma_nearest(y);
    lemma_grain_steps(x, y);
    let p = x / g;
    let q = y / h;
    lemma_fundamental_div_mod(x as int, g as int);
    lemma_fundamental_div_mod(y as int, h as int);
    if g == h {
        lemma_div_is_ordered(x as int, y as int, g as int);
        if p < q {
            assert((p + 1) * g <= q * g) by (nonlinear_arith)
                requires
                    p + 1 <= q,
            ;
        } else {
            assert(x % g <= y % g);
            assert(p * g <= (p + 1) * g) by (nonlinear_arith);
        }
    } else {
        assert(p < EXACT_LIMIT) by (nonlinear_arith)
            requires
                x < g * EXACT_LIMIT,
                x == g * p + x % g,
                0 <= x % g,
                g >= 1,
        ;
        assert((p + 1) * g <= EXACT_LIMIT * g) by (nonlinear_arith)
            requires
                p + 1 <= EXACT_LIMIT,
        ;
        assert(q >= FRACTION_UNIT) by (nonlinear_arith)
            requires
                h * FRACTION_UNIT <= y,
                y == h * q + y % h,
                y % h < h,
                h >= 1,
        ;
        assert(q * h >= EXACT_LIMIT * g) by (nonlinear_arith)
            requires
                q >= FRACTION_UNIT,
                h >= 2 * g,
                EXACT_LIMIT == 2 * FRACTION_UNIT,
        ;
    }
}

/// Twice a number rounds to twice as much.
proof fn lemma_nearest_doubled(x: nat)
    ensures
        nearest_double(2 * x) == 2 * nearest_double(x),
{
    let y = 2 * x;
    lemma_nearest(x);
    lemma_nearest(y);
    if y >= EXACT_LIMIT {
        let g = grain(x);
        lemma_grain(x);
        assert(y / 2 == x);
        assert(grain(y) == 2 * g);
        lemma_fundamental_div_mod(x as int, g as int);
        let below = x / g;
        let rest = x % g;
        assert(y == (2 * g) * below + 2 * rest) by (nonlinear_arith)
            requires
                x == g * below + rest,
                y == 2 * x,
        ;
        lemma_fundamental_div_mod_converse(
            y as int,
            2 * g as int,
            below as int,
            2 * rest as int,
        );
        assert(below * (2 * g) == 2 * (below * g)) by (nonlinear_arith);
        assert((below + 1) * (2 * g) == 2 * ((below + 1) * g)) by (nonlinear_arith);
    }
}

/// A number times a power of two rounds to as many times as much.
pub proof fn lemma_nearest_scaled(x: nat, e: nat)
    ensures
        nearest_double(x * pow2(e)) == nearest_double(x) * pow2(e),
    decreases e,
{
    if e == 0 {
        lemma2_to64();
        assert(x * 1 == x && nearest_double(x) * 1 == nearest_double(x));
    } else {
        let f = (e - 1) as nat;
        lemma_pow2_unfold(e);
        lemma_nearest_scaled(x, f);
        lemma_nearest_doubled(x * pow2(f));
        let p = pow2(f);
        let r = nearest_double(x);
        assert(x * (2 * p) == 2 * (x * p)) by (nonlinear_arith);
        assert(r * (2 * p) == 2 * (r * p)) by (nonlinear_arith);
    }
}

/// What a quotient, rounded up, is bounded by.
pub proof fn lemma_ceiling(x: nat, d: nat)
    requires
        d > 0,
    ensures
        x <= ceiling(x, d) * d,
        ceiling(x, d) > 0 ==> (ceiling(x, d) - 1) * d < x,
{
    lemma_fundamental_div_mod(x as int, d as int);
    let q = x / d;
    assert(d * q == q * d) by (nonlinear_arith);
    assert((q + 1) * d == q * d + d) by (nonlinear_arith);
    assert((q - 1) * d == q * d - d) by (nonlinear_arith);
}

/// A quotient, rounded up, is at most any bound.
pub proof fn lemma_ceiling_least(x: nat, d: nat, c: nat)
    requires
        d > 0,
        x <= c * d,
    ensures
        ceiling(x, d) <= c,
{
    lemma_ceiling(x, d);
    let q = ceiling(x, d);
    if q > c {
        assert((q - 1) * d >= c * d) by (nonlinear_arith)
            requires
                q - 1 >= c,
                d > 0,
        ;
    }
}

/// One share is at most another.
pub open spec fn share_at_most(low: Share, high: Share) -> bool {
    low.mantissa * pow2(high.scale as nat) <= high.mantissa * pow2(low.scale as nat)
}

/// A greater share of `n` counts no less.
pub proof fn lemma_share_ordered(n: nat, low: Share, high: Share)
    requires
        share_at_most(low, high),
    ensures
        share_count(n, low) <= share_count(n, high),
{
    let count = nearest_double(n);
    let (a, b) = (low.mantissa as nat, high.mantissa as nat);
    let (d, e) = (pow2(low.scale as nat), pow2(high.scale as nat));
    lemma_pow2_pos(low.scale as nat);
    lemma_pow2_pos(high.scale as nat);
    let x = nearest_double(a * count);
    let y = nearest_double(b * count);
    assert((a * count) * e <= (b * count) * d) by (nonlinear_arith)
        requires
            a * e <= b * d,
            count >= 0,
    ;
    lemma_nearest_scaled(a * count, high.scale as nat);
    lemma_nearest_scaled(b * count, low.scale as nat);
    lemma_nearest_ordered((a * count) * e, (b * count) * d);
    let c = ceiling(y, e);
    lemma_ceiling(y, e);
    assert(x <= c * d) by (nonlinear_arith)
        requires
            x * e <= y * d,
            y <= c * e,
            e > 0,
            d > 0,
    ;
    lemma_ceiling_least(x, d, c);
}

/// The double nearest to `x`.
fn round_to_double(x: u128) -> (rounded: u128)
    requires
        x < u128::MAX / 4,
    ensures
        rounded == nearest_double(x as nat),
        rounded <= 2 * x,
{
    let mut g: u128 = 1;
    assert(1 * grain(x as nat) == grain(x as nat));
    while x / g >= EXACT_LIMIT
        invariant
            x < u128::MAX / 4,
            g >= 1,
            g <= x || g == 1,
            grain(x as nat) == g * grain((x / g) as nat),
        decreases x / g,
    {
        let ghost q = x / g;
        proof {
            lemma_div_denominator(x as int, g as int, 2);
            assert(x / (2 * g) as u128 == q / 2) by {
                assert(g * 2 == 2 * g);
            }
            let h = grain((q / 2) as nat);
            assert(g * (2 * h) == (2 * g) * h) by (nonlinear_arith);
            lemma_fundamental_div_mod(x as int, g as int);
            assert(2 * g <= x) by (nonlinear_arith)
                requires
                    x == g * q + x % g,
                    0 <= x % g,
                    q >= 2,
                    g >= 1,
            ;
        }
        g = 2 * g;
    }
    proof {
        assert(grain((x / g) as nat) == 1);
        assert(g * 1 == g);
        lemma_nearest(x as nat);
        let q = x / g;
        lemma_fundamental_div_mod(x as int, g as int);
        assert(q * g <= x && (q + 1) * g == q * g + g) by (nonlinear_arith)
            requires
                x == g * q + x % g,
                0 <= x % g,
        ;
    }
    let below: u128 = x / g;
    let rest: u128 = x % g;
    if 2 * rest < g || (2 * rest == g && below % 2 == 0) {
        below * g
    } else {
        (below + 1) * g
    }
}

/// The double with this bit pattern, held between zero and one.
pub fn share(bits: u64) -> (share: Share)
    ensures
        share == share_of(bits),
        share.mantissa < EXACT_LIMIT,
{
    let exponent: u64 = (bits / FRACTION_UNIT) % 2048;
    let fraction: u64 = bits % FRACTION_UNIT;
    if bits / FRACTION_UNIT >= 2048 || (exponent == 2047 && fraction > 0) {
        Share { mantissa: 0, scale: 0 }
    } else if exponent >= 1023 {
        Share { mantissa: 1, scale: 0 }
    } else if exponent == 0 {
        Share { mantissa: fraction, scale: 1074 }
    } else {
        Share { mantissa: FRACTION_UNIT + fraction, scale: (1075 - exponent) as u32 }
    }
}

/// `x` over two to the power `scale`, rounded up.
fn shift_up(x: u128, scale: u32) -> (count: u128)
    requires
        x < u128::MAX / 4,
    ensures
        count == ceiling(x as nat, pow2(scale as nat)),
{
    let mut d: u128 = 1;
    let mut e: u32 = 0;
    proof {
        lemma2_to64();
    }
    while e < scale && d <= x
        invariant
            x < u128::MAX / 4,
            e <= scale,
            d == pow2(e as nat),
            d >= 1,
            d <= 2 * x || d == 1,
        decreases scale - e,
    {
        proof {
            lemma_pow2_unfold((e + 1) as nat);
        }
        d = 2 * d;
        e = e + 1;
    }
    if e < scale {
        proof {
            lemma_pow2_strictly_increases(e as nat, scale as nat);
            lemma_fundamental_div_mod_converse(
                x as int,
                pow2(scale as nat) as int,
                0,
                x as int,
            );
        }
        if x == 0 {
            0
        } else {
            1
        }
    } else if x % d == 0 {
        x / d
    } else {
        x / d + 1
    }
}

/// The share of `n` that a double is, as doubles multiply, rounded up.
pub fn count_of_share(n: usize, share: Share) -> (count: u128)
    requires
        share.mantissa < EXACT_LIMIT,
    ensures
        count == share_count(n as nat, share),
{
    let size = round_to_double(n as u128);
    assert(share.mantissa * size <= EXACT_LIMIT * 36_893_488_147_419_103_230) by (nonlinear_arith)
        requires
            share.mantissa <= EXACT_LIMIT,
            size <= 36_893_488_147_419_103_230,
    ;
    let product = round_to_double(share.mantissa as u128 * size);
    shift_up(product, share.scale)
}

} // verus!
