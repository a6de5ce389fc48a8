//! The arithmetic of doubles, on their bit patterns: each result is the double
//! nearest to the exact one, and of two that are equally near the even one.

use vstd::arithmetic::div_mod::{lemma_fundamental_div_mod, lemma_fundamental_div_mod_converse};
use vstd::arithmetic::power2::{
    lemma2_to64, lemma2_to64_rest, lemma_pow2_adds, lemma_pow2_pos, lemma_pow2_strictly_increases,
    lemma_pow2_unfold, pow2,
};
use vstd::prelude::*;

use crate::double::{exponent_field, EXACT_LIMIT, FRACTION_UNIT};

verus! {

/// A double, by its bit pattern.
#[derive(Clone, Copy, Debug, PartialEq, Eq, Structural)]
pub struct Double {
    pub bits: u64,
}

/// The sign bit of a double.
pub const SIGN: u64 = 9_223_372_036_854_775_808;

/// The bit pattern of infinity.
pub const INFINITY: u64 = 9_218_868_437_227_405_312;

/// A bit pattern that is no number.
pub const NOT_A_NUMBER: u64 = 9_221_120_237_041_090_560;

/// What a double stands for; a finite one stands for `mantissa` times two to
/// the power `exponent`.
pub enum Meaning {
    NoNumber,
    Infinite { negative: bool },
    Finite { negative: bool, mantissa: nat, exponent: int },
}

/// What a bit pattern stands for.
pub open spec fn meaning(bits: u64) -> Meaning {
    let negative = bits >= SIGN;
    let field = exponent_field(bits);
    let fraction = bits % FRACTION_UNIT;
    if field == 2047 {
        if fraction == 0 {
            Meaning::Infinite { negative }
        } else {
            Meaning::NoNumber
        }
    } else if field == 0 {
        Meaning::Finite { negative, mantissa: fraction as nat, exponent: -1074 }
    } else {
        Meaning::Finite {
            negative,
            mantissa: (FRACTION_UNIT + fraction) as nat,
            exponent: field - 1075,
        }
    }
}

/// A bit pattern with a sign.
pub open spec fn signed(negative: bool, bits: int) -> u64 {
    if negative {
        (SIGN + bits) as u64
    } else {
        bits as u64
    }
}

/// The bit pattern of `mantissa` times two to the power `exponent`; what is too
/// great for a double is infinite.
pub open spec fn pattern(negative: bool, mantissa: nat, exponent: int) -> u64 {
    if exponent > 971 {
        signed(negative, INFINITY as int)
    } else if mantissa < FRACTION_UNIT {
        signed(negative, mantissa as int)
    } else {
        signed(negative, (exponent + 1075) * FRACTION_UNIT + (mantissa - FRACTION_UNIT))
    }
}

/// The integer nearest to `num` over `den`, and of two the even one.
pub open spec fn nearest_integer(num: nat, den: nat) -> nat {
    let below = num / den;
    let rest = num % den;
    if 2 * rest > den || (2 * rest == den && below % 2 == 1) {
        below + 1
    } else {
        below
    }
}

/// The double nearest to `num` over `den` times two to the power `exponent`,
/// where the quotient has as many digits as a mantissa.
pub open spec fn settled(negative: bool, num: nat, den: nat, exponent: int) -> u64 {
    let mantissa = nearest_integer(num, den);
    if mantissa == EXACT_LIMIT {
        pattern(negative, FRACTION_UNIT as nat, exponent + 1)
    } else {
        pattern(negative, mantissa, exponent)
    }
}

/// The double nearest to `num` over `den` times two to the power `exponent`,
/// where the quotient has too many digits or the exponent is too small.
pub open spec fn coarser(negative: bool, num: nat, den: nat, exponent: int) -> u64
    recommends
        den > 0,
    decreases
            (if exponent < -1074 {
                -1074 - exponent
            } else {
                0
            }) + (if num > den {
                num - den
            } else {
                0
            }),
{
    if den > 0 && (num >= EXACT_LIMIT * den || exponent < -1074) {
        coarser(negative, num, 2 * den, exponent + 1)
    } else {
        settled(negative, num, den, exponent)
    }
}

/// The double nearest to `num` over `den` times two to the power `exponent`,
/// where the quotient does not have too many digits.
pub open spec fn finer(negative: bool, num: nat, den: nat, exponent: int) -> u64
    decreases exponent + 1074,
{
    if num < FRACTION_UNIT * den && exponent > -1074 {
        finer(negative, 2 * num, den, exponent - 1)
    } else {
        settled(negative, num, den, exponent)
    }
}

/// The double nearest to `num` over `den` times two to the power `exponent`.
pub open spec fn rounded(negative: bool, num: nat, den: nat, exponent: int) -> u64 {
    if num == 0 {
        signed(negative, 0)
    } else if num >= EXACT_LIMIT * den || exponent < -1074 {
        coarser(negative, num, den, exponent)
    } else {
        finer(negative, num, den, exponent)
    }
}

/// An integer with a sign.
pub open spec fn with_sign(negative: bool, n: nat) -> int {
    if negative {
        -n
    } else {
        n as int
    }
}

/// The magnitude of an integer.
pub open spec fn magnitude(n: int) -> nat {
    if n < 0 {
        (-n) as nat
    } else {
        n as nat
    }
}

/// The lesser of two integers.
pub open spec fn lesser(a: int, b: int) -> int {
    if a < b {
        a
    } else {
        b
    }
}

impl Double {
    /// The double nearest to an integer.
    pub open spec fn of(n: int) -> Double {
        Double { bits: rounded(n < 0, magnitude(n), 1, 0) }
    }

    /// No number.
    pub open spec fn nan() -> Double {
        Double { bits: NOT_A_NUMBER }
    }

    /// The same with the other sign.
    pub open spec fn negated(self) -> Double {
        if self.bits >= SIGN {
            Double { bits: (self.bits - SIGN) as u64 }
        } else {
            Double { bits: (self.bits + SIGN) as u64 }
        }
    }

    /// The sum of two doubles.
    pub open spec fn plus(self, other: Double) -> Double {
        match (meaning(self.bits), meaning(other.bits)) {
            (Meaning::NoNumber, _) => Double::nan(),
            (_, Meaning::NoNumber) => Double::nan(),
            (Meaning::Infinite { negative: s }, Meaning::Infinite { negative: t }) => if s == t {
                self
            } else {
                Double::nan()
            },
            (Meaning::Infinite { .. }, _) => self,
            (_, Meaning::Infinite { .. }) => other,
            (
                Meaning::Finite { negative: s, mantissa: m, exponent: e },
                Meaning::Finite { negative: t, mantissa: n, exponent: f },
            ) => {
                let low = lesser(e, f);
                let sum = with_sign(s, m * pow2((e - low) as nat)) + with_sign(
                    t,
                    n * pow2((f - low) as nat),
                );
                if sum == 0 {
                    Double { bits: signed(s && t, 0) }
                } else {
                    Double { bits: rounded(sum < 0, magnitude(sum), 1, low) }
                }
            },
        }
    }

    /// The difference of two doubles.
    pub open spec fn minus(self, other: Double) -> Double {
        self.plus(other.negated())
    }

    /// The product of two doubles.
    pub open spec fn times(self, other: Double) -> Double {
        match (meaning(self.bits), meaning(other.bits)) {
            (Meaning::NoNumber, _) => Double::nan(),
            (_, Meaning::NoNumber) => Double::nan(),
            (Meaning::Infinite { negative: s }, Meaning::Infinite { negative: t }) => Double {
                bits: signed(s != t, INFINITY as int),
            },
            (
                Meaning::Infinite { negative: s },
                Meaning::Finite { negative: t, mantissa: n, .. },
            ) => if n == 0 {
                Double::nan()
            } else {
                Double { bits: signed(s != t, INFINITY as int) }
            },
            (
                Meaning::Finite { negative: s, mantissa: m, .. },
                Meaning::Infinite { negative: t },
            ) => if m == 0 {
                Double::nan()
            } else {
                Double { bits: signed(s != t, INFINITY as int) }
            },
            (
                Meaning::Finite { negative: s, mantissa: m, exponent: e },
                Meaning::Finite { negative: t, mantissa: n, exponent: f },
            ) => Double { bits: rounded(s != t, m * n, 1, e + f) },
        }
    }

    /// The quotient of two doubles.
    pub open spec fn over(self, other: Double) -> Double {
        match (meaning(self.bits), meaning(other.bits)) {
            (Meaning::NoNumber, _) => Double::nan(),
            (_, Meaning::NoNumber) => Double::nan(),
            (Meaning::Infinite { .. }, Meaning::Infinite { .. }) => Double::nan(),
            (Meaning::Infinite { negative: s }, Meaning::Finite { negative: t, .. }) => Double {
                bits: signed(s != t, INFINITY as int),
            },
            (Meaning::Finite { negative: s, .. }, Meaning::Infinite { negative: t }) => Double {
                bits: signed(s != t, 0),
            },
            (
                Meaning::Finite { negative: s, mantissa: m, exponent: e },
                Meaning::Finite { negative: t, mantissa: n, exponent: f },
            ) => if n > 0 {
                Double { bits: rounded(s != t, m, n, e - f) }
            } else if m > 0 {
                Double { bits: signed(s != t, INFINITY as int) }
            } else {
                Double::nan()
            },
        }
    }

    /// Where the double stands among the numbers: a greater one has a greater
    /// place.
    pub open spec fn place(self) -> int {
        if self.bits >= SIGN {
            SIGN - self.bits
        } else {
            self.bits as int
        }
    }

    /// The greater of two doubles; what is no number does not count.
    pub open spec fn greater(self, other: Double) -> Double {
        if meaning(self.bits) is NoNumber {
            other
        } else if meaning(other.bits) is NoNumber || self.place() > other.place() {
            self
        } else {
            other
        }
    }
}

/// A quotient reaches `k` where `k` times the divisor fits.
proof fn lemma_quotient(num: nat, den: nat, k: nat)
    requires
        den > 0,
    ensures
        num / den >= k <==> num >= k * den,
{
    lemma_fundamental_div_mod(num as int, den as int);
    let q = num / den;
    if q >= k {
        assert(num >= k * den) by (nonlinear_arith)
            requires
                num == den * q + num % den,
                num % den >= 0,
                q >= k,
        ;
    } else {
        let rest = num % den;
        assert(num < k * den) by (nonlinear_arith)
            requires
                num == den * q + rest,
                rest < den,
                q + 1 <= k,
        ;
    }
}

/// What is less than half of the least double vanishes.
proof fn lemma_vanishes(negative: bool, num: nat, den: nat, exponent: int)
    requires
        2 * num < den,
        exponent <= -1074,
    ensures
        coarser(negative, num, den, exponent) == signed(negative, 0),
    decreases -1074 - exponent,
{
    if exponent < -1074 {
        lemma_vanishes(negative, num, 2 * den, exponent + 1);
    } else {
        lemma_fundamental_div_mod_converse(num as int, den as int, 0, num as int);
        assert(num < EXACT_LIMIT * den);
        assert(nearest_integer(num, den) == 0);
    }
}

/// The bit pattern of `mantissa` times two to the power `exponent`.
fn build(negative: bool, mantissa: u64, exponent: i128) -> (bits: u64)
    requires
        mantissa < EXACT_LIMIT,
        exponent >= -1074,
    ensures
        bits == pattern(negative, mantissa as nat, exponent as int),
{
    let unsigned: u64 = if exponent > 971 {
        INFINITY
    } else if mantissa < FRACTION_UNIT {
        mantissa
    } else {
        (exponent + 1075) as u64 * FRACTION_UNIT + (mantissa - FRACTION_UNIT)
    };
    if negative {
        SIGN + unsigned
    } else {
        unsigned
    }
}

/// The double nearest to a quotient that has as many digits as a mantissa.
fn settle(negative: bool, num: u128, den: u128, exponent: i128) -> (bits: u64)
    requires
        0 < den,
        den <= u128::MAX / 2,
        num < EXACT_LIMIT * den,
        -1074 <= exponent < i128::MAX,
    ensures
        bits == settled(negative, num as nat, den as nat, exponent as int),
{
    let below: u128 = num / den;
    let rest: u128 = num % den;
    proof {
        lemma_quotient(num as nat, den as nat, EXACT_LIMIT as nat);
    }
    let mantissa: u128 = if 2 * rest > den || (2 * rest == den && below % 2 == 1) {
        below + 1
    } else {
        below
    };
    if mantissa == EXACT_LIMIT {
        build(negative, FRACTION_UNIT, exponent + 1)
    } else {
        build(negative, mantissa as u64, exponent)
    }
}

/// The double nearest to `num` over `den` times two to the power `exponent`.
fn round(negative: bool, num: u128, den: u128, exponent: i64) -> (bits: u64)
    requires
        num < 42_535_295_865_117_307_932_921_825_928_971_026_432,
        0 < den < EXACT_LIMIT,
    ensures
        bits == rounded(negative, num as nat, den as nat, exponent as int),
{
    if num == 0 {
        return if negative {
            SIGN
        } else {
            0
        };
    }
    let mut n: u128 = num;
    let mut d: u128 = den;
    let mut e: i128 = exponent as i128;
    proof {
        lemma_quotient(num as nat, den as nat, EXACT_LIMIT as nat);
    }
    if num / den >= EXACT_LIMIT || exponent < -1074 {
        while (num / d >= EXACT_LIMIT || e < -1074) && d <= 2 * num
            invariant
                0 < num < 42_535_295_865_117_307_932_921_825_928_971_026_432,
                0 < den < EXACT_LIMIT,
                den <= d,
                d <= 4 * num || d < EXACT_LIMIT,
                exponent <= e,
                2 * (e - exponent) <= d,
                coarser(negative, num as nat, d as nat, e as int) == coarser(
                    negative,
                    num as nat,
                    den as nat,
                    exponent as int,
                ),
            decreases 4 * num + EXACT_LIMIT - d,
        {
            proof {
                lemma_quotient(num as nat, d as nat, EXACT_LIMIT as nat);
            }
            d = 2 * d;
            e = e + 1;
        }
        proof {
            lemma_quotient(num as nat, d as nat, EXACT_LIMIT as nat);
        }
        if e < -1074 {
            proof {
                lemma_vanishes(negative, num as nat, d as nat, e as int);
            }
            return if negative {
                SIGN
            } else {
                0
            };
        }
        proof {
            if d > 2 * num {
                assert(num < EXACT_LIMIT * d);
            }
        }
        return settle(negative, num, d, e);
    }
    while n / den < FRACTION_UNIT as u128 && e > -1074
        invariant
            0 < den < EXACT_LIMIT,
            n < EXACT_LIMIT * den,
            -1074 <= e <= exponent,
            finer(negative, n as nat, den as nat, e as int) == finer(
                negative,
                num as nat,
                den as nat,
                exponent as int,
            ),
        decreases e + 1074,
    {
        proof {
            lemma_quotient(n as nat, den as nat, FRACTION_UNIT as nat);
        }
        n = 2 * n;
        e = e - 1;
    }
    proof {
        lemma_quotient(n as nat, den as nat, FRACTION_UNIT as nat);
    }
    settle(negative, n, den, e)
}

/// What a double stands for.
enum Decoded {
    NoNumber,
    Infinite(bool),
    Finite(bool, u64, i64),
}

impl Decoded {
    /// What is meant.
    spec fn view(self) -> Meaning {
        match self {
            Decoded::NoNumber => Meaning::NoNumber,
            Decoded::Infinite(negative) => Meaning::Infinite { negative },
            Decoded::Finite(negative, mantissa, exponent) => Meaning::Finite {
                negative,
                mantissa: mantissa as nat,
                exponent: exponent as int,
            },
        }
    }
}

/// Takes a bit pattern apart.
fn decode(bits: u64) -> (decoded: Decoded)
    ensures
        decoded@ == meaning(bits),
        decoded matches Decoded::Finite(_, mantissa, exponent) ==> {
            &&& mantissa < EXACT_LIMIT
            &&& -1074 <= exponent <= 971
            &&& mantissa < FRACTION_UNIT ==> exponent == -1074
        },
{
    let negative = bits >= SIGN;
    let field: u64 = (bits / FRACTION_UNIT) % 2048;
    let fraction: u64 = bits % FRACTION_UNIT;
    if field == 2047 {
        if fraction == 0 {
            Decoded::Infinite(negative)
        } else {
            Decoded::NoNumber
        }
    } else if field == 0 {
        Decoded::Finite(negative, fraction, -1074)
    } else {
        Decoded::Finite(negative, FRACTION_UNIT + fraction, field as i64 - 1075)
    }
}

/// Infinity, with a sign.
fn infinite(negative: bool) -> (d: Double)
    ensures
        d.bits == signed(negative, INFINITY as int),
{
    Double {
        bits: if negative {
            SIGN + INFINITY
        } else {
            INFINITY
        },
    }
}

/// Zero, with a sign.
fn zero(negative: bool) -> (d: Double)
    ensures
        d.bits == signed(negative, 0),
{
    Double {
        bits: if negative {
            SIGN
        } else {
            0
        },
    }
}

impl Double {
    /// The double nearest to an integer.
    pub fn from_u128(n: u128) -> (d: Double)
        requires
            n < 42_535_295_865_117_307_932_921_825_928_971_026_432,
        ensures
            d == Double::of(n as int),
    {
        Double { bits: round(false, n, 1, 0) }
    }

    /// The double nearest to an integer.
    pub fn from_i64(n: i64) -> (d: Double)
        ensures
            d == Double::of(n as int),
    {
        if n < 0 {
            Double { bits: round(true, (-(n as i128)) as u128, 1, 0) }
        } else {
            Double { bits: round(false, n as u128, 1, 0) }
        }
    }

    /// The product of two doubles.
    pub fn multiply(&self, other: &Double) -> (product: Double)
        ensures
            product == self.times(*other),
    {
        match (decode(self.bits), decode(other.bits)) {
            (Decoded::NoNumber, _) => Double { bits: NOT_A_NUMBER },
            (_, Decoded::NoNumber) => Double { bits: NOT_A_NUMBER },
            (Decoded::Infinite(s), Decoded::Infinite(t)) => infinite(s != t),
            (Decoded::Infinite(s), Decoded::Finite(t, n, _)) => if n == 0 {
                Double { bits: NOT_A_NUMBER }
            } else {
                infinite(s != t)
            },
            (Decoded::Finite(s, m, _), Decoded::Infinite(t)) => if m == 0 {
                Double { bits: NOT_A_NUMBER }
            } else {
                infinite(s != t)
            },
            (Decoded::Finite(s, m, e), Decoded::Finite(t, n, f)) => {
                assert(m * n <= EXACT_LIMIT * EXACT_LIMIT) by (nonlinear_arith)
                    requires
                        m <= EXACT_LIMIT,
                        n <= EXACT_LIMIT,
                ;
                Double { bits: round(s != t, m as u128 * n as u128, 1, e + f) }
            },
        }
    }

    /// The quotient of two doubles.
    pub fn divide(&self, other: &Double) -> (quotient: Double)
        ensures
            quotient == self.over(*other),
    {
        match (decode(self.bits), decode(other.bits)) {
            (Decoded::NoNumber, _) => Double { bits: NOT_A_NUMBER },
            (_, Decoded::NoNumber) => Double { bits: NOT_A_NUMBER },
            (Decoded::Infinite(_), Decoded::Infinite(_)) => Double { bits: NOT_A_NUMBER },
            (Decoded::Infinite(s), Decoded::Finite(t, _, _)) => infinite(s != t),
            (Decoded::Finite(s, _, _), Decoded::Infinite(t)) => zero(s != t),
            (Decoded::Finite(s, m, e), Decoded::Finite(t, n, f)) => {
                if n > 0 {
                    Double { bits: round(s != t, m as u128, n as u128, e - f) }
                } else if m > 0 {
                    infinite(s != t)
                } else {
                    Double { bits: NOT_A_NUMBER }
                }
            },
        }
    }

    /// The same with the other sign.
    pub fn negate(&self) -> (d: Double)
        ensures
            d == self.negated(),
    {
        if self.bits >= SIGN {
            Double { bits: self.bits - SIGN }
        } else {
            Double { bits: self.bits + SIGN }
        }
    }

    /// The greater of two doubles; what is no number does not count.
    pub fn max(&self, other: &Double) -> (d: Double)
        ensures
            d == self.greater(*other),
    {
        if matches!(decode(self.bits), Decoded::NoNumber) {
            return *other;
        }
        if matches!(decode(other.bits), Decoded::NoNumber) {
            return *self;
        }
        let above = if self.bits >= SIGN {
            other.bits >= SIGN && self.bits < other.bits
        } else {
            (other.bits >= SIGN && (self.bits > 0 || other.bits > SIGN)) || (other.bits < SIGN
                && self.bits > other.bits)
        };
        if above {
            *self
        } else {
            *other
        }
    }
}

/// A number with too many digits is taken in units of a greater power of two.
proof fn lemma_coarser_reaches(negative: bool, num: nat, k: nat, exponent: int)
    requires
        k > 0 ==> num >= EXACT_LIMIT * pow2((k - 1) as nat),
    ensures
        coarser(negative, num, 1, exponent) == coarser(negative, num, pow2(k), exponent + k),
    decreases k,
{
    lemma2_to64();
    if k > 0 {
        let j = (k - 1) as nat;
        lemma_pow2_unfold(k);
        lemma_pow2_pos(j);
        if j > 0 {
            lemma_pow2_unfold(j);
        }
        lemma_coarser_reaches(negative, num, j, exponent);
    }
}

/// What is much smaller is lost in a sum.
proof fn lemma_absorbs(negative: bool, m: nat, n: nat, d: nat, exponent: int)
    requires
        FRACTION_UNIT <= m < EXACT_LIMIT,
        n < EXACT_LIMIT,
        d >= 71,
        exponent >= -1074,
    ensures
        m * pow2(d) > n,
        rounded(negative, m * pow2(d) + n, 1, exponent) == pattern(negative, m, exponent + d),
        rounded(negative, (m * pow2(d) - n) as nat, 1, exponent) == pattern(
            negative,
            m,
            exponent + d,
        ),
{
    let p = pow2(d);
    let h = pow2((d - 1) as nat);
    let q = pow2((d - 2) as nat);
    lemma_pow2_unfold(d);
    lemma_pow2_unfold((d - 1) as nat);
    lemma2_to64();
    lemma_pow2_adds(64, 5);
    if d > 71 {
        lemma_pow2_strictly_increases(69, (d - 2) as nat);
    }
    assert(q >= 32 * 0x10000000000000000);
    assert(n < q);
    assert(m * p >= FRACTION_UNIT * p) by (nonlinear_arith)
        requires
            m >= FRACTION_UNIT,
    ;
    let more: nat = m * p + n;
    lemma_coarser_reaches(negative, more, d, exponent);
    assert(more < EXACT_LIMIT * p) by (nonlinear_arith)
        requires
            more == m * p + n,
            n < p,
            m + 1 <= EXACT_LIMIT,
    ;
    assert(p * m == m * p) by (nonlinear_arith);
    lemma_fundamental_div_mod_converse(more as int, p as int, m as int, n as int);
    assert(nearest_integer(more, p) == m);
    let less: nat = (m * p - n) as nat;
    if n == 0 {
        assert(less == more);
    } else if m > FRACTION_UNIT {
        assert(m * p >= (FRACTION_UNIT + 1) * p) by (nonlinear_arith)
            requires
                m >= FRACTION_UNIT + 1,
        ;
        lemma_coarser_reaches(negative, less, d, exponent);
        assert(less < EXACT_LIMIT * p) by (nonlinear_arith)
            requires
                less <= m * p,
                m < EXACT_LIMIT,
                p > 0,
        ;
        assert(p * (m - 1) == m * p - p) by (nonlinear_arith);
        lemma_fundamental_div_mod_converse(less as int, p as int, m - 1, p - n);
        assert(nearest_integer(less, p) == m);
    } else {
        assert(m * p == EXACT_LIMIT * h) by (nonlinear_arith)
            requires
                m == FRACTION_UNIT,
                p == 2 * h,
                EXACT_LIMIT == 2 * FRACTION_UNIT,
        ;
        assert(EXACT_LIMIT * h == 2 * (EXACT_LIMIT * q)) by (nonlinear_arith)
            requires
                h == 2 * q,
        ;
        lemma_coarser_reaches(negative, less, (d - 1) as nat, exponent);
        assert(h * (EXACT_LIMIT - 1) == EXACT_LIMIT * h - h) by (nonlinear_arith);
        lemma_fundamental_div_mod_converse(less as int, h as int, EXACT_LIMIT - 1, h - n);
        assert(nearest_integer(less, h) == EXACT_LIMIT);
    }
}

/// Two to the power `d`.
fn power(d: i64) -> (p: u128)
    requires
        0 <= d <= 70,
    ensures
        p == pow2(d as nat),
        p <= 1_180_591_620_717_411_303_424,
{
    let mut p: u128 = 1;
    let mut i: i64 = 0;
    proof {
        lemma2_to64();
        lemma_pow2_adds(64, 6);
    }
    while i < d
        invariant
            0 <= i <= d <= 70,
            p == pow2(i as nat),
            pow2(70) == 1_180_591_620_717_411_303_424,
            p <= 1_180_591_620_717_411_303_424,
        decreases d - i,
    {
        proof {
            lemma_pow2_unfold((i + 1) as nat);
            if i + 1 < 70 {
                lemma_pow2_strictly_increases((i + 1) as nat, 70);
            }
        }
        p = 2 * p;
        i = i + 1;
    }
    p
}

/// The bit pattern of a sum in units of two to the power `exponent`.
spec fn sum_pattern(s: bool, t: bool, sum: int, exponent: int) -> u64 {
    if sum == 0 {
        signed(s && t, 0)
    } else {
        rounded(sum < 0, magnitude(sum), 1, exponent)
    }
}

/// The sum of two finite doubles, the first with the greater exponent.
fn add_finite(s: bool, m: u64, e: i64, t: bool, n: u64, f: i64) -> (bits: u64)
    requires
        m < EXACT_LIMIT,
        n < EXACT_LIMIT,
        -1074 <= f <= e <= 971,
        m < FRACTION_UNIT ==> e == -1074,
    ensures
        bits == sum_pattern(
            s,
            t,
            with_sign(s, m as nat * pow2((e - f) as nat)) + with_sign(t, n as nat),
            f as int,
        ),
{
    let d: i64 = e - f;
    if d > 70 {
        proof {
            lemma_absorbs(s, m as nat, n as nat, d as nat, f as int);
        }
        return build(s, m, e as i128);
    }
    let p: u128 = power(d);
    assert(m * p <= EXACT_LIMIT * 1_180_591_620_717_411_303_424) by (nonlinear_arith)
        requires
            m <= EXACT_LIMIT,
            p <= 1_180_591_620_717_411_303_424,
    ;
    let x: u128 = m as u128 * p;
    let y: u128 = n as u128;
    if s == t {
        if x + y == 0 {
            if s {
                SIGN
            } else {
                0
            }
        } else {
            round(s, x + y, 1, f)
        }
    } else if x > y {
        round(s, x - y, 1, f)
    } else if y > x {
        round(t, y - x, 1, f)
    } else {
        0
    }
}

impl Double {
    /// The sum of two doubles.
    pub fn add(&self, other: &Double) -> (sum: Double)
        ensures
            sum == self.plus(*other),
    {
        match (decode(self.bits), decode(other.bits)) {
            (Decoded::NoNumber, _) => Double { bits: NOT_A_NUMBER },
            (_, Decoded::NoNumber) => Double { bits: NOT_A_NUMBER },
            (Decoded::Infinite(s), Decoded::Infinite(t)) => if s == t {
                *self
            } else {
                Double { bits: NOT_A_NUMBER }
            },
            (Decoded::Infinite(_), _) => *self,
            (_, Decoded::Infinite(_)) => *other,
            (Decoded::Finite(s, m, e), Decoded::Finite(t, n, f)) => {
                proof {
                    lemma2_to64();
                }
                if e >= f {
                    assert(n as nat * pow2(0) == n as nat);
                    Double { bits: add_finite(s, m, e, t, n, f) }
                } else {
                    assert(m as nat * pow2(0) == m as nat);
                    Double { bits: add_finite(t, n, f, s, m, e) }
                }
            },
        }
    }

    /// The difference of two doubles.
    pub fn subtract(&self, other: &Double) -> (difference: Double)
        ensures
            difference == self.minus(*other),
    {
        self.add(&other.negate())
    }
}

impl Double {
    /// The nearest whole number; of two, the one farther from zero.
    pub open spec fn whole(self) -> Double {
        match meaning(self.bits) {
            Meaning::Finite { negative, mantissa, exponent } => if exponent >= 0 {
                self
            } else {
                let unit = pow2((-exponent) as nat);
                Double { bits: rounded(negative, (2 * mantissa + unit) / (2 * unit), 1, 0) }
            },
            _ => self,
        }
    }

    /// Without the sign.
    pub open spec fn unsigned(self) -> Double {
        if self.bits >= SIGN {
            Double { bits: (self.bits - SIGN) as u64 }
        } else {
            self
        }
    }

    /// No more than another double; what is no number is neither more nor less.
    pub open spec fn at_most(self, other: Double) -> bool {
        &&& !(meaning(self.bits) is NoNumber)
        &&& !(meaning(other.bits) is NoNumber)
        &&& self.place() <= other.place()
    }

    /// The nearest whole number; of two, the one farther from zero.
    pub fn round(&self) -> (d: Double)
        ensures
            d == self.whole(),
    {
        match decode(self.bits) {
            Decoded::Finite(negative, mantissa, exponent) => {
                if exponent >= 0 {
                    return *self;
                }
                let d: i64 = -exponent;
                if d > 60 {
                    proof {
                        let unit = pow2(d as nat);
                        lemma2_to64();
                        lemma2_to64_rest();
                        lemma_pow2_strictly_increases(60, d as nat);
                        lemma_fundamental_div_mod_converse(
                            2 * mantissa + unit,
                            2 * unit as int,
                            0,
                            2 * mantissa + unit,
                        );
                    }
                    return zero(negative);
                }
                let unit = power(d);
                proof {
                    lemma_pow2_pos(d as nat);
                    let num = (2 * mantissa + unit) as nat;
                    let den = (2 * unit) as nat;
                    lemma_fundamental_div_mod(num as int, den as int);
                    lemma_quotient(num, den, 0x100_0000_0000_0000_0000_0000);
                    assert(num < 0x100_0000_0000_0000_0000_0000 * den) by (nonlinear_arith)
                        requires
                            num < 0x100_0000_0000_0000_0000_0000,
                            den >= 1,
                    ;
                }
                let count: u128 = (2 * mantissa as u128 + unit) / (2 * unit);
                Double { bits: round(negative, count, 1, 0) }
            },
            _ => *self,
        }
    }

    /// Without the sign.
    pub fn abs(&self) -> (d: Double)
        ensures
            d == self.unsigned(),
    {
        if self.bits >= SIGN {
            Double { bits: self.bits - SIGN }
        } else {
            *self
        }
    }

    /// Whether the double is no more than another.
    pub fn is_at_most(&self, other: &Double) -> (yes: bool)
        ensures
            yes == self.at_most(*other),
    {
        if matches!(decode(self.bits), Decoded::NoNumber) || matches!(
            decode(other.bits),
            Decoded::NoNumber
        ) {
            return false;
        }
        if self.bits >= SIGN {
            other.bits < SIGN || self.bits >= other.bits
        } else {
            (other.bits < SIGN && self.bits <= other.bits) || (self.bits == 0 && other.bits == SIGN)
        }
    }
}

} // verus!
