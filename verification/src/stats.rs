//! Means and percentiles of nanosecond counts.

use vstd::arithmetic::power2::{
    lemma2_to64, lemma2_to64_rest, lemma_pow2_adds, lemma_pow2_pos, lemma_pow2_strictly_increases,
    pow2,
};
use vstd::prelude::*;
use vstd::relations::{sorted_by, total_ordering};

use crate::arith::{meaning, pattern, Double, Meaning, INFINITY, SIGN};
use crate::double::{
    ceiling, count_of_share, exponent_field, lemma_ceiling, lemma_ceiling_least, lemma_grain,
    lemma_grain_below, lemma_nearest, lemma_nearest_ordered, lemma_nearest_scaled,
    lemma_share_ordered, nearest_double, share, share_at_most, share_count, share_of, Share,
    EXACT_LIMIT, FRACTION_UNIT,
};
use crate::exact::{lemma_of_over_factor, lemma_parts_units, parts_of};
use crate::order::{lemma_amount, lemma_rounded_moved, lemma_rounded_units};

verus! {

/// Nanoseconds in a second.
pub const NANOS_PER_SEC: u128 = 1_000_000_000;

/// A count of nanoseconds, in seconds: the whole seconds and the rest are taken
/// apart and added.
pub open spec fn seconds_of(nanos: u128) -> Double {
    Double::of((nanos / NANOS_PER_SEC) as int).plus(
        Double::of((nanos % NANOS_PER_SEC) as int).over(Double::of(NANOS_PER_SEC as int)),
    )
}

/// A count of nanoseconds, in seconds.
pub fn seconds(nanos: u128) -> (secs: Double)
    ensures
        secs == seconds_of(nanos),
{
    let whole = Double::from_u128(nanos / NANOS_PER_SEC);
    let rest = Double::from_u128(nanos % NANOS_PER_SEC);
    whole.add(&rest.divide(&Double::from_u128(NANOS_PER_SEC)))
}

/// A thousand times a double.
pub open spec fn thousandfold(d: Double) -> Double {
    d.times(Double::of(1000))
}

/// A thousand times a double.
pub fn times_thousand(d: Double) -> (product: Double)
    ensures
        product == thousandfold(d),
{
    d.multiply(&Double::from_u128(1000))
}

/// From least to greatest.
pub open spec fn is_ascending(s: Seq<u128>) -> bool {
    forall|i: int, j: int| 0 <= i <= j < s.len() ==> #[trigger] s[i] <= #[trigger] s[j]
}

/// The samples of `s`, from least to greatest.
pub open spec fn ascending(s: Seq<u128>) -> Seq<u128> {
    s.sort_by(|x: u128, y: u128| x <= y)
}

/// Samples in ascending order are the ascending samples.
pub proof fn lemma_ascending(s: Seq<u128>, t: Seq<u128>)
    requires
        is_ascending(t),
        t.to_multiset() == s.to_multiset(),
    ensures
        t == ascending(s),
{
    let leq = |x: u128, y: u128| x <= y;
    assert(total_ordering(leq));
    s.lemma_sort_by_ensures(leq);
    assert(sorted_by(t, leq));
    vstd::seq_lib::lemma_sorted_unique(t, ascending(s), leq);
}

/// The ascending samples are those of `s`, in ascending order.
pub proof fn lemma_ascending_ensures(s: Seq<u128>)
    ensures
        is_ascending(ascending(s)),
        ascending(s).to_multiset() == s.to_multiset(),
        ascending(s).len() == s.len(),
{
    let leq = |x: u128, y: u128| x <= y;
    assert(total_ordering(leq));
    s.lemma_sort_by_ensures(leq);
    let t = ascending(s);
    assert forall|i: int, j: int| 0 <= i <= j < t.len() implies #[trigger] t[i] <= #[trigger] t[j] by {
        if i < j {
            assert(leq(t[i], t[j]));
        }
    }
    s.to_multiset_ensures();
    t.to_multiset_ensures();
}

/// Calls `sort_unstable` on a slice of integers: the same samples, from least
/// to greatest.
#[verifier::external_body]
fn sort_unstable(samples: &mut Vec<u128>)
    ensures
        is_ascending(final(samples)@),
        final(samples)@.to_multiset() == old(samples)@.to_multiset(),
{
    samples.sort_unstable();
}

/// Puts samples in ascending order.
pub fn sort_samples(samples: &mut Vec<u128>)
    ensures
        final(samples)@ == ascending(old(samples)@),
{
    sort_unstable(samples);
    proof {
        lemma_ascending(old(samples)@, samples@);
    }
}

/// The sum of some nanosecond counts in seconds, from first to last.
pub open spec fn seconds_sum(s: Seq<u128>) -> Double
    decreases s.len(),
{
    if s.len() == 0 {
        Double::of(0)
    } else {
        seconds_sum(s.drop_last()).plus(seconds_of(s.last()))
    }
}

/// The mean of some nanosecond counts in milliseconds, summed from first to
/// last: zero of none.
pub open spec fn mean_in_order(s: Seq<u128>) -> Double {
    if s.len() == 0 {
        Double::of(0)
    } else {
        thousandfold(seconds_sum(s).over(Double::of(s.len() as int)))
    }
}

/// The mean of some nanosecond counts in milliseconds, summed from least to
/// greatest.
pub open spec fn mean_ms_of(s: Seq<u128>) -> Double {
    mean_in_order(ascending(s))
}

/// The mean of some nanosecond counts in milliseconds, in their order.
pub fn mean_ms(samples: &Vec<u128>) -> (mean: Double)
    ensures
        mean == mean_in_order(samples@),
        is_ascending(samples@) ==> mean == mean_ms_of(samples@),
{
    proof {
        if is_ascending(samples@) {
            lemma_ascending(samples@, samples@);
        }
    }
    let mut sum = Double::from_u128(0);
    let mut i: usize = 0;
    while i < samples.len()
        invariant
            i <= samples@.len(),
            sum == seconds_sum(samples@.take(i as int)),
        decreases samples@.len() - i,
    {
        assert(samples@.take(i + 1).drop_last() =~= samples@.take(i as int));
        sum = sum.add(&seconds(samples[i]));
        i = i + 1;
    }
    assert(samples@.take(i as int) =~= samples@);
    if i == 0 {
        sum
    } else {
        times_thousand(sum.divide(&Double::from_u128(i as u128)))
    }
}

/// The double nearest to 0.95, by its bit pattern.
pub const P95: u64 = 4_606_732_058_837_280_358;

/// The double nearest to 0.99, by its bit pattern.
pub const P99: u64 = 4_607_092_346_807_469_998;

/// The rank of a percentile among `n` samples, counted from zero. The
/// percentile is a double, given by its bit pattern and held between zero and
/// one; so many samples stand at or below its rank as it makes of `n`, as
/// doubles multiply, rounded up, and one at least.
pub open spec fn nearest_rank(n: nat, percentile: u64) -> nat
    recommends
        n > 0,
{
    let count = share_count(n, share_of(percentile));
    if count <= 1 {
        0
    } else if count <= n {
        (count - 1) as nat
    } else {
        (n - 1) as nat
    }
}

/// The rank of a percentile among `n` samples.
pub fn rank(n: usize, percentile: u64) -> (at: usize)
    requires
        n > 0,
    ensures
        at == nearest_rank(n as nat, percentile),
        at < n,
{
    let count: u128 = count_of_share(n, share(percentile));
    if count <= 1 {
        0
    } else if count <= n as u128 {
        (count - 1) as usize
    } else {
        n - 1
    }
}

/// The sample at a percentile.
pub open spec fn percentile_sample(s: Seq<u128>, percentile: u64) -> u128
    recommends
        s.len() > 0,
{
    ascending(s)[nearest_rank(s.len(), percentile) as int]
}

/// A percentile of some nanosecond counts in milliseconds: zero of none.
pub open spec fn percentile_ms_of(s: Seq<u128>, percentile: u64) -> Double {
    if s.len() == 0 {
        Double::of(0)
    } else {
        thousandfold(seconds_of(percentile_sample(s, percentile)))
    }
}

/// The sample at a percentile's rank, in milliseconds. Of samples in ascending
/// order that is the percentile.
pub fn percentile_ms(durations: &Vec<u128>, percentile: u64) -> (value: Double)
    ensures
        durations@.len() == 0 ==> value == Double::of(0),
        durations@.len() > 0 ==> value == thousandfold(
            seconds_of(durations@[nearest_rank(durations@.len(), percentile) as int]),
        ),
        is_ascending(durations@) ==> value == percentile_ms_of(durations@, percentile),
{
    if durations.len() == 0 {
        return Double::from_u128(0);
    }
    let at = rank(durations.len(), percentile);
    proof {
        if is_ascending(durations@) {
            lemma_ascending(durations@, durations@);
        }
    }
    times_thousand(seconds(durations[at]))
}

/// How many samples are at most `v`.
pub open spec fn count_at_most(s: Seq<u128>, v: u128) -> nat
    decreases s.len(),
{
    if s.len() == 0 {
        0
    } else {
        count_at_most(s.drop_last(), v) + if s.last() <= v {
            1nat
        } else {
            0nat
        }
    }
}

/// How many samples are below `v`.
pub open spec fn count_below(s: Seq<u128>, v: u128) -> nat {
    if v == 0 {
        0
    } else {
        count_at_most(s, (v - 1) as u128)
    }
}

/// The count of samples that are at most `v`, one sample aside.
proof fn lemma_count_remove(s: Seq<u128>, j: int, v: u128)
    requires
        0 <= j < s.len(),
    ensures
        count_at_most(s, v) == count_at_most(s.remove(j), v) + if s[j] <= v {
            1nat
        } else {
            0nat
        },
    decreases s.len(),
{
    if j == s.len() - 1 {
        assert(s.remove(j) =~= s.drop_last());
    } else {
        lemma_count_remove(s.drop_last(), j, v);
        assert(s.remove(j).drop_last() =~= s.drop_last().remove(j));
        assert(s.remove(j).last() == s.last());
    }
}

/// The order of the samples does not count.
proof fn lemma_count_permutation(s: Seq<u128>, t: Seq<u128>, v: u128)
    requires
        s.to_multiset() == t.to_multiset(),
    ensures
        count_at_most(s, v) == count_at_most(t, v),
    decreases s.len(),
{
    if s.len() == 0 {
        s.to_multiset_ensures();
        t.to_multiset_ensures();
    } else {
        let j = lemma_permutation_step(s, t);
        lemma_count_permutation(s.drop_last(), t.remove(j), v);
        lemma_count_remove(t, j, v);
    }
}

/// Where the first `k` samples are at most `v` and no other is, `k` are.
proof fn lemma_count_of_split(s: Seq<u128>, k: int, v: u128)
    requires
        0 <= k <= s.len(),
        forall|i: int| k <= i < s.len() ==> #[trigger] s[i] > v,
    ensures
        count_at_most(s, v) <= k,
    decreases s.len(),
{
    if s.len() > 0 {
        if k == s.len() {
            lemma_count_of_split(s.drop_last(), k - 1, v);
        } else {
            lemma_count_of_split(s.drop_last(), k, v);
        }
    }
}

/// Where the first `k` samples are at most `v`, at least `k` are.
proof fn lemma_count_of_prefix(s: Seq<u128>, k: int, v: u128)
    requires
        0 <= k <= s.len(),
        forall|i: int| 0 <= i < k ==> #[trigger] s[i] <= v,
    ensures
        count_at_most(s, v) >= k,
    decreases s.len(),
{
    if s.len() > 0 {
        if k == s.len() {
            lemma_count_of_prefix(s.drop_last(), k - 1, v);
        } else {
            lemma_count_of_prefix(s.drop_last(), k, v);
        }
    }
}

/// A percentile, and the whole percent that it stands for.
pub open spec fn is_percent(percentile: u64, percent: nat) -> bool {
    (percentile == P95 && percent == 95) || (percentile == P99 && percent == 99)
}

/// Two to the 47th.
pub const RANK_LIMIT: u64 = 140_737_488_355_328;

/// So few samples that doubles tell the ranks of a percentile apart.
pub open spec fn tells_ranks_apart(n: nat, percentile: u64) -> bool {
    if percentile == P95 {
        n < 3 * RANK_LIMIT
    } else {
        99 * n < 100 * RANK_LIMIT
    }
}

/// Rounded as doubles are, the share of a percentile is still that of the
/// whole percent.
proof fn lemma_share_of_percent(n: nat, percentile: u64, percent: nat)
    requires
        n > 0,
        is_percent(percentile, percent),
        tells_ranks_apart(n, percentile),
    ensures
        share_count(n, share_of(percentile)) == (percent * n + 99) / 100,
{
    let unit: nat = 9_007_199_254_740_992;
    let share = share_of(percentile);
    let m = share.mantissa as nat;
    assert(share.scale == 53);
    assert(m == if percent == 95 {
        8_556_839_292_003_942nat
    } else {
        8_917_127_262_193_582
    });
    lemma2_to64();
    lemma2_to64_rest();
    assert(pow2(53) == unit);
    lemma_nearest(n);
    let c: nat = (percent * n + 99) / 100;
    let product = m * n;
    let rounded = nearest_double(product);
    assert(100 * product == percent * n * unit - (percent * unit - 100 * m) * n)
        by (nonlinear_arith)
        requires
            product == m * n,
    ;
    let lost: nat = if percent == 95 {
        40
    } else {
        8
    };
    assert((percent * unit - 100 * m) * n == lost * n);
    assert(product <= c * unit) by (nonlinear_arith)
        requires
            100 * product == percent * n * unit - lost * n,
            percent * n <= 100 * c,
            unit > 0,
    ;
    lemma_nearest(c);
    lemma_nearest_scaled(c, 53);
    lemma_nearest_ordered(product, c * unit);
    lemma_ceiling_least(rounded, unit, c);
    let count = ceiling(rounded, unit);
    lemma_ceiling(rounded, unit);
    let e: nat = if percent == 95 {
        49
    } else {
        47
    };
    assert(product < unit * pow2(e)) by (nonlinear_arith)
        requires
            100 * product == percent * n * unit - lost * n,
            percent * n < 100 * pow2(e),
            unit > 0,
    ;
    lemma_nearest(product);
    lemma_grain_below(product, e);
    let step: int = if percent == 95 {
        5
    } else {
        1
    };
    assert(percent * n >= 100 * (c - 1) + step);
    assert(100 * product >= (100 * (c - 1) + step) * unit - lost * n) by (nonlinear_arith)
        requires
            100 * product == percent * n * unit - lost * n,
            percent * n >= 100 * (c - 1) + step,
            unit > 0,
    ;
    assert((100 * (c - 1) + step) * unit == 100 * ((c - 1) * unit) + step * unit)
        by (nonlinear_arith);
    assert(rounded > (c - 1) * unit) by {
        let whole = (c - 1) * unit;
        if percent == 95 {
            assert(100 * product >= 100 * whole + 5 * unit - 40 * n);
        } else {
            assert(100 * product >= 100 * whole + unit - 8 * n);
        }
    }
    assert(count > c - 1) by (nonlinear_arith)
        requires
            (c - 1) * unit < rounded,
            rounded <= count * unit,
            unit > 0,
    ;
}

/// A percentile is one of the samples.
pub proof fn lemma_percentile_is_sample(s: Seq<u128>, percentile: u64)
    requires
        s.len() > 0,
    ensures
        s.contains(percentile_sample(s, percentile)),
{
    let t = ascending(s);
    let v = percentile_sample(s, percentile);
    lemma_ascending_ensures(s);
    s.to_multiset_ensures();
    t.to_multiset_ensures();
    assert(t.contains(v));
    assert(s.to_multiset().count(v) > 0);
}

/// The share that a percentile makes of up to `EXACT_LIMIT` samples: one sample
/// at least, and no more than there are.
proof fn lemma_share_in_range(n: nat, percentile: u64)
    requires
        0 < n < EXACT_LIMIT,
        share_of(percentile).mantissa > 0,
    ensures
        1 <= share_count(n, share_of(percentile)) <= n,
{
    let share = share_of(percentile);
    let whole = Share { mantissa: 1, scale: 0 };
    let unit = pow2(share.scale as nat);
    lemma2_to64();
    lemma2_to64_rest();
    lemma_pow2_pos(share.scale as nat);
    if share.scale > 53 {
        lemma_pow2_strictly_increases(53, share.scale as nat);
    }
    assert(share_at_most(share, whole)) by {
        assert(share.mantissa * pow2(0) == share.mantissa);
        assert(whole.mantissa * unit == unit);
    }
    lemma_share_ordered(n, share, whole);
    lemma_nearest(n);
    assert(1 * nearest_double(n) == n);
    assert(ceiling(n, 1) == n);
    let product = share.mantissa as nat * n;
    assert(product > 0) by (nonlinear_arith)
        requires
            product == share.mantissa * n,
            share.mantissa > 0,
            n > 0,
    ;
    lemma_nearest(product);
    lemma_grain(product);
    let rounded = nearest_double(product);
    assert(rounded > 0);
    lemma_ceiling(rounded, unit);
    if ceiling(rounded, unit) == 0 {
        assert(0 * unit == 0);
    }
}

/// A percentile is one of the samples. The samples up to it make up the share
/// of all that the percentile is, and those below it do not.
pub proof fn law_percentile_covers_its_share(s: Seq<u128>, percentile: u64)
    requires
        0 < s.len() < EXACT_LIMIT,
        share_of(percentile).mantissa > 0,
    ensures
        s.contains(percentile_sample(s, percentile)),
        count_below(s, percentile_sample(s, percentile)) < share_count(
            s.len(),
            share_of(percentile),
        ) <= count_at_most(s, percentile_sample(s, percentile)),
{
    let n = s.len();
    let t = ascending(s);
    lemma_ascending_ensures(s);
    lemma_share_in_range(n, percentile);
    let k = nearest_rank(n, percentile) as int;
    let v = t[k];
    lemma_percentile_is_sample(s, percentile);
    lemma_count_of_prefix(t, k + 1, v);
    lemma_count_permutation(t, s, v);
    if v > 0 {
        let u = (v - 1) as u128;
        assert forall|i: int| k <= i < t.len() implies #[trigger] t[i] > u by {
            assert(t[k] <= t[i]);
        }
        lemma_count_of_split(t, k, u);
        lemma_count_permutation(t, s, u);
    }
}

/// The samples up to the 95th or 99th percentile make up so many of a hundred,
/// and those below it make up less, as long as doubles tell the ranks apart.
pub proof fn law_percentile_is_nearest_rank(s: Seq<u128>, percentile: u64, percent: nat)
    requires
        s.len() > 0,
        is_percent(percentile, percent),
        tells_ranks_apart(s.len(), percentile),
    ensures
        s.contains(percentile_sample(s, percentile)),
        100 * count_at_most(s, percentile_sample(s, percentile)) >= percent * s.len(),
        100 * count_below(s, percentile_sample(s, percentile)) < percent * s.len(),
{
    lemma_share_of_percent(s.len(), percentile, percent);
    law_percentile_covers_its_share(s, percentile);
}

/// The sample at a higher percentile is no smaller.
pub proof fn law_percentiles_ascend(s: Seq<u128>, low: u64, high: u64)
    requires
        s.len() > 0,
        share_at_most(share_of(low), share_of(high)),
    ensures
        percentile_sample(s, low) <= percentile_sample(s, high),
{
    lemma_ascending_ensures(s);
    lemma_share_ordered(s.len(), share_of(low), share_of(high));
    assert(nearest_rank(s.len(), low) <= nearest_rank(s.len(), high));
}

/// The percentiles do not depend on the order of the samples.
pub proof fn law_percentile_ignores_order(s: Seq<u128>, t: Seq<u128>, percentile: u64)
    requires
        s.to_multiset() == t.to_multiset(),
    ensures
        percentile_ms_of(s, percentile) == percentile_ms_of(t, percentile),
{
    lemma_ascending_ensures(s);
    lemma_ascending(t, ascending(s));
    s.to_multiset_ensures();
    t.to_multiset_ensures();
}

/// The same samples in another order: the last of `s` has a place in `t`, and
/// the rest of `s` are the rest of `t`.
pub proof fn lemma_permutation_step<A>(s: Seq<A>, t: Seq<A>) -> (j: int)
    requires
        s.len() > 0,
        s.to_multiset() == t.to_multiset(),
    ensures
        0 <= j < t.len(),
        t[j] == s.last(),
        s.drop_last().to_multiset() == t.remove(j).to_multiset(),
        s.len() == t.len(),
{
    broadcast use vstd::seq_lib::group_to_multiset_ensures;

    s.to_multiset_ensures();
    t.to_multiset_ensures();
    let x = s.last();
    assert(s.to_multiset().count(x) > 0) by {
        assert(s[s.len() - 1] == x);
        assert(s.contains(x));
    }
    assert(t.contains(x));
    let j = choose|j: int| 0 <= j < t.len() && t[j] == x;
    assert(s.drop_last() =~= s.remove(s.len() - 1));
    assert(s.remove(s.len() - 1).to_multiset() =~= s.to_multiset().remove(x));
    assert(t.remove(j).to_multiset() =~= t.to_multiset().remove(x));
    j
}

/// The mean does not depend on the order of the samples.
pub proof fn law_mean_ignores_order(s: Seq<u128>, t: Seq<u128>)
    requires
        s.to_multiset() == t.to_multiset(),
    ensures
        mean_ms_of(s) == mean_ms_of(t),
{
    lemma_ascending_ensures(s);
    lemma_ascending(t, ascending(s));
}

/// A percentile below zero, or none at all, is the least sample; one above a
/// whole is the greatest.
pub proof fn law_percentile_held_in_range(s: Seq<u128>, percentile: u64)
    requires
        0 < s.len() < EXACT_LIMIT,
    ensures
        percentile >= SIGN || percentile == 0 || meaning(percentile) is NoNumber ==> forall|
            i: int,
        |
            0 <= i < s.len() ==> percentile_sample(s, percentile) <= #[trigger] s[i],
        Double::of(1).bits <= percentile <= INFINITY ==> forall|i: int|
            0 <= i < s.len() ==> percentile_sample(s, percentile) >= #[trigger] s[i],
{
    let n = s.len();
    let t = ascending(s);
    lemma_ascending_ensures(s);
    s.to_multiset_ensures();
    t.to_multiset_ensures();
    assert forall|i: int| 0 <= i < n implies t[0] <= #[trigger] s[i] && s[i] <= t[n - 1] by {
        assert(s.contains(s[i]));
        assert(t.to_multiset().count(s[i]) > 0);
        assert(t.contains(s[i]));
        let k = choose|k: int| 0 <= k < t.len() && t[k] == s[i];
        assert(t[0] <= t[k] <= t[n - 1]);
    }
    let one: u64 = 4_607_182_418_800_017_408;
    assert(Double::of(1).bits == one) by {
        assert(pattern(false, FRACTION_UNIT as nat, -52) == one);
        let d = Double { bits: one };
        assert(one / FRACTION_UNIT == 1023 && one % FRACTION_UNIT == 0);
        lemma_rounded_units(d);
        lemma2_to64_rest();
        lemma_pow2_adds(52, 1022);
        lemma_rounded_moved(false, 1, 1, 0, 1074);
        assert(1 * pow2(1074) == pow2(1074));
        assert(FRACTION_UNIT * pow2(1022) == pow2(1074));
    }
    if percentile >= SIGN || percentile == 0 || meaning(percentile) is NoNumber {
        lemma_nearest(n);
        let share = share_of(percentile);
        assert(percentile >= SIGN ==> percentile / FRACTION_UNIT >= 2048);
        assert(share.mantissa == 0);
        lemma_pow2_pos(share.scale as nat);
        assert(0 * nearest_double(n) == 0);
        assert(nearest_double(0) == 0);
        assert(share_count(n, share) == 0) by {
            let unit = pow2(share.scale as nat);
            assert(0nat / unit == 0 && 0nat % unit == 0) by (nonlinear_arith)
                requires
                    unit > 0,
            ;
        }
    }
    if one <= percentile <= INFINITY {
        assert(one / FRACTION_UNIT == 1023);
        assert(1023 <= percentile / FRACTION_UNIT <= 2047);
        assert(share_of(percentile) == (Share { mantissa: 1, scale: 0 }));
        lemma_nearest(n);
        lemma2_to64();
        assert(1 * nearest_double(n) == n);
        assert(pow2(0) == 1);
        assert(n % 1 == 0 && n / 1 == n);
        assert(ceiling(n, 1) == n);
    }
}

/// The rank of a percentile that is a count of 512ths: the least number of
/// samples that makes up so many 512ths of all, less one.
pub proof fn law_rank_of_parts(n: nat, count: nat)
    requires
        n > 0,
        0 < count < 512,
        512 * n < EXACT_LIMIT,
    ensures
        ({
            let percentile = Double::of(count as int).over(Double::of(512)).bits;
            let rank = nearest_rank(n, percentile);
            &&& rank < n
            &&& 512 * (rank + 1) >= count * n
            &&& 512 * rank < count * n
        }),
{
    let d = parts_of(count);
    let percentile = d.bits;
    lemma_parts_units(count);
    lemma_parts_units(512);
    lemma_of_over_factor(1, 512);
    lemma_amount(d);
    lemma_parts_below(count);
    let (m, e) = match meaning(percentile) {
        Meaning::Finite { mantissa, exponent, .. } => (mantissa, exponent),
        _ => (0, 0),
    };
    let scale = (-e) as nat;
    let share = share_of(percentile);
    assert(share.mantissa == m && share.scale == scale);
    let k = (scale - 9) as nat;
    assert(m == count * pow2(k)) by {
        let low = pow2((1074 - scale) as nat);
        lemma_pow2_adds((1074 - scale) as nat, k);
        lemma_pow2_pos((1074 - scale) as nat);
        assert(m == count * pow2(k)) by (nonlinear_arith)
            requires
                m * low == count * pow2(1065),
                low * pow2(k) == pow2(1065),
                low > 0,
        ;
    }
    let x = count * n;
    assert(x < EXACT_LIMIT) by (nonlinear_arith)
        requires
            x == count * n,
            count < 512,
            512 * n < EXACT_LIMIT,
            n > 0,
    ;
    lemma_nearest(n);
    lemma_nearest(x);
    lemma_nearest_scaled(x, k);
    let unit = pow2(k);
    lemma_pow2_pos(k);
    assert(m * n == x * unit) by (nonlinear_arith)
        requires
            m == count * unit,
            x == count * n,
    ;
    lemma_pow2_adds(9, k);
    lemma2_to64();
    let product = x * unit;
    let whole = pow2(scale);
    assert(whole == 512 * unit);
    let c = ceiling(product, whole);
    assert(share_count(n, share) == c);
    lemma_ceiling(product, whole);
    assert(512 * c >= x) by (nonlinear_arith)
        requires
            c * whole >= product,
            product == x * unit,
            whole == 512 * unit,
            unit > 0,
    ;
    assert(x > 0) by (nonlinear_arith)
        requires
            x == count * n,
            count > 0,
            n > 0,
    ;
    assert(c > 0) by (nonlinear_arith)
        requires
            512 * c >= x,
            x > 0,
    ;
    assert(512 * (c - 1) < x) by (nonlinear_arith)
        requires
            (c - 1) * whole < product,
            product == x * unit,
            whole == 512 * unit,
            unit > 0,
    ;
    assert(x < 512 * n) by (nonlinear_arith)
        requires
            x == count * n,
            count < 512,
            n > 0,
    ;
}

/// A count of 512ths that is less than a whole: a double below one, with all
/// the digits of a mantissa.
proof fn lemma_parts_below(count: nat)
    requires
        0 < count < 512,
    ensures
        ({
            let bits = parts_of(count).bits;
            &&& 0 < exponent_field(bits) < 1023
            &&& bits / FRACTION_UNIT < 2048
            &&& (meaning(bits) matches Meaning::Finite { mantissa, exponent, .. } && exponent
                <= -53 && exponent >= -62)
        }),
{
    let d = parts_of(count);
    lemma_parts_units(count);
    lemma_amount(d);
    let (m, e) = match meaning(d.bits) {
        Meaning::Finite { mantissa, exponent, .. } => (mantissa, exponent),
        _ => (0, 0),
    };
    let p = pow2(1065);
    lemma_pow2_pos(1065);
    lemma2_to64();
    lemma2_to64_rest();
    if m < FRACTION_UNIT {
        assert(e == -1074);
        lemma_pow2_adds(52, 1013);
        lemma_pow2_pos(1013);
        assert(m * 1 == m);
        assert(count * p >= FRACTION_UNIT) by (nonlinear_arith)
            requires
                count > 0,
                p == FRACTION_UNIT * pow2(1013),
                pow2(1013) > 0,
        ;
    } else if e > -53 {
        let q = pow2((e + 1074) as nat);
        lemma_pow2_adds(1022, (e + 52) as nat);
        lemma_pow2_pos((e + 52) as nat);
        lemma_pow2_adds(52, 1022);
        lemma_pow2_adds(9, 1065);
        let r = pow2(1022);
        lemma_pow2_pos(1022);
        assert(q >= r) by (nonlinear_arith)
            requires
                q == r * pow2((e + 52) as nat),
                pow2((e + 52) as nat) > 0,
                r > 0,
        ;
        assert(m * q >= 512 * p) by (nonlinear_arith)
            requires
                m >= FRACTION_UNIT,
                q >= r,
                FRACTION_UNIT * r == 512 * p,
                r > 0,
        ;
        assert(count * p < 512 * p) by (nonlinear_arith)
            requires
                count < 512,
                p > 0,
        ;
    } else if e < -62 {
        let q = pow2((e + 1074) as nat);
        lemma_pow2_strictly_increases((e + 1074) as nat, 1012);
        lemma_pow2_adds(53, 1012);
        assert(m * q < p) by (nonlinear_arith)
            requires
                m < EXACT_LIMIT,
                q < pow2(1012),
                EXACT_LIMIT * pow2(1012) == p,
                m > 0,
        ;
        assert(count * p >= p) by (nonlinear_arith)
            requires
                count > 0,
                p > 0,
        ;
    }
    let top = d.bits / FRACTION_UNIT;
    assert(top <= 2047);
    assert(exponent_field(d.bits) == top);
}

} // verus!
