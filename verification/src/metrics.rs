//! What the results of a benchmark say of its requests.

use vstd::arithmetic::power2::{
    lemma2_to64, lemma2_to64_rest, lemma_pow2_adds, lemma_pow2_pos, lemma_pow2_strictly_increases,
    pow2,
};
use vstd::prelude::*;

use crate::arith::{meaning, rounded, Double, Meaning, INFINITY, SIGN};
use crate::config::BenchmarkMode;
use crate::double::{exponent_field, EXACT_LIMIT, FRACTION_UNIT};
use crate::exact::{
    law_seconds_of_parts, lemma_minus_exact, lemma_minus_units, lemma_of_minus, lemma_of_over,
    lemma_of_over_factor, lemma_of_plus, lemma_of_times, lemma_of_units, lemma_over_one,
    lemma_parts_plus, lemma_parts_units, lemma_plus_zero, parts_of, PART,
};
use crate::monitor::PerformanceStats;
use crate::order::{
    is_amount, law_seconds_ordered, lemma_amount, lemma_finer_exact, lemma_minus_below,
    lemma_negated, lemma_of_count, lemma_over_itself, lemma_over_units, lemma_plus_units,
    lemma_rounded_moved, lemma_rounded_ordered, lemma_rounded_scaled, lemma_rounded_sign,
    lemma_rounded_units, lemma_seconds_is_amount, lemma_units_ordered, units,
};
use crate::report::{
    are_request_totals, autoagents_result_of, calls_of, excess_of, latencies_of,
    lemma_successes_bound, processing_of, queue_waits_of, rig_result_of, samples_of, successes,
    summary_of, with_overhead, BenchmarkResult, Measurements, RequestInstants, TimingBreakdown,
    EPSILON,
};
use crate::stats::{
    ascending, count_at_most, count_below, law_percentile_is_nearest_rank, lemma_ascending,
    lemma_ascending_ensures, lemma_permutation_step, mean_ms_of, percentile_ms_of,
    percentile_sample, seconds_of, seconds_sum, thousandfold, NANOS_PER_SEC, P95, P99, RANK_LIMIT,
};

use crate::timing::{law_each_request_has_its_total, lists_requests, total, totals_of, CallLog};

verus! {

/// The times of a request do not depend on whether it came to the expected
/// value. Each of them leads from one instant to another, and none has passed
/// where the other instant is the earlier.
pub proof fn law_times_of_request(at: RequestInstants, status: bool)
    ensures
        at.breakdown(status).status == status,
        at.breakdown(status).total == at.breakdown(!status).total,
        at.breakdown(status).queue_wait == at.breakdown(!status).queue_wait,
        at.breakdown(status).call == at.breakdown(!status).call,
        at.submitted <= at.finished ==> at.submitted + at.breakdown(status).total == at.finished,
        at.submitted <= at.dequeued ==> at.submitted + at.breakdown(status).queue_wait
            == at.dequeued,
        at.call_started <= at.call_ended ==> at.call_started + at.breakdown(status).call
            == at.call_ended,
        at.submitted > at.finished ==> at.breakdown(status).total == 0,
        at.submitted > at.dequeued ==> at.breakdown(status).queue_wait == 0,
        at.call_started > at.call_ended ==> at.breakdown(status).call == 0,
{
}

/// The times that are at most `limit`.
pub open spec fn up_to(limit: u128) -> spec_fn(u128) -> bool {
    |time: u128| time <= limit
}

/// The times that are below `limit`.
pub open spec fn under(limit: u128) -> spec_fn(u128) -> bool {
    |time: u128| time < limit
}

/// `value` is one of `times` in milliseconds. The times up to that one make up
/// `percent` of a hundred, and the times below it make up less.
pub open spec fn is_percentile(value: Double, times: Seq<u128>, percent: nat) -> bool {
    exists|i: int|
        {
            &&& 0 <= i < times.len()
            &&& value == thousandfold(seconds_of(#[trigger] times[i]))
            &&& 100 * times.filter(up_to(times[i])).len() >= percent * times.len()
            &&& 100 * times.filter(under(times[i])).len() < percent * times.len()
        }
}

/// How many times are at most a limit.
proof fn lemma_count_up_to(s: Seq<u128>, limit: u128)
    ensures
        s.filter(up_to(limit)).len() == count_at_most(s, limit),
    decreases s.len(),
{
    reveal(Seq::filter);
    if s.len() > 0 {
        lemma_count_up_to(s.drop_last(), limit);
    }
}

/// How many times are below a limit.
proof fn lemma_count_under(s: Seq<u128>, limit: u128)
    ensures
        s.filter(under(limit)).len() == count_below(s, limit),
    decreases s.len(),
{
    reveal(Seq::filter);
    if s.len() > 0 {
        lemma_count_under(s.drop_last(), limit);
    }
}

/// The 95th and the 99th percentile of some times.
proof fn lemma_percentiles(s: Seq<u128>)
    requires
        0 < s.len() < RANK_LIMIT,
    ensures
        is_percentile(percentile_ms_of(s, P95), s, 95),
        is_percentile(percentile_ms_of(s, P99), s, 99),
{
    law_percentile_is_nearest_rank(s, P95, 95);
    law_percentile_is_nearest_rank(s, P99, 99);
    let (a, b) = (percentile_sample(s, P95), percentile_sample(s, P99));
    let i = choose|i: int| 0 <= i < s.len() && s[i] == a;
    let k = choose|k: int| 0 <= k < s.len() && s[k] == b;
    lemma_count_up_to(s, s[i]);
    lemma_count_under(s, s[i]);
    lemma_count_up_to(s, s[k]);
    lemma_count_under(s, s[k]);
}

/// The percentiles of a run are times of its requests: those up to the 95th
/// percentile of the queue waits, say, are at least 95 of a hundred, and those
/// below it are fewer.
pub proof fn law_percentiles_of_requests(
    name: &'static str,
    concurrency: usize,
    requests: Seq<TimingBreakdown>,
    total_duration: u64,
    setup_duration: u64,
    perf: PerformanceStats,
    totals: Seq<u128>,
    waits: Seq<u128>,
    calls: Seq<u128>,
    rests: Seq<u128>,
)
    requires
        0 < requests.len() < RANK_LIMIT,
        totals.len() == requests.len(),
        waits.len() == requests.len(),
        calls.len() == requests.len(),
        rests.len() == requests.len(),
        forall|i: int| 0 <= i < requests.len() ==> #[trigger] totals[i] == requests[i].total,
        forall|i: int| 0 <= i < requests.len() ==> #[trigger] waits[i] == requests[i].queue_wait,
        forall|i: int| 0 <= i < requests.len() ==> #[trigger] calls[i] == requests[i].call,
        forall|i: int|
            0 <= i < requests.len() ==> #[trigger] rests[i] == (if requests[i].total
                > requests[i].call {
                requests[i].total - requests[i].call
            } else {
                0
            }),
    ensures
        ({
            let result = summary_of(
                name,
                concurrency,
                requests,
                total_duration,
                setup_duration,
                perf,
            );
            &&& is_percentile(result.p95_latency_ms, totals, 95)
            &&& is_percentile(result.p99_latency_ms, totals, 99)
            &&& is_percentile(result.p95_queue_ms, waits, 95)
            &&& is_percentile(result.p95_call_ms, calls, 95)
            &&& is_percentile(result.p95_processing_ms, rests, 95)
        }),
{
    assert(totals =~= latencies_of(requests));
    assert(waits =~= queue_waits_of(requests));
    assert(calls =~= calls_of(requests));
    assert(rests =~= processing_of(requests));
    lemma_percentiles(totals);
    lemma_percentiles(waits);
    lemma_percentiles(calls);
    lemma_percentiles(rests);
}

/// The requests that came to the expected value.
pub open spec fn succeeded() -> spec_fn(TimingBreakdown) -> bool {
    |request: TimingBreakdown| request.status
}

/// The requests that did not come to the expected value.
pub open spec fn failed() -> spec_fn(TimingBreakdown) -> bool {
    |request: TimingBreakdown| !request.status
}

/// How many requests came to the expected value, and how many did not.
proof fn lemma_successes_filtered(requests: Seq<TimingBreakdown>)
    ensures
        requests.filter(succeeded()).len() == successes(requests),
        requests.filter(failed()).len() == requests.len() - successes(requests),
    decreases requests.len(),
{
    reveal(Seq::filter);
    if requests.len() > 0 {
        lemma_successes_filtered(requests.drop_last());
    }
}

/// The results count the requests that came to the expected value and those
/// that did not; the share of the former is all where none failed, and nothing
/// where none came to it.
pub proof fn law_successes_of_requests(
    name: &'static str,
    concurrency: usize,
    requests: Seq<TimingBreakdown>,
    total_duration: u64,
    setup_duration: u64,
    perf: PerformanceStats,
)
    requires
        requests.len() <= usize::MAX,
    ensures
        ({
            let result = summary_of(
                name,
                concurrency,
                requests,
                total_duration,
                setup_duration,
                perf,
            );
            let good = requests.filter(succeeded()).len();
            let bad = requests.filter(failed()).len();
            &&& result.total_requests == requests.len()
            &&& result.total_success == good
            &&& result.total_failure == bad
            &&& good + bad == requests.len()
            &&& bad == 0 && good > 0 ==> result.determinism_rate == Double::of(1)
            &&& good == 0 ==> result.determinism_rate == Double::of(0)
            &&& good > 0 ==> result.determinism_rate == Double::of(good as int).over(
                Double::of((good + bad) as int),
            )
        }),
{
    lemma_successes_bound(requests);
    lemma_successes_filtered(requests);
    if requests.len() > 0 {
        let n = requests.len();
        let count = Double::of(n as int);
        lemma_of_count(n);
        lemma_over_itself(count);
        lemma_zero_over(count);
    }
}

/// Nothing over something is nothing.
proof fn lemma_zero_over(d: Double)
    requires
        is_amount(d),
        d.bits == INFINITY || units(d) > 0,
    ensures
        Double::of(0).over(d) == Double::of(0),
{
    lemma_amount(d);
    lemma_of_units(0);
    lemma_amount(Double::of(0));
    assert(meaning(0) == (Meaning::Finite { negative: false, mantissa: 0, exponent: -1074 }));
    match meaning(d.bits) {
        Meaning::Finite { mantissa, exponent, .. } => {
            assert(mantissa > 0) by {
                let p = pow2((exponent + 1074) as nat);
                assert(0 * p == 0);
            }
        },
        _ => {},
    }
}

/// What a run is given, its results hand on: its name, its concurrency, how
/// long it took and what was seen of the process. Tools, language models and
/// overheads are not summed up.
pub proof fn law_summary_hands_on(
    name: &'static str,
    concurrency: usize,
    requests: Seq<TimingBreakdown>,
    total_duration: u64,
    setup_duration: u64,
    perf: PerformanceStats,
)
    ensures
        ({
            let result = summary_of(
                name,
                concurrency,
                requests,
                total_duration,
                setup_duration,
                perf,
            );
            let zero = Double { bits: 0 };
            &&& result.name == name
            &&& result.concurrency == concurrency
            &&& result.total_duration == total_duration
            &&& result.cpu_usage_percent == perf.cpu_usage_percent
            &&& result.memory_peak_mb == perf.memory_peak_mb
            &&& result.average_tool_ms == zero
            &&& result.p95_tool_ms == zero
            &&& result.average_llm_total_ms == zero
            &&& result.p95_llm_total_ms == zero
            &&& result.average_framework_overhead_ms == zero
            &&& result.p95_framework_overhead_ms == zero
            &&& result.average_framework_overhead_corrected_ms == zero
            &&& result.p95_framework_overhead_corrected_ms == zero
        }),
{
}

/// Without requests there is nothing to measure: every time and every rate is
/// zero.
pub proof fn law_no_requests(
    name: &'static str,
    concurrency: usize,
    total_duration: u64,
    setup_duration: u64,
    perf: PerformanceStats,
)
    ensures
        ({
            let result = summary_of(
                name,
                concurrency,
                Seq::empty(),
                total_duration,
                setup_duration,
                perf,
            );
            let zero = Double { bits: 0 };
            &&& result.total_requests == 0
            &&& result.total_success == 0
            &&& result.total_failure == 0
            &&& result.throughput_rps == zero
            &&& result.throughput_success_rps == zero
            &&& result.average_latency_ms == zero
            &&& result.p95_latency_ms == zero
            &&& result.p99_latency_ms == zero
            &&& result.average_queue_ms == zero
            &&& result.p95_queue_ms == zero
            &&& result.average_call_ms == zero
            &&& result.p95_call_ms == zero
            &&& result.average_processing_ms == zero
            &&& result.p95_processing_ms == zero
            &&& result.determinism_rate == zero
        }),
{
    let none = Seq::<TimingBreakdown>::empty();
    lemma_ascending_ensures(latencies_of(none));
    lemma_ascending_ensures(queue_waits_of(none));
    lemma_ascending_ensures(calls_of(none));
    lemma_ascending_ensures(processing_of(none));
}

/// Every time of the requests is summed up as the latency is: the measures of
/// the queue waits, of the calls and of the rest are the latencies of requests
/// that took just so long.
pub proof fn law_times_measured_alike(
    name: &'static str,
    concurrency: usize,
    requests: Seq<TimingBreakdown>,
    waits: Seq<TimingBreakdown>,
    calls: Seq<TimingBreakdown>,
    rests: Seq<TimingBreakdown>,
    total_duration: u64,
    setup_duration: u64,
    perf: PerformanceStats,
)
    requires
        waits.len() == requests.len(),
        calls.len() == requests.len(),
        rests.len() == requests.len(),
        forall|i: int|
            0 <= i < requests.len() ==> (#[trigger] waits[i]).total == requests[i].queue_wait,
        forall|i: int| 0 <= i < requests.len() ==> (#[trigger] calls[i]).total == requests[i].call,
        forall|i: int|
            0 <= i < requests.len() ==> (#[trigger] rests[i]).total == (if requests[i].total
                > requests[i].call {
                requests[i].total - requests[i].call
            } else {
                0
            }),
    ensures
        ({
            let result = summary_of(
                name,
                concurrency,
                requests,
                total_duration,
                setup_duration,
                perf,
            );
            let waiting = summary_of(
                name,
                concurrency,
                waits,
                total_duration,
                setup_duration,
                perf,
            );
            let calling = summary_of(
                name,
                concurrency,
                calls,
                total_duration,
                setup_duration,
                perf,
            );
            let resting = summary_of(
                name,
                concurrency,
                rests,
                total_duration,
                setup_duration,
                perf,
            );
            &&& result.average_queue_ms == waiting.average_latency_ms
            &&& result.p95_queue_ms == waiting.p95_latency_ms
            &&& result.average_call_ms == calling.average_latency_ms
            &&& result.p95_call_ms == calling.p95_latency_ms
            &&& result.average_processing_ms == resting.average_latency_ms
            &&& result.p95_processing_ms == resting.p95_latency_ms
        }),
{
    assert(queue_waits_of(requests) =~= latencies_of(waits));
    assert(calls_of(requests) =~= latencies_of(calls));
    assert(processing_of(requests) =~= latencies_of(rests));
}

/// The sum of some counts.
pub open spec fn added(counts: Seq<nat>) -> nat
    decreases counts.len(),
{
    if counts.len() == 0 {
        0
    } else {
        added(counts.drop_last()) + counts.last()
    }
}

/// The 512ths of a second in some times.
spec fn parts_in(times: Seq<u128>) -> nat
    decreases times.len(),
{
    if times.len() == 0 {
        0
    } else {
        parts_in(times.drop_last()) + times.last() as nat / PART as nat
    }
}

/// One time taken out of the sum.
proof fn lemma_parts_remove(times: Seq<u128>, j: int)
    requires
        0 <= j < times.len(),
    ensures
        parts_in(times) == parts_in(times.remove(j)) + times[j] as nat / PART as nat,
    decreases times.len(),
{
    if j == times.len() - 1 {
        assert(times.remove(j) =~= times.drop_last());
    } else {
        lemma_parts_remove(times.drop_last(), j);
        assert(times.remove(j).drop_last() =~= times.drop_last().remove(j));
        assert(times.remove(j).last() == times.last());
    }
}

/// The sum does not depend on the order of the times.
proof fn lemma_parts_permutation(s: Seq<u128>, t: Seq<u128>)
    requires
        s.to_multiset() == t.to_multiset(),
    ensures
        parts_in(s) == parts_in(t),
    decreases s.len(),
{
    if s.len() == 0 {
        s.to_multiset_ensures();
        t.to_multiset_ensures();
    } else {
        let j = lemma_permutation_step(s, t);
        lemma_parts_permutation(s.drop_last(), t.remove(j));
        lemma_parts_remove(t, j);
    }
}

/// The sum of times that are whole counts of 512ths of a second.
proof fn lemma_parts_sum(times: Seq<u128>)
    requires
        forall|i: int| 0 <= i < times.len() ==> #[trigger] times[i] % (PART as u128) == 0,
        parts_in(times) < EXACT_LIMIT,
    ensures
        seconds_sum(times) == parts_of(parts_in(times)),
    decreases times.len(),
{
    if times.len() == 0 {
        lemma_parts_units(0);
    } else {
        let rest = times.drop_last();
        let last = times.last();
        assert(times[times.len() - 1] == last);
        let count = last as nat / PART as nat;
        assert forall|i: int| 0 <= i < rest.len() implies #[trigger] rest[i] % (PART as u128)
            == 0 by {
            assert(rest[i] == times[i]);
        }
        lemma_parts_sum(rest);
        law_seconds_of_parts(last, count);
        lemma_parts_plus(parts_in(rest), count);
    }
}

/// The sum of some counts is that of the times that they count.
proof fn lemma_parts_added(times: Seq<u128>, counts: Seq<nat>)
    requires
        times.len() == counts.len(),
        forall|i: int| 0 <= i < times.len() ==> #[trigger] times[i] == counts[i] * PART,
    ensures
        parts_in(times) == added(counts),
    decreases times.len(),
{
    if times.len() > 0 {
        let (s, c) = (times.drop_last(), counts.drop_last());
        assert forall|i: int| 0 <= i < s.len() implies #[trigger] s[i] == c[i] * PART by {
            assert(s[i] == times[i]);
        }
        lemma_parts_added(s, c);
        assert(times[times.len() - 1] == counts[times.len() - 1] * PART);
    }
}

/// The mean of times that are whole counts of 512ths of a second: their sum
/// over their number, in milliseconds.
proof fn lemma_mean_of_parts(times: Seq<u128>, counts: Seq<nat>)
    requires
        times.len() == counts.len() > 0,
        forall|i: int| 0 <= i < times.len() ==> #[trigger] times[i] == counts[i] * PART,
        added(counts) < EXACT_LIMIT,
    ensures
        mean_ms_of(times) == Double::of(added(counts) as int).over(Double::of(512)).over(
            Double::of(times.len() as int),
        ).times(Double::of(1000)),
{
    let sorted = ascending(times);
    lemma_ascending_ensures(times);
    lemma_parts_permutation(sorted, times);
    lemma_parts_added(times, counts);
    sorted.to_multiset_ensures();
    times.to_multiset_ensures();
    assert forall|i: int| 0 <= i < sorted.len() implies #[trigger] sorted[i] % (PART as u128)
        == 0 by {
        assert(sorted.contains(sorted[i]));
        assert(times.to_multiset().count(sorted[i]) > 0);
        assert(times.contains(sorted[i]));
        let k = choose|k: int| 0 <= k < times.len() && times[k] == sorted[i];
        let c = counts[k];
        assert(times[k] == c * PART);
        vstd::arithmetic::div_mod::lemma_mod_multiples_basic(c as int, PART as int);
    }
    lemma_parts_sum(sorted);
}

/// The average latency is the sum of the latencies over their number: exactly
/// so where the latencies are whole counts of 512ths of a second. Where their
/// mean is a whole number of seconds, the average is a thousand times that.
pub proof fn law_average_of_requests(
    name: &'static str,
    concurrency: usize,
    requests: Seq<TimingBreakdown>,
    total_duration: u64,
    setup_duration: u64,
    perf: PerformanceStats,
    counts: Seq<nat>,
    mean: nat,
)
    requires
        requests.len() == counts.len(),
        0 < requests.len() < EXACT_LIMIT,
        forall|i: int|
            0 <= i < requests.len() ==> (#[trigger] requests[i]).total == counts[i] * PART,
        added(counts) < EXACT_LIMIT,
    ensures
        ({
            let result = summary_of(
                name,
                concurrency,
                requests,
                total_duration,
                setup_duration,
                perf,
            );
            let n = requests.len();
            &&& result.average_latency_ms == Double::of(added(counts) as int).over(
                Double::of(512),
            ).over(Double::of(n as int)).times(Double::of(1000))
            &&& added(counts) == 512 * (mean * n) ==> result.average_latency_ms == Double::of(
                (1000 * mean) as int,
            )
        }),
{
    let n = requests.len();
    let times = latencies_of(requests);
    assert forall|i: int| 0 <= i < times.len() implies #[trigger] times[i] == counts[i]
        * PART by {
        assert(times[i] == requests[i].total);
    }
    lemma_mean_of_parts(times, counts);
    if added(counts) == 512 * (mean * n) {
        let whole = mean * n;
        assert(whole * 512 == 512 * whole);
        lemma_of_over_factor(whole, 512);
        lemma_of_over_factor(mean, n);
        assert(mean <= whole) by (nonlinear_arith)
            requires
                whole == mean * n,
                n >= 1,
        ;
        lemma_of_times(mean, 1000);
    }
}

/// The running sums of some times in seconds.
proof fn lemma_running_sum(sorted: Seq<u128>, sums: Seq<Double>, n: int)
    requires
        0 <= n <= sorted.len(),
        sums.len() == sorted.len() + 1,
        sums[0] == Double::of(0),
        forall|i: int|
            0 <= i < sorted.len() ==> #[trigger] sums[i + 1] == sums[i].plus(
                seconds_of(sorted[i]),
            ),
    ensures
        sums[n] == seconds_sum(sorted.take(n)),
    decreases n,
{
    if n > 0 {
        lemma_running_sum(sorted, sums, n - 1);
        assert(sums[(n - 1) + 1] == sums[n - 1].plus(seconds_of(sorted[n - 1])));
        assert(sorted.take(n).drop_last() =~= sorted.take(n - 1));
        assert(sorted.take(n).last() == sorted[n - 1]);
    }
}

/// The average latency, of any requests: the latencies in seconds are added up
/// from the least to the greatest, and the last of the running sums over their
/// number, times a thousand, is the average.
pub proof fn law_average_of_sums(
    name: &'static str,
    concurrency: usize,
    requests: Seq<TimingBreakdown>,
    total_duration: u64,
    setup_duration: u64,
    perf: PerformanceStats,
    totals: Seq<u128>,
    sorted: Seq<u128>,
    sums: Seq<Double>,
)
    requires
        requests.len() > 0,
        totals.len() == requests.len(),
        forall|i: int| 0 <= i < requests.len() ==> #[trigger] totals[i] == requests[i].total,
        sorted.to_multiset() == totals.to_multiset(),
        forall|i: int, k: int|
            0 <= i <= k < sorted.len() ==> #[trigger] sorted[i] <= #[trigger] sorted[k],
        sums.len() == sorted.len() + 1,
        sums[0] == Double::of(0),
        forall|i: int|
            0 <= i < sorted.len() ==> #[trigger] sums[i + 1] == sums[i].plus(
                seconds_of(sorted[i]),
            ),
    ensures
        summary_of(
            name,
            concurrency,
            requests,
            total_duration,
            setup_duration,
            perf,
        ).average_latency_ms == sums.last().over(Double::of(requests.len() as int)).times(
            Double::of(1000),
        ),
{
    assert(totals =~= latencies_of(requests));
    totals.to_multiset_ensures();
    sorted.to_multiset_ensures();
    lemma_ascending(totals, sorted);
    lemma_running_sum(sorted, sums, sorted.len() as int);
    assert(sorted.take(sorted.len() as int) =~= sorted);
}

/// Of a single request, the average is its latency, and so is every
/// percentile.
pub proof fn law_average_of_one_request(
    name: &'static str,
    concurrency: usize,
    requests: Seq<TimingBreakdown>,
    total_duration: u64,
    setup_duration: u64,
    perf: PerformanceStats,
)
    requires
        requests.len() == 1,
    ensures
        ({
            let result = summary_of(
                name,
                concurrency,
                requests,
                total_duration,
                setup_duration,
                perf,
            );
            &&& result.average_latency_ms == result.p95_latency_ms
            &&& result.average_latency_ms == result.p99_latency_ms
        }),
{
    let times = latencies_of(requests);
    let sorted = ascending(times);
    lemma_ascending_ensures(times);
    times.to_multiset_ensures();
    sorted.to_multiset_ensures();
    assert(sorted.len() == 1);
    let secs = seconds_of(sorted[0]);
    assert(sorted.drop_last().len() == 0);
    assert(seconds_sum(sorted.drop_last()) == Double::of(0));
    assert(seconds_sum(sorted) == Double::of(0).plus(secs));
    lemma_seconds_is_amount(sorted[0]);
    lemma_amount(secs);
    lemma_of_units(0);
    lemma_amount(Double::of(0));
    if secs.bits < INFINITY {
        lemma_plus_units(Double::of(0), secs);
        lemma_plus_units(secs, Double::of(0));
        lemma_plus_zero(secs);
    }
    lemma_over_one(secs);
}

/// The setup takes as many seconds as it took 512ths, over 512.
pub proof fn law_setup_in_seconds(
    name: &'static str,
    concurrency: usize,
    requests: Seq<TimingBreakdown>,
    total_duration: u64,
    setup_duration: u64,
    perf: PerformanceStats,
    count: nat,
)
    requires
        setup_duration == count * PART,
    ensures
        summary_of(
            name,
            concurrency,
            requests,
            total_duration,
            setup_duration,
            perf,
        ).setup_duration_s == Double::of(count as int).over(Double::of(512)),
{
    law_seconds_of_parts(setup_duration as u128, count);
}

/// The distance of doubles above one is two to the power -52.
proof fn lemma_epsilon()
    ensures
        EPSILON < INFINITY,
        meaning(EPSILON) == (Meaning::Finite {
            negative: false,
            mantissa: FRACTION_UNIT as nat,
            exponent: -104,
        }),
        units(Double { bits: EPSILON }) == pow2(1022),
{
    assert(EPSILON == 971 * FRACTION_UNIT);
    assert(EPSILON / FRACTION_UNIT == 971);
    assert(EPSILON % FRACTION_UNIT == 0);
    assert(exponent_field(EPSILON) == 971);
    lemma2_to64_rest();
    lemma_pow2_adds(52, 970);
}

/// Any time at all is more than `EPSILON` seconds.
proof fn lemma_seconds_above_epsilon(nanos: u64)
    requires
        nanos > 0,
    ensures
        EPSILON < seconds_of(nanos as u128).bits <= INFINITY,
{
    let unit = NANOS_PER_SEC as nat;
    let least = Double::of(1).over(Double::of(unit as int));
    lemma_of_over(1, unit);
    lemma2_to64();
    let near = pow2(30);
    assert(unit <= near);
    lemma_rounded_scaled(false, 1, unit, near, 0);
    lemma_rounded_scaled(false, 1, near, unit, 0);
    assert(near * 1 == near && unit * 1 == unit);
    assert(near * unit == unit * near) by (nonlinear_arith);
    lemma_rounded_ordered(unit, near, unit * near, 0);
    lemma_rounded_moved(false, 1, 1, -30, 30);
    assert(1 * pow2(30) == near);
    lemma_finer_exact(1, -30);
    let small = Double { bits: rounded(false, 1, near, 0) };
    assert(units(small) == 1 * pow2(1044));
    lemma_epsilon();
    lemma_pow2_strictly_increases(1022, 1044);
    assert(small.bits > EPSILON) by {
        if small.bits <= EPSILON {
            lemma_units_ordered(small, Double { bits: EPSILON });
        }
    }
    assert(seconds_of(1) == Double::of(0).plus(least));
    lemma_of_units(0);
    lemma_amount(Double::of(0));
    lemma_amount(least);
    if least.bits < INFINITY {
        lemma_plus_units(Double::of(0), least);
        lemma_plus_units(least, Double::of(0));
        lemma_plus_zero(least);
    }
    law_seconds_ordered(1, nanos);
}

/// The throughput of a run is the number of its requests for each second that
/// it took; a run that took no time at all counts as one of two to the power
/// -52 seconds.
pub proof fn law_throughput_of_requests(
    name: &'static str,
    concurrency: usize,
    requests: Seq<TimingBreakdown>,
    total_duration: u64,
    setup_duration: u64,
    perf: PerformanceStats,
    secs: nat,
)
    requires
        0 < requests.len() < EXACT_LIMIT,
    ensures
        ({
            let result = summary_of(
                name,
                concurrency,
                requests,
                total_duration,
                setup_duration,
                perf,
            );
            let alike = summary_of(
                name,
                concurrency,
                requests,
                total_duration,
                total_duration,
                perf,
            );
            let count = Double::of(requests.len() as int);
            &&& total_duration > 0 ==> result.throughput_rps == count.over(
                alike.setup_duration_s,
            )
            &&& secs > 0 && total_duration == secs * 1_000_000_000 ==> result.throughput_rps
                == count.over(Double::of(secs as int))
            &&& total_duration == 0 ==> result.throughput_rps == Double::of(
                (requests.len() * 4_503_599_627_370_496) as int,
            )
        }),
{
    let n = requests.len();
    let count = Double::of(n as int);
    let time = seconds_of(total_duration as u128);
    let least = Double { bits: EPSILON };
    lemma_epsilon();
    if total_duration > 0 {
        lemma_seconds_above_epsilon(total_duration);
        lemma_amount(time);
        assert(time.greater(least) == time);
    } else {
        law_seconds_of_parts(0, 0);
        lemma_parts_units(0);
        assert(time.bits == 0);
        lemma_amount(time);
        assert(time.greater(least) == least);
        lemma_of_units(n);
        let m = FRACTION_UNIT as nat;
        lemma_over_units(count, m, -104, least);
        lemma2_to64_rest();
        assert(m == pow2(52));
        lemma_rounded_moved(false, n, m, 104, 1074);
        lemma_rounded_moved(false, n, 1, 52, 52);
        assert(1 * pow2(52) == m);
        assert(n * pow2(52) == n * 4_503_599_627_370_496);
    }
    if secs > 0 && total_duration == secs * 1_000_000_000 {
        law_seconds_of_parts(total_duration as u128, 512 * secs);
        lemma_of_over_factor(secs, 512);
        assert(secs * 512 == 512 * secs);
    }
}

/// The throughput of successes is the throughput of a run with none but those
/// requests.
pub proof fn law_throughput_of_successes(
    name: &'static str,
    concurrency: usize,
    requests: Seq<TimingBreakdown>,
    total_duration: u64,
    setup_duration: u64,
    perf: PerformanceStats,
)
    requires
        requests.len() <= usize::MAX,
    ensures
        summary_of(
            name,
            concurrency,
            requests,
            total_duration,
            setup_duration,
            perf,
        ).throughput_success_rps == summary_of(
            name,
            concurrency,
            requests.filter(succeeded()),
            total_duration,
            setup_duration,
            perf,
        ).throughput_rps,
{
    lemma_successes_filtered(requests);
    if requests.filter(succeeded()).len() == 0 && requests.len() > 0 {
        let time = seconds_of(total_duration as u128);
        let least = Double { bits: EPSILON };
        lemma_epsilon();
        lemma_pow2_pos(1022);
        lemma_seconds_is_amount(total_duration as u128);
        lemma_amount(time);
        lemma_amount(least);
        if time.greater(least) == time && time.bits < INFINITY {
            lemma_units_ordered(least, time);
        }
        lemma_zero_over(time.greater(least));
    }
}

/// The results of a run hold what the timings of its requests add up to. Only
/// the times of tools and of the language model are added.
pub proof fn law_run_is_summed_up(
    concurrency: usize,
    mode: BenchmarkMode,
    run: Measurements,
    llm_totals: Seq<u128>,
)
    ensures
        ({
            let result = autoagents_result_of(concurrency, mode, run, llm_totals);
            result == (BenchmarkResult {
                average_tool_ms: result.average_tool_ms,
                p95_tool_ms: result.p95_tool_ms,
                average_llm_total_ms: result.average_llm_total_ms,
                p95_llm_total_ms: result.p95_llm_total_ms,
                ..summary_of(
                    "AutoAgents",
                    concurrency,
                    run.breakdowns@,
                    run.total_duration,
                    run.setup_duration,
                    run.perf,
                )
            })
        }),
        ({
            let result = rig_result_of(concurrency, mode, run);
            result == (BenchmarkResult {
                average_tool_ms: result.average_tool_ms,
                p95_tool_ms: result.p95_tool_ms,
                average_llm_total_ms: result.average_llm_total_ms,
                p95_llm_total_ms: result.p95_llm_total_ms,
                ..summary_of(
                    "Rig",
                    concurrency,
                    run.breakdowns@,
                    run.total_duration,
                    run.setup_duration,
                    run.perf,
                )
            })
        }),
{
}

/// Both frameworks are measured alike: a Rig run has the results of an
/// AutoAgents run, under its own name, that timed no calls to the language
/// model.
pub proof fn law_frameworks_measured_alike(
    concurrency: usize,
    mode: BenchmarkMode,
    run: Measurements,
)
    ensures
        rig_result_of(concurrency, mode, run) == (BenchmarkResult {
            name: "Rig",
            ..autoagents_result_of(concurrency, mode, run, Seq::empty())
        }),
{
}

/// The times of the tools are measured as latencies are, and only in tool
/// mode; elsewhere they are zero.
pub proof fn law_tools_measured_alike(
    concurrency: usize,
    mode: BenchmarkMode,
    run: Measurements,
    llm_totals: Seq<u128>,
    requests: Seq<TimingBreakdown>,
    times: Seq<u128>,
)
    requires
        requests.len() == run.tool_durations@.len(),
        times.len() == run.tool_durations@.len(),
        forall|i: int|
            0 <= i < requests.len() ==> (#[trigger] requests[i]).total == run.tool_durations@[i],
        forall|i: int|
            0 <= i < times.len() ==> #[trigger] times[i] == run.tool_durations@[i],
    ensures
        ({
            let result = autoagents_result_of(concurrency, mode, run, llm_totals);
            let alike = summary_of(
                "AutoAgents",
                concurrency,
                requests,
                run.total_duration,
                run.setup_duration,
                run.perf,
            );
            let zero = Double { bits: 0 };
            &&& mode is Tool ==> result.average_tool_ms == alike.average_latency_ms
            &&& mode is Tool ==> result.p95_tool_ms == alike.p95_latency_ms
            &&& mode is Tool && 0 < times.len() < RANK_LIMIT ==> is_percentile(
                result.p95_tool_ms,
                times,
                95,
            )
            &&& mode is LlmOnly ==> result.average_tool_ms == zero && result.p95_tool_ms == zero
        }),
{
    assert(times =~= latencies_of(requests));
    assert(times =~= samples_of(run.tool_durations@));
    if mode is Tool && 0 < times.len() < RANK_LIMIT {
        lemma_percentiles(times);
    }
    if mode is LlmOnly {
        lemma_ascending_ensures(Seq::empty());
    }
}

/// What the language model took for the requests is measured as latencies are.
/// Where it was not timed, the times of the calls stand in.
pub proof fn law_llm_totals_measured_alike(
    concurrency: usize,
    mode: BenchmarkMode,
    run: Measurements,
    llm_totals: Seq<u128>,
    requests: Seq<TimingBreakdown>,
)
    ensures
        ({
            let result = autoagents_result_of(concurrency, mode, run, llm_totals);
            let alike = summary_of(
                "AutoAgents",
                concurrency,
                requests,
                run.total_duration,
                run.setup_duration,
                run.perf,
            );
            &&& llm_totals.len() == 0 ==> result.average_llm_total_ms == result.average_call_ms
            &&& llm_totals.len() == 0 ==> result.p95_llm_total_ms == result.p95_call_ms
            &&& 0 < llm_totals.len() < RANK_LIMIT ==> is_percentile(
                result.p95_llm_total_ms,
                llm_totals,
                95,
            )
            &&& 0 < llm_totals.len() == requests.len() && (forall|i: int|
                0 <= i < requests.len() ==> (#[trigger] requests[i]).total == llm_totals[i]) ==> {
                &&& result.average_llm_total_ms == alike.average_latency_ms
                &&& result.p95_llm_total_ms == alike.p95_latency_ms
            }
        }),
{
    if 0 < llm_totals.len() < RANK_LIMIT {
        lemma_percentiles(llm_totals);
    }
    if 0 < llm_totals.len() == requests.len() && (forall|i: int|
        0 <= i < requests.len() ==> (#[trigger] requests[i]).total == llm_totals[i]) {
        assert(llm_totals =~= latencies_of(requests));
    }
}

/// The average of what the language model took, where each total is a whole
/// count of 512ths of a second.
pub proof fn law_average_of_llm_totals(
    concurrency: usize,
    mode: BenchmarkMode,
    run: Measurements,
    llm_totals: Seq<u128>,
    counts: Seq<nat>,
)
    requires
        llm_totals.len() == counts.len() > 0,
        forall|i: int|
            0 <= i < llm_totals.len() ==> #[trigger] llm_totals[i] == counts[i] * PART,
        added(counts) < EXACT_LIMIT,
    ensures
        autoagents_result_of(concurrency, mode, run, llm_totals).average_llm_total_ms
            == Double::of(added(counts) as int).over(Double::of(512)).over(
            Double::of(llm_totals.len() as int),
        ).times(Double::of(1000)),
{
    lemma_mean_of_parts(llm_totals, counts);
}

/// What the language model took is counted by request: there is one total for
/// each request of the log, the sum of its calls, and no other.
pub proof fn law_totals_of_log(totals: Seq<u128>, log: CallLog, id: usize)
    requires
        are_request_totals(totals, log),
    ensures
        totals.len() == log.requests.dom().len(),
        log.requests.contains_key(id) ==> exists|i: int|
            0 <= i < totals.len() && #[trigger] totals[i] == total(log.requests[id]),
        forall|i: int|
            0 <= i < totals.len() ==> exists|other: usize| #[trigger]
                log.requests.contains_key(other) && #[trigger] totals[i] == total(
                    log.requests[other],
                ),
{
    let ids = choose|ids: Seq<usize>|
        {
            &&& #[trigger] lists_requests(ids, log.requests)
            &&& totals.map_values(|t: u128| t as nat) == totals_of(ids, log.requests)
        };
    let wide = totals.map_values(|t: u128| t as nat);
    law_each_request_has_its_total(ids, log.requests, id);
    assert(wide.len() == totals.len());
    if log.requests.contains_key(id) {
        let i = choose|i: int|
            {
                &&& 0 <= i < ids.len()
                &&& #[trigger] ids[i] == id
                &&& totals_of(ids, log.requests)[i] == total(log.requests[id])
            };
        assert(wide[i] == totals[i]);
    }
    assert forall|i: int| 0 <= i < totals.len() implies exists|other: usize| #[trigger]
        log.requests.contains_key(other) && #[trigger] totals[i] == total(
            log.requests[other],
        ) by {
        let other = ids[i];
        assert(ids.contains(other));
        assert(ids.to_set().contains(other));
        assert(log.requests.contains_key(other));
        assert(wide[i] == totals[i]);
        assert(totals_of(ids, log.requests)[i] == total(log.requests[other]));
    }
}

/// Nothing is left where as much is taken off as there is.
pub proof fn lemma_minus_all(a: Double, b: Double)
    requires
        a.bits < INFINITY,
        b.bits < INFINITY,
        units(a) <= units(b),
    ensures
        a.minus(b).bits == 0 || a.minus(b).bits >= SIGN,
        units(a) < units(b) ==> a.minus(b).bits >= SIGN,
{
    lemma_amount(a);
    lemma_amount(b);
    lemma_negated(b);
    let (m, e) = match meaning(a.bits) {
        Meaning::Finite { mantissa, exponent, .. } => (mantissa, exponent),
        _ => (0, 0),
    };
    let (n, f) = match meaning(b.bits) {
        Meaning::Finite { mantissa, exponent, .. } => (mantissa, exponent),
        _ => (0, 0),
    };
    let low = if e < f {
        e
    } else {
        f
    };
    let k = (low + 1074) as nat;
    let (p, q, r) = (pow2((e - low) as nat), pow2((f - low) as nat), pow2(k));
    lemma_pow2_adds((e - low) as nat, k);
    lemma_pow2_adds((f - low) as nat, k);
    lemma_pow2_pos(k);
    let sum = m * p - n * q;
    assert(sum * r == m * (p * r) - n * (q * r)) by (nonlinear_arith)
        requires
            sum == m * p - n * q,
    ;
    assert(sum <= 0 && (sum == 0 ==> sum * r == 0)) by (nonlinear_arith)
        requires
            sum * r <= 0,
            r > 0,
    ;
    if sum < 0 {
        lemma_rounded_sign((-sum) as nat, 1, low);
    }
}

/// What a time has over two others that make it up or more: nothing.
proof fn lemma_no_excess(time: Double, first: Double, second: Double)
    requires
        time.bits < INFINITY,
        first.bits < INFINITY,
        second.bits < INFINITY,
        units(time) <= units(first) + units(second),
    ensures
        excess_of(time, first, second) == (Double { bits: 0 }),
{
    let mid = time.minus(first);
    if units(time) >= units(first) {
        lemma_minus_units(time, first);
        lemma_rounded_units(second);
        lemma_rounded_ordered((units(time) - units(first)) as nat, units(second), 1, -1074);
        lemma_units_ordered(mid, second);
        lemma_minus_all(mid, second);
    } else {
        lemma_minus_all(time, first);
        lemma_minus_below(mid, second);
    }
}

/// What a time has over two others, where nothing is lost in taking them off.
proof fn lemma_exact_excess(
    time: Double,
    first: Double,
    second: Double,
    mid: Double,
    rest: Double,
)
    requires
        time.bits < INFINITY,
        first.bits < INFINITY,
        second.bits < INFINITY,
        mid.bits < INFINITY,
        rest.bits < INFINITY,
        units(mid) + units(first) == units(time),
        units(rest) + units(second) == units(mid),
    ensures
        excess_of(time, first, second) == rest,
{
    lemma_minus_exact(time, first, mid);
    lemma_minus_exact(mid, second, rest);
    lemma_amount(rest);
    lemma_of_units(0);
    lemma_amount(Double::of(0));
}

/// To take off two times is to take off one of them, and the other from what
/// is left.
proof fn lemma_excess_in_turn(time: Double, first: Double, second: Double)
    requires
        time.bits < INFINITY,
        first.bits < INFINITY,
        second.bits < INFINITY,
    ensures
        ({
            let zero = Double { bits: 0 };
            excess_of(excess_of(time, first, zero), zero, second) == excess_of(
                time,
                first,
                second,
            )
        }),
{
    let zero = Double { bits: 0 };
    lemma_of_units(0);
    assert(0 * pow2(1074) == 0);
    lemma_amount(zero);
    if units(time) >= units(first) {
        let mid = time.minus(first);
        lemma_minus_units(time, first);
        lemma_rounded_units(time);
        lemma_rounded_ordered((units(time) - units(first)) as nat, units(time), 1, -1074);
        lemma_minus_exact(mid, zero, mid);
        lemma_amount(mid);
        assert(excess_of(time, first, zero) == mid);
    } else {
        lemma_no_excess(time, first, zero);
        lemma_no_excess(zero, zero, second);
        lemma_no_excess(time, first, second);
    }
}

/// An overhead and the two times that were taken off make up the time of the
/// call, where nothing is lost in taking them off: that is, where what is left
/// after each step is a double. `after` holds what is left of the calls once
/// the language model's time is off, and `left` what is left in the end.
pub proof fn law_overhead_is_the_rest(
    tool: BenchmarkResult,
    llm: BenchmarkResult,
    after: Double,
    left: Double,
)
    requires
        after.bits < INFINITY,
        left.bits < INFINITY,
    ensures
        ({
            let result = with_overhead(tool, llm);
            &&& tool.average_call_ms.bits < INFINITY && llm.average_call_ms.bits < INFINITY
                && tool.average_tool_ms.bits < INFINITY && units(after) + units(
                llm.average_call_ms,
            ) == units(tool.average_call_ms) && units(left) + units(tool.average_tool_ms)
                == units(after) ==> result.average_framework_overhead_ms == left
            &&& tool.p95_call_ms.bits < INFINITY && llm.p95_call_ms.bits < INFINITY
                && tool.p95_tool_ms.bits < INFINITY && units(after) + units(llm.p95_call_ms)
                == units(tool.p95_call_ms) && units(left) + units(tool.p95_tool_ms) == units(
                after,
            ) ==> result.p95_framework_overhead_ms == left
            &&& tool.average_call_ms.bits < INFINITY && tool.average_llm_total_ms.bits < INFINITY
                && tool.average_tool_ms.bits < INFINITY && units(after) + units(
                tool.average_llm_total_ms,
            ) == units(tool.average_call_ms) && units(left) + units(tool.average_tool_ms)
                == units(after) ==> result.average_framework_overhead_corrected_ms == left
            &&& tool.p95_call_ms.bits < INFINITY && tool.p95_llm_total_ms.bits < INFINITY
                && tool.p95_tool_ms.bits < INFINITY && units(after) + units(
                tool.p95_llm_total_ms,
            ) == units(tool.p95_call_ms) && units(left) + units(tool.p95_tool_ms) == units(
                after,
            ) ==> result.p95_framework_overhead_corrected_ms == left
        }),
{
    let result = with_overhead(tool, llm);
    if tool.average_call_ms.bits < INFINITY && tool.average_tool_ms.bits < INFINITY && units(left)
        + units(tool.average_tool_ms) == units(after) {
        let (time, second) = (tool.average_call_ms, tool.average_tool_ms);
        if llm.average_call_ms.bits < INFINITY && units(after) + units(llm.average_call_ms)
            == units(time) {
            lemma_exact_excess(time, llm.average_call_ms, second, after, left);
        }
        if tool.average_llm_total_ms.bits < INFINITY && units(after) + units(
            tool.average_llm_total_ms,
        ) == units(time) {
            lemma_exact_excess(time, tool.average_llm_total_ms, second, after, left);
        }
    }
    if tool.p95_call_ms.bits < INFINITY && tool.p95_tool_ms.bits < INFINITY && units(left)
        + units(tool.p95_tool_ms) == units(after) {
        let (time, second) = (tool.p95_call_ms, tool.p95_tool_ms);
        if llm.p95_call_ms.bits < INFINITY && units(after) + units(llm.p95_call_ms) == units(
            time,
        ) {
            lemma_exact_excess(time, llm.p95_call_ms, second, after, left);
        }
        if tool.p95_llm_total_ms.bits < INFINITY && units(after) + units(tool.p95_llm_total_ms)
            == units(time) {
            lemma_exact_excess(time, tool.p95_llm_total_ms, second, after, left);
        }
    }
}

/// Where no tool took any time, an overhead is the double nearest to what the
/// calls have over those of the run without tools.
pub proof fn law_overhead_is_nearest(tool: BenchmarkResult, llm: BenchmarkResult)
    ensures
        ({
            let result = with_overhead(tool, llm);
            let zero = Double { bits: 0 };
            &&& tool.average_tool_ms == zero && tool.average_call_ms.bits < INFINITY
                && llm.average_call_ms.bits < INFINITY && units(llm.average_call_ms) <= units(
                tool.average_call_ms,
            ) ==> result.average_framework_overhead_ms.bits == rounded(
                false,
                (units(tool.average_call_ms) - units(llm.average_call_ms)) as nat,
                1,
                -1074,
            )
            &&& tool.p95_tool_ms == zero && tool.p95_call_ms.bits < INFINITY
                && llm.p95_call_ms.bits < INFINITY && units(llm.p95_call_ms) <= units(
                tool.p95_call_ms,
            ) ==> result.p95_framework_overhead_ms.bits == rounded(
                false,
                (units(tool.p95_call_ms) - units(llm.p95_call_ms)) as nat,
                1,
                -1074,
            )
        }),
{
    let zero = Double { bits: 0 };
    if tool.average_tool_ms == zero && tool.average_call_ms.bits < INFINITY
        && llm.average_call_ms.bits < INFINITY && units(llm.average_call_ms) <= units(
        tool.average_call_ms,
    ) {
        lemma_excess_over_one(tool.average_call_ms, llm.average_call_ms);
    }
    if tool.p95_tool_ms == zero && tool.p95_call_ms.bits < INFINITY && llm.p95_call_ms.bits
        < INFINITY && units(llm.p95_call_ms) <= units(tool.p95_call_ms) {
        lemma_excess_over_one(tool.p95_call_ms, llm.p95_call_ms);
    }
}

/// What a time has over one other.
proof fn lemma_excess_over_one(time: Double, first: Double)
    requires
        time.bits < INFINITY,
        first.bits < INFINITY,
        units(first) <= units(time),
    ensures
        excess_of(time, first, Double { bits: 0 }).bits == rounded(
            false,
            (units(time) - units(first)) as nat,
            1,
            -1074,
        ),
{
    let zero = Double { bits: 0 };
    lemma_of_units(0);
    assert(0 * pow2(1074) == 0);
    lemma_amount(zero);
    let mid = time.minus(first);
    lemma_minus_units(time, first);
    lemma_rounded_units(time);
    lemma_rounded_ordered((units(time) - units(first)) as nat, units(time), 1, -1074);
    lemma_minus_exact(mid, zero, mid);
    lemma_amount(mid);
}

/// Of whole milliseconds, every overhead and the two times that were taken off
/// add up to the time of the call.
pub proof fn law_whole_overheads_add_up(
    tool: BenchmarkResult,
    llm: BenchmarkResult,
    call: nat,
    model: nat,
    own: nat,
    tools: nat,
)
    requires
        model + tools <= call < EXACT_LIMIT,
        own + tools <= call,
    ensures
        ({
            let result = with_overhead(tool, llm);
            &&& tool.average_call_ms == Double::of(call as int) && llm.average_call_ms
                == Double::of(model as int) && tool.average_tool_ms == Double::of(tools as int)
                ==> {
                &&& result.average_framework_overhead_ms == Double::of(call - model - tools)
                &&& result.average_framework_overhead_ms.plus(llm.average_call_ms).plus(
                    tool.average_tool_ms,
                ) == tool.average_call_ms
            }
            &&& tool.p95_call_ms == Double::of(call as int) && llm.p95_call_ms == Double::of(
                model as int,
            ) && tool.p95_tool_ms == Double::of(tools as int) ==> {
                &&& result.p95_framework_overhead_ms == Double::of(call - model - tools)
                &&& result.p95_framework_overhead_ms.plus(llm.p95_call_ms).plus(tool.p95_tool_ms)
                    == tool.p95_call_ms
            }
            &&& tool.average_call_ms == Double::of(call as int) && tool.average_llm_total_ms
                == Double::of(own as int) && tool.average_tool_ms == Double::of(tools as int)
                ==> {
                &&& result.average_framework_overhead_corrected_ms == Double::of(
                    call - own - tools,
                )
                &&& result.average_framework_overhead_corrected_ms.plus(
                    tool.average_llm_total_ms,
                ).plus(tool.average_tool_ms) == tool.average_call_ms
            }
            &&& tool.p95_call_ms == Double::of(call as int) && tool.p95_llm_total_ms
                == Double::of(own as int) && tool.p95_tool_ms == Double::of(tools as int) ==> {
                &&& result.p95_framework_overhead_corrected_ms == Double::of(call - own - tools)
                &&& result.p95_framework_overhead_corrected_ms.plus(tool.p95_llm_total_ms).plus(
                    tool.p95_tool_ms,
                ) == tool.p95_call_ms
            }
        }),
{
    lemma_whole_excess(call, model, tools);
    lemma_whole_excess(call, own, tools);
}

/// What whole milliseconds have over two others.
proof fn lemma_whole_excess(call: nat, model: nat, tools: nat)
    requires
        model + tools <= call < EXACT_LIMIT,
    ensures
        excess_of(
            Double::of(call as int),
            Double::of(model as int),
            Double::of(tools as int),
        ) == Double::of(call - model - tools),
        Double::of(call - model - tools).plus(Double::of(model as int)).plus(
            Double::of(tools as int),
        ) == Double::of(call as int),
{
    lemma_of_minus(call, model);
    lemma_of_minus((call - model) as nat, tools);
    let left = (call - model - tools) as nat;
    lemma_of_plus(left, model);
    lemma_of_plus(left + model, tools);
    lemma_of_units(left);
    lemma_amount(Double::of(left as int));
    lemma_of_units(0);
    lemma_amount(Double::of(0));
}

/// Where the language model and the tools took as long as the calls or longer,
/// there is no overhead.
pub proof fn law_no_overhead_below_zero(tool: BenchmarkResult, llm: BenchmarkResult)
    ensures
        ({
            let result = with_overhead(tool, llm);
            let zero = Double { bits: 0 };
            &&& tool.average_call_ms.bits < INFINITY && llm.average_call_ms.bits < INFINITY
                && tool.average_tool_ms.bits < INFINITY && units(tool.average_call_ms) <= units(
                llm.average_call_ms,
            ) + units(tool.average_tool_ms) ==> result.average_framework_overhead_ms == zero
            &&& tool.p95_call_ms.bits < INFINITY && llm.p95_call_ms.bits < INFINITY
                && tool.p95_tool_ms.bits < INFINITY && units(tool.p95_call_ms) <= units(
                llm.p95_call_ms,
            ) + units(tool.p95_tool_ms) ==> result.p95_framework_overhead_ms == zero
            &&& tool.average_call_ms.bits < INFINITY && tool.average_llm_total_ms.bits < INFINITY
                && tool.average_tool_ms.bits < INFINITY && units(tool.average_call_ms) <= units(
                tool.average_llm_total_ms,
            ) + units(tool.average_tool_ms) ==> result.average_framework_overhead_corrected_ms
                == zero
            &&& tool.p95_call_ms.bits < INFINITY && tool.p95_llm_total_ms.bits < INFINITY
                && tool.p95_tool_ms.bits < INFINITY && units(tool.p95_call_ms) <= units(
                tool.p95_llm_total_ms,
            ) + units(tool.p95_tool_ms) ==> result.p95_framework_overhead_corrected_ms == zero
        }),
{
    let (a, b) = (tool.average_call_ms, tool.p95_call_ms);
    let (s, t) = (tool.average_tool_ms, tool.p95_tool_ms);
    if a.bits < INFINITY && s.bits < INFINITY {
        if llm.average_call_ms.bits < INFINITY && units(a) <= units(llm.average_call_ms) + units(
            s,
        ) {
            lemma_no_excess(a, llm.average_call_ms, s);
        }
        if tool.average_llm_total_ms.bits < INFINITY && units(a) <= units(
            tool.average_llm_total_ms,
        ) + units(s) {
            lemma_no_excess(a, tool.average_llm_total_ms, s);
        }
    }
    if b.bits < INFINITY && t.bits < INFINITY {
        if llm.p95_call_ms.bits < INFINITY && units(b) <= units(llm.p95_call_ms) + units(t) {
            lemma_no_excess(b, llm.p95_call_ms, t);
        }
        if tool.p95_llm_total_ms.bits < INFINITY && units(b) <= units(tool.p95_llm_total_ms)
            + units(t) {
            lemma_no_excess(b, tool.p95_llm_total_ms, t);
        }
    }
}

/// Of the run without tools, nothing counts but the times of its calls; and of
/// the results of the run with tools, nothing changes but the overheads.
pub proof fn law_overhead_takes_calls_alone(
    tool: BenchmarkResult,
    llm: BenchmarkResult,
    other: BenchmarkResult,
)
    ensures
        llm.average_call_ms == other.average_call_ms && llm.p95_call_ms == other.p95_call_ms
            ==> with_overhead(tool, llm) == with_overhead(tool, other),
        ({
            let result = with_overhead(tool, llm);
            result == (BenchmarkResult {
                average_framework_overhead_ms: result.average_framework_overhead_ms,
                p95_framework_overhead_ms: result.p95_framework_overhead_ms,
                average_framework_overhead_corrected_ms:
                    result.average_framework_overhead_corrected_ms,
                p95_framework_overhead_corrected_ms: result.p95_framework_overhead_corrected_ms,
                ..tool
            })
        }),
{
}

/// The corrected overhead is the overhead against a run whose calls took as
/// long as the language model did in the run itself.
pub proof fn law_corrected_overhead_takes_own_model(tool: BenchmarkResult, llm: BenchmarkResult)
    ensures
        ({
            let own = BenchmarkResult {
                average_call_ms: tool.average_llm_total_ms,
                p95_call_ms: tool.p95_llm_total_ms,
                ..llm
            };
            let result = with_overhead(tool, llm);
            let held = with_overhead(tool, own);
            &&& result.average_framework_overhead_corrected_ms
                == held.average_framework_overhead_ms
            &&& result.p95_framework_overhead_corrected_ms == held.p95_framework_overhead_ms
        }),
{
}

/// The times are taken off in turn: first the calls of the run without tools,
/// then the tools from what is left.
pub proof fn law_overhead_taken_off_in_turn(tool: BenchmarkResult, llm: BenchmarkResult)
    requires
        tool.average_call_ms.bits < INFINITY,
        tool.p95_call_ms.bits < INFINITY,
        tool.average_tool_ms.bits < INFINITY,
        tool.p95_tool_ms.bits < INFINITY,
        llm.average_call_ms.bits < INFINITY,
        llm.p95_call_ms.bits < INFINITY,
    ensures
        ({
            let zero = Double { bits: 0 };
            let toolless = BenchmarkResult { average_tool_ms: zero, p95_tool_ms: zero, ..tool };
            let first = with_overhead(toolless, llm);
            let rest = BenchmarkResult {
                average_call_ms: first.average_framework_overhead_ms,
                p95_call_ms: first.p95_framework_overhead_ms,
                ..tool
            };
            let nothing = BenchmarkResult { average_call_ms: zero, p95_call_ms: zero, ..llm };
            let second = with_overhead(rest, nothing);
            let result = with_overhead(tool, llm);
            &&& result.average_framework_overhead_ms == second.average_framework_overhead_ms
            &&& result.p95_framework_overhead_ms == second.p95_framework_overhead_ms
        }),
{
    lemma_excess_in_turn(tool.average_call_ms, llm.average_call_ms, tool.average_tool_ms);
    lemma_excess_in_turn(tool.p95_call_ms, llm.p95_call_ms, tool.p95_tool_ms);
}

} // verus!
