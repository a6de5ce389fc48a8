//! The results of a benchmark: what the timings of its requests add up to, and
//! how two runs compare.

use vstd::arithmetic::power2::pow2;
use vstd::prelude::*;

use crate::arith::Double;
use crate::config::{BenchmarkConfig, BenchmarkMode};
use crate::double::share_of;
use crate::monitor::PerformanceStats;
use crate::order::{
    is_amount, law_milliseconds_ordered, lemma_mean_is_amount, lemma_nothing_left,
    lemma_of_ordered, lemma_percentile_is_amount, lemma_share_at_most_one,
};
use crate::stats::{
    ascending, is_ascending, law_mean_ignores_order, law_percentile_ignores_order,
    law_percentiles_ascend, lemma_ascending_ensures, lemma_percentile_is_sample,
    lemma_permutation_step, mean_ms, mean_ms_of, percentile_ms, percentile_ms_of,
    percentile_sample, seconds, seconds_of, sort_samples, P95, P99,
};
use crate::timing::{
    elapsed, elapsed_since, lists_requests, total, totals_of, CallLog, LlmTimingRecorder,
};

verus! {

/// How long one request took, and whether it came to the expected value.
#[derive(Clone, Copy, Debug, PartialEq, Eq, Structural)]
pub struct TimingBreakdown {
    pub total: u64,
    pub queue_wait: u64,
    pub call: u64,
    pub status: bool,
}

/// The instants of one request.
#[derive(Clone, Copy, Debug, PartialEq, Eq, Structural)]
pub struct RequestInstants {
    pub submitted: u64,
    pub dequeued: u64,
    pub call_started: u64,
    pub call_ended: u64,
    pub finished: u64,
}

impl RequestInstants {
    /// The timings of the request.
    pub open spec fn breakdown(self, status: bool) -> TimingBreakdown {
        TimingBreakdown {
            total: elapsed(self.submitted, self.finished),
            queue_wait: elapsed(self.submitted, self.dequeued),
            call: elapsed(self.call_started, self.call_ended),
            status,
        }
    }
}

impl TimingBreakdown {
    /// The timings of a request, from its instants.
    pub fn from_instants(at: &RequestInstants, status: bool) -> (breakdown: TimingBreakdown)
        ensures
            breakdown == at.breakdown(status),
    {
        TimingBreakdown {
            total: elapsed_since(at.submitted, at.finished),
            queue_wait: elapsed_since(at.submitted, at.dequeued),
            call: elapsed_since(at.call_started, at.call_ended),
            status,
        }
    }
}

/// What a time has over two others together, and nothing where they are the
/// greater.
pub open spec fn excess_of(time: Double, first: Double, second: Double) -> Double {
    time.minus(first).minus(second).greater(Double::of(0))
}

/// What a time has over two others together.
fn excess(time: &Double, first: &Double, second: &Double) -> (rest: Double)
    ensures
        rest == excess_of(*time, *first, *second),
{
    time.subtract(first).subtract(second).max(&Double::from_u128(0))
}

/// The results of one measurement. Times in `_ms` are milliseconds, those in
/// `_s` are seconds, and `total_duration` is in nanoseconds.
#[derive(Clone, Copy, Debug)]
pub struct BenchmarkResult {
    pub name: &'static str,
    pub total_requests: usize,
    pub concurrency: usize,
    pub total_duration: u64,
    pub setup_duration_s: Double,
    pub throughput_rps: Double,
    pub throughput_success_rps: Double,
    pub average_latency_ms: Double,
    pub p95_latency_ms: Double,
    pub p99_latency_ms: Double,
    pub average_queue_ms: Double,
    pub p95_queue_ms: Double,
    pub average_call_ms: Double,
    pub p95_call_ms: Double,
    pub average_processing_ms: Double,
    pub p95_processing_ms: Double,
    pub average_tool_ms: Double,
    pub p95_tool_ms: Double,
    pub average_llm_total_ms: Double,
    pub p95_llm_total_ms: Double,
    pub average_framework_overhead_ms: Double,
    pub p95_framework_overhead_ms: Double,
    pub average_framework_overhead_corrected_ms: Double,
    pub p95_framework_overhead_corrected_ms: Double,
    pub total_success: usize,
    pub total_failure: usize,
    pub cpu_usage_percent: Double,
    pub memory_peak_mb: Double,
    pub determinism_rate: Double,
}

/// The latencies of some requests.
pub open spec fn latencies_of(requests: Seq<TimingBreakdown>) -> Seq<u128> {
    requests.map_values(|r: TimingBreakdown| r.total as u128)
}

/// The queue waits of some requests.
pub open spec fn queue_waits_of(requests: Seq<TimingBreakdown>) -> Seq<u128> {
    requests.map_values(|r: TimingBreakdown| r.queue_wait as u128)
}

/// The call times of some requests.
pub open spec fn calls_of(requests: Seq<TimingBreakdown>) -> Seq<u128> {
    requests.map_values(|r: TimingBreakdown| r.call as u128)
}

/// What some requests took beside their calls.
pub open spec fn processing_of(requests: Seq<TimingBreakdown>) -> Seq<u128> {
    requests.map_values(|r: TimingBreakdown| elapsed(r.call, r.total) as u128)
}

/// How many requests came to the expected value.
pub open spec fn successes(requests: Seq<TimingBreakdown>) -> nat
    decreases requests.len(),
{
    if requests.len() == 0 {
        0
    } else {
        successes(requests.drop_last()) + if requests.last().status {
            1nat
        } else {
            0nat
        }
    }
}

/// The distance of doubles above one, by its bit pattern.
pub const EPSILON: u64 = 4_372_995_238_176_751_616;

/// `count` events per second over `nanos` nanoseconds. No time at all counts
/// as `EPSILON` seconds.
pub open spec fn per_second(count: nat, nanos: u64) -> Double {
    Double::of(count as int).over(
        seconds_of(nanos as u128).greater(Double { bits: EPSILON }),
    )
}

/// The results that the timings of some requests add up to. What tools and
/// language models took is not among the timings, and is zero.
pub open spec fn summary_of(
    name: &'static str,
    concurrency: usize,
    requests: Seq<TimingBreakdown>,
    total_duration: u64,
    setup_duration: u64,
    perf: PerformanceStats,
) -> BenchmarkResult {
    let none = requests.len() == 0;
    BenchmarkResult {
        name,
        total_requests: requests.len() as usize,
        concurrency,
        total_duration,
        setup_duration_s: seconds_of(setup_duration as u128),
        throughput_rps: if none {
            Double::of(0)
        } else {
            per_second(requests.len(), total_duration)
        },
        throughput_success_rps: if none {
            Double::of(0)
        } else {
            per_second(successes(requests), total_duration)
        },
        average_latency_ms: mean_ms_of(latencies_of(requests)),
        p95_latency_ms: percentile_ms_of(latencies_of(requests), P95),
        p99_latency_ms: percentile_ms_of(latencies_of(requests), P99),
        average_queue_ms: mean_ms_of(queue_waits_of(requests)),
        p95_queue_ms: percentile_ms_of(queue_waits_of(requests), P95),
        average_call_ms: mean_ms_of(calls_of(requests)),
        p95_call_ms: percentile_ms_of(calls_of(requests), P95),
        average_processing_ms: mean_ms_of(processing_of(requests)),
        p95_processing_ms: percentile_ms_of(processing_of(requests), P95),
        average_tool_ms: Double::of(0),
        p95_tool_ms: Double::of(0),
        average_llm_total_ms: Double::of(0),
        p95_llm_total_ms: Double::of(0),
        average_framework_overhead_ms: Double::of(0),
        p95_framework_overhead_ms: Double::of(0),
        average_framework_overhead_corrected_ms: Double::of(0),
        p95_framework_overhead_corrected_ms: Double::of(0),
        total_success: successes(requests) as usize,
        total_failure: (requests.len() - successes(requests)) as usize,
        cpu_usage_percent: perf.cpu_usage_percent,
        memory_peak_mb: perf.memory_peak_mb,
        determinism_rate: if none {
            Double::of(0)
        } else {
            Double::of(successes(requests) as int).over(Double::of(requests.len() as int))
        },
    }
}

/// No more requests succeed than there are.
pub proof fn lemma_successes_bound(requests: Seq<TimingBreakdown>)
    ensures
        successes(requests) <= requests.len(),
    decreases requests.len(),
{
    if requests.len() > 0 {
        lemma_successes_bound(requests.drop_last());
    }
}

/// How many requests came to the expected value.
fn count_successes(requests: &Vec<TimingBreakdown>) -> (count: usize)
    ensures
        count == successes(requests@),
{
    let mut count: usize = 0;
    let mut i: usize = 0;
    while i < requests.len()
        invariant
            i <= requests@.len(),
            count <= i,
            count == successes(requests@.take(i as int)),
        decreases requests@.len() - i,
    {
        assert(requests@.take(i + 1).drop_last() =~= requests@.take(i as int));
        assert(requests@.take(i + 1).last() == requests@[i as int]);
        if requests[i].status {
            count = count + 1;
        }
        i = i + 1;
    }
    assert(requests@.take(i as int) =~= requests@);
    count
}

/// `count` events per second over `nanos` nanoseconds.
fn rate(count: usize, nanos: u64) -> (per_sec: Double)
    ensures
        per_sec == per_second(count as nat, nanos),
{
    let secs = seconds(nanos as u128).max(&Double { bits: EPSILON });
    Double::from_u128(count as u128).divide(&secs)
}

/// The mean of some samples, and the samples in ascending order.
fn mean_and_sort(samples: Vec<u128>) -> (res: (Double, Vec<u128>))
    ensures
        res.0 == mean_ms_of(samples@),
        forall|percentile: u64|
            #[trigger] percentile_ms_of(res.1@, percentile) == percentile_ms_of(
                samples@,
                percentile,
            ),
        is_ascending(res.1@),
{
    let mut sorted = samples;
    sort_samples(&mut sorted);
    proof {
        lemma_ascending_ensures(samples@);
        law_mean_ignores_order(sorted@, samples@);
        assert forall|percentile: u64|
            #[trigger] percentile_ms_of(sorted@, percentile) == percentile_ms_of(
                samples@,
                percentile,
            ) by {
            law_percentile_ignores_order(sorted@, samples@, percentile);
        }
    }
    (mean_ms(&sorted), sorted)
}

/// Adds up the timings of some requests.
pub fn summarize(
    name: &'static str,
    config: &BenchmarkConfig,
    breakdowns: &Vec<TimingBreakdown>,
    total_duration: u64,
    setup_duration: u64,
    perf: &PerformanceStats,
) -> (result: BenchmarkResult)
    ensures
        result == summary_of(
            name,
            config.concurrency,
            breakdowns@,
            total_duration,
            setup_duration,
            *perf,
        ),
{
    let n: usize = breakdowns.len();
    let mut totals: Vec<u128> = Vec::new();
    let mut queue_waits: Vec<u128> = Vec::new();
    let mut calls: Vec<u128> = Vec::new();
    let mut processing: Vec<u128> = Vec::new();
    let mut i: usize = 0;
    while i < n
        invariant
            i <= n,
            n == breakdowns@.len(),
            totals@ == latencies_of(breakdowns@.take(i as int)),
            queue_waits@ == queue_waits_of(breakdowns@.take(i as int)),
            calls@ == calls_of(breakdowns@.take(i as int)),
            processing@ == processing_of(breakdowns@.take(i as int)),
        decreases n - i,
    {
        let b = breakdowns[i];
        totals.push(b.total as u128);
        queue_waits.push(b.queue_wait as u128);
        calls.push(b.call as u128);
        processing.push(elapsed_since(b.call, b.total) as u128);
        proof {
            let seen = breakdowns@.take(i + 1);
            assert(seen =~= breakdowns@.take(i as int).push(b));
            assert(totals@ =~= latencies_of(seen));
            assert(queue_waits@ =~= queue_waits_of(seen));
            assert(calls@ =~= calls_of(seen));
            assert(processing@ =~= processing_of(seen));
        }
        i = i + 1;
    }
    proof {
        assert(breakdowns@.take(n as int) =~= breakdowns@);
        lemma_successes_bound(breakdowns@);
    }
    let (average_latency_ms, totals) = mean_and_sort(totals);
    let (average_queue_ms, queue_waits) = mean_and_sort(queue_waits);
    let (average_call_ms, calls) = mean_and_sort(calls);
    let (average_processing_ms, processing) = mean_and_sort(processing);
    let total_success = count_successes(breakdowns);
    let zero = Double::from_u128(0);
    let (throughput_rps, throughput_success_rps, determinism_rate) = if n == 0 {
        (zero, zero, zero)
    } else {
        (
            rate(n, total_duration),
            rate(total_success, total_duration),
            Double::from_u128(total_success as u128).divide(&Double::from_u128(n as u128)),
        )
    };
    BenchmarkResult {
        name,
        total_requests: n,
        concurrency: config.concurrency,
        total_duration,
        setup_duration_s: seconds(setup_duration as u128),
        throughput_rps,
        throughput_success_rps,
        average_latency_ms,
        p95_latency_ms: percentile_ms(&totals, P95),
        p99_latency_ms: percentile_ms(&totals, P99),
        average_queue_ms,
        p95_queue_ms: percentile_ms(&queue_waits, P95),
        average_call_ms,
        p95_call_ms: percentile_ms(&calls, P95),
        average_processing_ms,
        p95_processing_ms: percentile_ms(&processing, P95),
        average_tool_ms: zero,
        p95_tool_ms: zero,
        average_llm_total_ms: zero,
        p95_llm_total_ms: zero,
        average_framework_overhead_ms: zero,
        p95_framework_overhead_ms: zero,
        average_framework_overhead_corrected_ms: zero,
        p95_framework_overhead_corrected_ms: zero,
        total_success,
        total_failure: n - total_success,
        cpu_usage_percent: perf.cpu_usage_percent,
        memory_peak_mb: perf.memory_peak_mb,
        determinism_rate,
    }
}

/// Durations, as samples.
pub open spec fn samples_of(durations: Seq<u64>) -> Seq<u128> {
    durations.map_values(|d: u64| d as u128)
}

/// The tool executions that count: outside tool mode there are none.
pub open spec fn counted_tools(mode: BenchmarkMode, tools: Seq<u64>) -> Seq<u128> {
    if mode is Tool {
        samples_of(tools)
    } else {
        Seq::empty()
    }
}

/// `result` with the times of some tool executions.
pub open spec fn with_tools(result: BenchmarkResult, tools: Seq<u128>) -> BenchmarkResult {
    BenchmarkResult {
        average_tool_ms: mean_ms_of(tools),
        p95_tool_ms: percentile_ms_of(tools, P95),
        ..result
    }
}

/// `result` with the times of its calls taken for those of the language model.
pub open spec fn with_calls_as_llm(result: BenchmarkResult) -> BenchmarkResult {
    BenchmarkResult {
        average_llm_total_ms: result.average_call_ms,
        p95_llm_total_ms: result.p95_call_ms,
        ..result
    }
}

/// `result` with what the language model took for each request. Where no
/// request is known to have called it, the times of the calls stand in.
pub open spec fn with_llm_totals(result: BenchmarkResult, totals: Seq<u128>) -> BenchmarkResult {
    if totals.len() == 0 {
        with_calls_as_llm(result)
    } else {
        BenchmarkResult {
            average_llm_total_ms: mean_ms_of(totals),
            p95_llm_total_ms: percentile_ms_of(totals, P95),
            ..result
        }
    }
}

/// What was measured in one run of a framework.
pub struct Measurements {
    pub breakdowns: Vec<TimingBreakdown>,
    pub total_duration: u64,
    pub setup_duration: u64,
    pub perf: PerformanceStats,
    pub tool_durations: Vec<u64>,
}

/// The results of an AutoAgents run, given what the language model took for
/// each request.
pub open spec fn autoagents_result_of(
    concurrency: usize,
    mode: BenchmarkMode,
    run: Measurements,
    llm_totals: Seq<u128>,
) -> BenchmarkResult {
    let summary = summary_of(
        "AutoAgents",
        concurrency,
        run.breakdowns@,
        run.total_duration,
        run.setup_duration,
        run.perf,
    );
    with_llm_totals(with_tools(summary, counted_tools(mode, run.tool_durations@)), llm_totals)
}

/// The results of a Rig run. Its calls to the language model are not timed one
/// by one: the times of the requests' calls stand for them.
pub open spec fn rig_result_of(
    concurrency: usize,
    mode: BenchmarkMode,
    run: Measurements,
) -> BenchmarkResult {
    let summary = summary_of(
        "Rig",
        concurrency,
        run.breakdowns@,
        run.total_duration,
        run.setup_duration,
        run.perf,
    );
    with_calls_as_llm(with_tools(summary, counted_tools(mode, run.tool_durations@)))
}

/// The mean and the 95th percentile of some samples.
fn mean_and_p95(samples: Vec<u128>) -> (res: (Double, Double))
    ensures
        res.0 == mean_ms_of(samples@),
        res.1 == percentile_ms_of(samples@, P95),
{
    let (mean, sorted) = mean_and_sort(samples);
    let p95 = percentile_ms(&sorted, P95);
    assert(p95 == percentile_ms_of(samples@, P95));
    (mean, p95)
}

/// The tool executions that count, as samples.
fn count_tools(mode: BenchmarkMode, tools: &Vec<u64>) -> (samples: Vec<u128>)
    ensures
        samples@ == counted_tools(mode, tools@),
{
    let mut samples: Vec<u128> = Vec::new();
    if matches!(mode, BenchmarkMode::LlmOnly) {
        return samples;
    }
    let mut i: usize = 0;
    while i < tools.len()
        invariant
            i <= tools@.len(),
            samples@ == samples_of(tools@.take(i as int)),
        decreases tools@.len() - i,
    {
        samples.push(tools[i] as u128);
        assert(samples@ =~= samples_of(tools@.take(i + 1)));
        i = i + 1;
    }
    assert(tools@.take(i as int) =~= tools@);
    samples
}

/// The results of an AutoAgents run, given what the language model took for
/// each request.
pub fn autoagents_result(
    config: &BenchmarkConfig,
    mode: BenchmarkMode,
    run: &Measurements,
    llm_totals: Vec<u128>,
) -> (result: BenchmarkResult)
    ensures
        result == autoagents_result_of(config.concurrency, mode, *run, llm_totals@),
{
    let (average_tool_ms, p95_tool_ms) = mean_and_p95(count_tools(mode, &run.tool_durations));
    let mut result = summarize(
        "AutoAgents",
        config,
        &run.breakdowns,
        run.total_duration,
        run.setup_duration,
        &run.perf,
    );
    result.average_tool_ms = average_tool_ms;
    result.p95_tool_ms = p95_tool_ms;
    if llm_totals.len() == 0 {
        result.average_llm_total_ms = result.average_call_ms;
        result.p95_llm_total_ms = result.p95_call_ms;
    } else {
        let (average, p95) = mean_and_p95(llm_totals);
        result.average_llm_total_ms = average;
        result.p95_llm_total_ms = p95;
    }
    result
}

/// `totals` are those of the requests of a log, in some order.
pub open spec fn are_request_totals(totals: Seq<u128>, log: CallLog) -> bool {
    exists|ids: Seq<usize>|
        {
            &&& #[trigger] lists_requests(ids, log.requests)
            &&& totals.map_values(|t: u128| t as nat) == totals_of(ids, log.requests)
        }
}

/// The results of an AutoAgents run, given the calls to the language model.
pub fn finish_autoagents(
    config: &BenchmarkConfig,
    mode: BenchmarkMode,
    run: &Measurements,
    llm_timings: &LlmTimingRecorder,
) -> (result: BenchmarkResult)
    ensures
        exists|totals: Seq<u128>|
            {
                &&& #[trigger] are_request_totals(totals, llm_timings@)
                &&& result == autoagents_result_of(config.concurrency, mode, *run, totals)
            },
{
    let totals = llm_timings.snapshot_request_totals();
    assert(are_request_totals(totals@, llm_timings@));
    autoagents_result(config, mode, run, totals)
}

/// The results of a Rig run.
pub fn finish_rig(config: &BenchmarkConfig, mode: BenchmarkMode, run: &Measurements) -> (result:
    BenchmarkResult)
    ensures
        result == rig_result_of(config.concurrency, mode, *run),
{
    let (average_tool_ms, p95_tool_ms) = mean_and_p95(count_tools(mode, &run.tool_durations));
    let mut result = summarize(
        "Rig",
        config,
        &run.breakdowns,
        run.total_duration,
        run.setup_duration,
        &run.perf,
    );
    result.average_tool_ms = average_tool_ms;
    result.p95_tool_ms = p95_tool_ms;
    result.average_llm_total_ms = result.average_call_ms;
    result.p95_llm_total_ms = result.p95_call_ms;
    result
}

/// The results of a run with tools, held against those of a run without.
pub open spec fn with_overhead(tool: BenchmarkResult, llm: BenchmarkResult) -> BenchmarkResult {
    BenchmarkResult {
        average_framework_overhead_ms: excess_of(
            tool.average_call_ms,
            llm.average_call_ms,
            tool.average_tool_ms,
        ),
        p95_framework_overhead_ms: excess_of(tool.p95_call_ms, llm.p95_call_ms, tool.p95_tool_ms),
        average_framework_overhead_corrected_ms: excess_of(
            tool.average_call_ms,
            tool.average_llm_total_ms,
            tool.average_tool_ms,
        ),
        p95_framework_overhead_corrected_ms: excess_of(
            tool.p95_call_ms,
            tool.p95_llm_total_ms,
            tool.p95_tool_ms,
        ),
        ..tool
    }
}

/// Holds the results of a run with tools against those of a run without.
pub fn apply_overhead_metrics(tool_result: &mut BenchmarkResult, llm_result: &BenchmarkResult)
    ensures
        *final(tool_result) == with_overhead(*old(tool_result), *llm_result),
{
    let tool = *tool_result;
    tool_result.average_framework_overhead_ms = excess(
        &tool.average_call_ms,
        &llm_result.average_call_ms,
        &tool.average_tool_ms,
    );
    tool_result.p95_framework_overhead_ms = excess(
        &tool.p95_call_ms,
        &llm_result.p95_call_ms,
        &tool.p95_tool_ms,
    );
    tool_result.average_framework_overhead_corrected_ms = excess(
        &tool.average_call_ms,
        &tool.average_llm_total_ms,
        &tool.average_tool_ms,
    );
    tool_result.p95_framework_overhead_corrected_ms = excess(
        &tool.p95_call_ms,
        &tool.p95_llm_total_ms,
        &tool.p95_tool_ms,
    );
}

/// Each request of a run either succeeds or fails.
pub proof fn law_requests_counted(
    name: &'static str,
    concurrency: usize,
    requests: Seq<TimingBreakdown>,
    total_duration: u64,
    setup_duration: u64,
    perf: PerformanceStats,
)
    requires
        requests.len() <= usize::MAX,
    ensures
        ({
            let result = summary_of(
                name,
                concurrency,
                requests,
                total_duration,
                setup_duration,
                perf,
            );
            &&& result.total_requests == requests.len()
            &&& result.total_success + result.total_failure == result.total_requests
        }),
{
    lemma_successes_bound(requests);
}

/// Where the instants of a request follow each other, its wait and its call
/// fit in its total time.
pub proof fn law_wait_and_call_within_total(at: RequestInstants, status: bool)
    requires
        at.submitted <= at.dequeued <= at.call_started <= at.call_ended <= at.finished,
    ensures
        at.breakdown(status).queue_wait + at.breakdown(status).call <= at.breakdown(status).total,
{
}

/// What a request took beside its call is the rest of its latency.
pub proof fn law_processing_is_the_rest(requests: Seq<TimingBreakdown>, i: int)
    requires
        0 <= i < requests.len(),
        requests[i].call <= requests[i].total,
    ensures
        processing_of(requests)[i] + calls_of(requests)[i] == latencies_of(requests)[i],
{
}

/// What is taken of each of some items does not depend on their order.
proof fn lemma_map_permutation<A, B>(s: Seq<A>, t: Seq<A>, f: spec_fn(A) -> B)
    requires
        s.to_multiset() == t.to_multiset(),
    ensures
        s.map_values(f).to_multiset() == t.map_values(f).to_multiset(),
    decreases s.len(),
{
    broadcast use vstd::seq_lib::group_to_multiset_ensures;

    if s.len() == 0 {
        s.to_multiset_ensures();
        t.to_multiset_ensures();
        assert(s.map_values(f) =~= t.map_values(f));
    } else {
        let j = lemma_permutation_step(s, t);
        let x = f(s.last());
        let a = s.map_values(f);
        let b = t.map_values(f);
        lemma_map_permutation(s.drop_last(), t.remove(j), f);
        assert(a =~= s.drop_last().map_values(f).push(x));
        assert(b.remove(j) =~= t.remove(j).map_values(f));
        assert(b.to_multiset().count(x) > 0) by {
            b.to_multiset_ensures();
            assert(b[j] == x);
            assert(b.contains(x));
        }
        assert(b.remove(j).to_multiset() =~= b.to_multiset().remove(x));
        assert(b.to_multiset() =~= b.remove(j).to_multiset().insert(x));
    }
}

/// One request taken out of the count of successes.
proof fn lemma_successes_remove(requests: Seq<TimingBreakdown>, j: int)
    requires
        0 <= j < requests.len(),
    ensures
        successes(requests) == successes(requests.remove(j)) + if requests[j].status {
            1nat
        } else {
            0nat
        },
    decreases requests.len(),
{
    if j == requests.len() - 1 {
        assert(requests.remove(j) =~= requests.drop_last());
    } else {
        lemma_successes_remove(requests.drop_last(), j);
        assert(requests.remove(j).drop_last() =~= requests.drop_last().remove(j));
        assert(requests.remove(j).last() == requests.last());
    }
}

/// The count of successes does not depend on the order of the requests.
proof fn lemma_successes_permutation(s: Seq<TimingBreakdown>, t: Seq<TimingBreakdown>)
    requires
        s.to_multiset() == t.to_multiset(),
    ensures
        successes(s) == successes(t),
    decreases s.len(),
{
    if s.len() == 0 {
        s.to_multiset_ensures();
        t.to_multiset_ensures();
    } else {
        let j = lemma_permutation_step(s, t);
        lemma_successes_permutation(s.drop_last(), t.remove(j));
        lemma_successes_remove(t, j);
    }
}

/// The results do not depend on the order in which the requests end.
pub proof fn law_summary_ignores_order(
    name: &'static str,
    concurrency: usize,
    s: Seq<TimingBreakdown>,
    t: Seq<TimingBreakdown>,
    total_duration: u64,
    setup_duration: u64,
    perf: PerformanceStats,
)
    requires
        s.to_multiset() == t.to_multiset(),
    ensures
        summary_of(name, concurrency, s, total_duration, setup_duration, perf) == summary_of(
            name,
            concurrency,
            t,
            total_duration,
            setup_duration,
            perf,
        ),
{
    s.to_multiset_ensures();
    t.to_multiset_ensures();
    lemma_successes_permutation(s, t);
    lemma_map_permutation(s, t, |r: TimingBreakdown| r.total as u128);
    lemma_map_permutation(s, t, |r: TimingBreakdown| r.queue_wait as u128);
    lemma_map_permutation(s, t, |r: TimingBreakdown| r.call as u128);
    lemma_map_permutation(s, t, |r: TimingBreakdown| elapsed(r.call, r.total) as u128);
    law_mean_ignores_order(latencies_of(s), latencies_of(t));
    law_mean_ignores_order(queue_waits_of(s), queue_waits_of(t));
    law_mean_ignores_order(calls_of(s), calls_of(t));
    law_mean_ignores_order(processing_of(s), processing_of(t));
    law_percentile_ignores_order(latencies_of(s), latencies_of(t), P95);
    law_percentile_ignores_order(latencies_of(s), latencies_of(t), P99);
    law_percentile_ignores_order(queue_waits_of(s), queue_waits_of(t), P95);
    law_percentile_ignores_order(calls_of(s), calls_of(t), P95);
    law_percentile_ignores_order(processing_of(s), processing_of(t), P95);
}

/// Two listings of the same requests differ in order alone.
proof fn lemma_listings_permute(a: Seq<usize>, b: Seq<usize>, requests: Map<usize, Seq<u64>>)
    requires
        lists_requests(a, requests),
        lists_requests(b, requests),
    ensures
        a.to_multiset() == b.to_multiset(),
{
    a.to_multiset_ensures();
    b.to_multiset_ensures();
    a.lemma_multiset_has_no_duplicates();
    b.lemma_multiset_has_no_duplicates();
    assert forall|x: usize| a.to_multiset().count(x) == b.to_multiset().count(x) by {
        assert(a.to_set().contains(x) == b.to_set().contains(x));
        assert(a.contains(x) == b.contains(x));
        assert(a.to_multiset().contains(x) == b.to_multiset().contains(x));
    }
    assert(a.to_multiset() =~= b.to_multiset());
}

/// In whatever order the totals of the requests are taken from the log of
/// calls, an AutoAgents run has the same results.
pub proof fn law_autoagents_result_unique(
    concurrency: usize,
    mode: BenchmarkMode,
    run: Measurements,
    log: CallLog,
    a: Seq<u128>,
    b: Seq<u128>,
)
    requires
        are_request_totals(a, log),
        are_request_totals(b, log),
    ensures
        autoagents_result_of(concurrency, mode, run, a) == autoagents_result_of(
            concurrency,
            mode,
            run,
            b,
        ),
{
    let wide = |t: u128| t as nat;
    let narrow = |t: nat| t as u128;
    let i = choose|ids: Seq<usize>|
        {
            &&& #[trigger] lists_requests(ids, log.requests)
            &&& a.map_values(wide) == totals_of(ids, log.requests)
        };
    let k = choose|ids: Seq<usize>|
        {
            &&& #[trigger] lists_requests(ids, log.requests)
            &&& b.map_values(wide) == totals_of(ids, log.requests)
        };
    lemma_listings_permute(i, k, log.requests);
    lemma_map_permutation(i, k, |id: usize| total(log.requests[id]));
    lemma_map_permutation(a.map_values(wide), b.map_values(wide), narrow);
    assert(a.map_values(wide).map_values(narrow) =~= a);
    assert(b.map_values(wide).map_values(narrow) =~= b);
    a.to_multiset_ensures();
    b.to_multiset_ensures();
    law_mean_ignores_order(a, b);
    law_percentile_ignores_order(a, b, P95);
}

/// The 95th percentile of the latencies is at most the 99th, as doubles are
/// ordered.
pub proof fn law_p95_within_p99(
    name: &'static str,
    concurrency: usize,
    requests: Seq<TimingBreakdown>,
    total_duration: u64,
    setup_duration: u64,
    perf: PerformanceStats,
)
    ensures
        ({
            let result = summary_of(
                name,
                concurrency,
                requests,
                total_duration,
                setup_duration,
                perf,
            );
            &&& result.p95_latency_ms.bits <= result.p99_latency_ms.bits
            &&& is_amount(result.p99_latency_ms)
        }),
{
    let s = latencies_of(requests);
    lemma_percentile_is_amount(s, P99);
    if requests.len() > 0 {
        let (low, high) = (share_of(P95), share_of(P99));
        assert(low.mantissa <= high.mantissa && low.scale == high.scale);
        let unit = pow2(low.scale as nat);
        assert(low.mantissa * unit <= high.mantissa * unit) by (nonlinear_arith)
            requires
                low.mantissa <= high.mantissa,
                unit >= 0,
        ;
        law_percentiles_ascend(s, P95, P99);
        let (a, b) = (percentile_sample(s, P95), percentile_sample(s, P99));
        lemma_percentile_is_sample(s, P99);
        let i = choose|i: int| 0 <= i < s.len() && s[i] == b;
        assert(b == requests[i].total);
        law_milliseconds_ordered(a as u64, b as u64);
    }
}

/// The share of requests that succeed lies between zero and one.
pub proof fn law_determinism_is_a_share(
    name: &'static str,
    concurrency: usize,
    requests: Seq<TimingBreakdown>,
    total_duration: u64,
    setup_duration: u64,
    perf: PerformanceStats,
)
    requires
        requests.len() <= usize::MAX,
    ensures
        summary_of(
            name,
            concurrency,
            requests,
            total_duration,
            setup_duration,
            perf,
        ).determinism_rate.bits <= Double::of(1).bits,
{
    lemma_successes_bound(requests);
    if requests.len() > 0 {
        lemma_share_at_most_one(successes(requests), requests.len());
    } else {
        lemma_of_ordered(0, 1);
    }
}

/// With the calls of a Rig run taken for its language model, nothing is left
/// once they are taken off: its corrected overhead is zero.
pub proof fn law_rig_corrected_overhead_is_zero(
    concurrency: usize,
    mode: BenchmarkMode,
    run: Measurements,
    llm: BenchmarkResult,
)
    requires
        run.breakdowns@.len() <= usize::MAX,
        run.tool_durations@.len() <= usize::MAX,
    ensures
        ({
            let compared = with_overhead(rig_result_of(concurrency, mode, run), llm);
            &&& compared.average_framework_overhead_corrected_ms == Double::of(0)
            &&& compared.p95_framework_overhead_corrected_ms == Double::of(0)
        }),
{
    let calls = calls_of(run.breakdowns@);
    let tools = counted_tools(mode, run.tool_durations@);
    lemma_ascending_ensures(calls);
    lemma_ascending_ensures(tools);
    lemma_mean_is_amount(ascending(calls));
    lemma_mean_is_amount(ascending(tools));
    lemma_percentile_is_amount(calls, P95);
    lemma_percentile_is_amount(tools, P95);
    lemma_nothing_left(mean_ms_of(calls), mean_ms_of(tools));
    lemma_nothing_left(percentile_ms_of(calls, P95), percentile_ms_of(tools, P95));
}

} // verus!
