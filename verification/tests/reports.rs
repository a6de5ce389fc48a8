//! Results, how they compare, and the document that they are kept in.

use agent_bench::arith::Double;
use agent_bench::config::{BenchmarkConfig, BenchmarkMode};
use agent_bench::document::{add_entry, entry_fields, persist_entry, DocumentError, Field};
use agent_bench::monitor::PerformanceStats;
use agent_bench::report::{
    apply_overhead_metrics, autoagents_result, finish_autoagents, finish_rig, summarize,
    BenchmarkResult, Measurements, RequestInstants, TimingBreakdown,
};
use agent_bench::timing::LlmTimingRecorder;
use serde_json::Value;
use std::time::Duration;

fn config() -> BenchmarkConfig {
    BenchmarkConfig {
        total_requests: 4,
        concurrency: 2,
        prompt_template: String::new(),
        model: String::new(),
        request_timeout_secs: 0,
    }
}

fn perf() -> PerformanceStats {
    PerformanceStats {
        cpu_usage_percent: double(2.5),
        memory_peak_mb: double(7.0),
    }
}

fn ms(millis: u64) -> u64 {
    millis * 1_000_000
}

fn request(total: u64, queue_wait: u64, call: u64, status: bool) -> TimingBreakdown {
    TimingBreakdown { total: ms(total), queue_wait: ms(queue_wait), call: ms(call), status }
}

fn requests() -> Vec<TimingBreakdown> {
    vec![
        request(100, 10, 80, true),
        request(400, 0, 400, false),
        request(200, 20, 150, true),
        request(300, 30, 250, true),
    ]
}

fn measured(tool_durations: Vec<u64>) -> Measurements {
    Measurements {
        breakdowns: requests(),
        total_duration: ms(2000),
        setup_duration: ms(250),
        perf: perf(),
        tool_durations,
    }
}

fn number(double: Double) -> f64 {
    f64::from_bits(double.bits)
}

fn double(number: f64) -> Double {
    Double { bits: number.to_bits() }
}

fn shown(result: &BenchmarkResult) -> String {
    format!("{result:?}")
}

#[test]
fn timings_from_instants() {
    let at = RequestInstants {
        submitted: 100,
        dequeued: 130,
        call_started: 131,
        call_ended: 190,
        finished: 200,
    };
    let breakdown = TimingBreakdown::from_instants(&at, true);
    assert_eq!(
        breakdown,
        TimingBreakdown { total: 100, queue_wait: 30, call: 59, status: true }
    );
    assert!(breakdown.queue_wait + breakdown.call <= breakdown.total);
}

#[test]
fn summary_of_four_requests() {
    let r = summarize("X", &config(), &requests(), ms(2000), ms(250), &perf());
    assert_eq!(r.name, "X");
    assert_eq!((r.total_requests, r.concurrency, r.total_duration), (4, 2, ms(2000)));
    assert_eq!((r.total_success, r.total_failure), (3, 1));
    assert_eq!(number(r.setup_duration_s), 0.25);
    assert_eq!(number(r.throughput_rps), 2.0);
    assert_eq!(number(r.throughput_success_rps), 1.5);
    assert_eq!(number(r.determinism_rate), 0.75);
    assert_eq!(number(r.average_latency_ms), 250.0);
    assert_eq!(number(r.p95_latency_ms), 400.0);
    assert_eq!(number(r.p99_latency_ms), 400.0);
    assert_eq!(number(r.average_queue_ms), 15.0);
    assert_eq!(number(r.p95_queue_ms), 30.0);
    assert_eq!(number(r.average_call_ms), 220.0);
    assert_eq!(number(r.p95_call_ms), 400.0);
    assert_eq!(number(r.average_processing_ms), (0.02 + 0.05 + 0.05) / 4.0 * 1_000.0);
    assert_eq!(number(r.p95_processing_ms), 50.0);
    assert_eq!(number(r.average_tool_ms), 0.0);
    assert_eq!(number(r.p95_tool_ms), 0.0);
    assert_eq!(number(r.average_llm_total_ms), 0.0);
    assert_eq!(number(r.p95_llm_total_ms), 0.0);
    assert_eq!(number(r.average_framework_overhead_ms), 0.0);
    assert_eq!(number(r.p95_framework_overhead_ms), 0.0);
    assert_eq!(number(r.average_framework_overhead_corrected_ms), 0.0);
    assert_eq!(number(r.p95_framework_overhead_corrected_ms), 0.0);
    assert_eq!(r.cpu_usage_percent, perf().cpu_usage_percent);
    assert_eq!(r.memory_peak_mb, perf().memory_peak_mb);
}

#[test]
fn percentiles_of_many_requests() {
    let many: Vec<TimingBreakdown> =
        (1..=100).rev().map(|n| request(n, 0, n / 2, false)).collect();
    let r = summarize("X", &config(), &many, ms(1000), 0, &perf());
    assert_eq!(number(r.p95_latency_ms), 95.0);
    assert_eq!(number(r.p99_latency_ms), 99.0);
    assert_eq!(number(r.p95_call_ms), 47.0);
    assert_eq!((r.total_success, r.total_failure), (0, 100));
}

#[test]
fn summary_does_not_depend_on_order() {
    let mut turned = requests();
    turned.reverse();
    turned.swap(0, 1);
    let a = summarize("X", &config(), &requests(), ms(2000), ms(250), &perf());
    let b = summarize("X", &config(), &turned, ms(2000), ms(250), &perf());
    assert_eq!(shown(&a), shown(&b));
}

#[test]
fn summary_of_no_requests() {
    let r = summarize("X", &config(), &Vec::new(), ms(5), ms(250), &perf());
    assert_eq!((r.total_requests, r.total_success, r.total_failure), (0, 0, 0));
    assert_eq!((r.concurrency, r.total_duration), (2, ms(5)));
    assert_eq!(number(r.setup_duration_s), 0.25);
    for ratio in [
        r.throughput_rps,
        r.throughput_success_rps,
        r.average_latency_ms,
        r.p95_latency_ms,
        r.p99_latency_ms,
        r.average_call_ms,
        r.p95_processing_ms,
        r.determinism_rate,
    ] {
        assert_eq!(ratio, double(0.0));
    }
    assert_eq!(r.memory_peak_mb, perf().memory_peak_mb);
}

#[test]
fn throughput_of_no_time_at_all() {
    let r = summarize("X", &config(), &requests(), 0, 0, &perf());
    assert_eq!(number(r.throughput_rps), 4.0 / f64::EPSILON);
    assert_eq!(number(r.throughput_success_rps), 3.0 / f64::EPSILON);
}

#[test]
fn call_longer_than_its_request() {
    let r = summarize("X", &config(), &vec![request(5, 0, 9, true)], ms(9), 0, &perf());
    assert_eq!(number(r.average_processing_ms), 0.0);
}

#[test]
fn autoagents_run_with_tools() {
    let run = measured(vec![ms(40), ms(10), ms(10)]);
    let r = autoagents_result(&config(), BenchmarkMode::Tool, &run, vec![3_000_000, 1_000_000]);
    assert_eq!(r.name, "AutoAgents");
    assert_eq!(number(r.average_tool_ms), 20.0);
    assert_eq!(number(r.p95_tool_ms), 40.0);
    assert_eq!(number(r.average_llm_total_ms), 2.0);
    assert_eq!(number(r.p95_llm_total_ms), 3.0);
    assert_eq!(number(r.average_call_ms), 220.0);
}

#[test]
fn autoagents_run_without_tools() {
    let run = measured(vec![ms(40)]);
    let r = autoagents_result(&config(), BenchmarkMode::LlmOnly, &run, Vec::new());
    assert_eq!(number(r.average_tool_ms), 0.0);
    assert_eq!(number(r.p95_tool_ms), 0.0);
    assert_eq!(r.average_llm_total_ms, r.average_call_ms);
    assert_eq!(r.p95_llm_total_ms, r.p95_call_ms);
}

#[test]
fn autoagents_run_from_its_calls() {
    let mut recorder = LlmTimingRecorder::default();
    recorder.record(ms(1), Some(0));
    recorder.record(ms(2), Some(0));
    recorder.record(ms(5), Some(1));
    recorder.record(ms(9), None);
    let r = finish_autoagents(&config(), BenchmarkMode::LlmOnly, &measured(Vec::new()), &recorder);
    assert_eq!(number(r.average_llm_total_ms), 4.0);
    assert_eq!(number(r.p95_llm_total_ms), 5.0);
    recorder.reset();
    let r = finish_autoagents(&config(), BenchmarkMode::LlmOnly, &measured(Vec::new()), &recorder);
    assert_eq!(number(r.average_llm_total_ms), 220.0);
}

#[test]
fn rig_runs() {
    let run = measured(vec![ms(40), ms(10)]);
    let tool = finish_rig(&config(), BenchmarkMode::Tool, &run);
    assert_eq!(tool.name, "Rig");
    assert_eq!(number(tool.average_tool_ms), 25.0);
    assert_eq!(number(tool.p95_tool_ms), 40.0);
    assert_eq!(tool.average_llm_total_ms, tool.average_call_ms);
    assert_eq!(tool.p95_llm_total_ms, tool.p95_call_ms);
    let llm = finish_rig(&config(), BenchmarkMode::LlmOnly, &run);
    assert_eq!(number(llm.average_tool_ms), 0.0);
}

#[test]
fn overhead_of_a_run_with_tools() {
    let run = measured(vec![ms(20)]);
    let mut tool = autoagents_result(&config(), BenchmarkMode::Tool, &run, vec![150_000_000]);
    let before = tool;
    let mut llm = before;
    llm.average_call_ms = double(120.0);
    llm.p95_call_ms = double(900.0);
    apply_overhead_metrics(&mut tool, &llm);
    assert_eq!(number(tool.average_framework_overhead_ms), 80.0);
    assert_eq!(number(tool.p95_framework_overhead_ms), 0.0);
    assert_eq!(number(tool.average_framework_overhead_corrected_ms), 50.0);
    assert_eq!(number(tool.p95_framework_overhead_corrected_ms), 230.0);
    tool.average_framework_overhead_ms = before.average_framework_overhead_ms;
    tool.p95_framework_overhead_ms = before.p95_framework_overhead_ms;
    tool.average_framework_overhead_corrected_ms = before.average_framework_overhead_corrected_ms;
    tool.p95_framework_overhead_corrected_ms = before.p95_framework_overhead_corrected_ms;
    assert_eq!(shown(&tool), shown(&before));
}

#[test]
fn corrected_overhead_of_a_rig_run_is_zero() {
    let run = measured(vec![ms(20)]);
    let mut tool = finish_rig(&config(), BenchmarkMode::Tool, &run);
    let llm = finish_rig(&config(), BenchmarkMode::LlmOnly, &run);
    apply_overhead_metrics(&mut tool, &llm);
    assert_eq!(number(tool.average_framework_overhead_corrected_ms), 0.0);
    assert_eq!(number(tool.p95_framework_overhead_corrected_ms), 0.0);
}

#[test]
fn fields_of_an_entry() {
    let r = finish_rig(&config(), BenchmarkMode::Tool, &measured(vec![ms(20)]));
    let fields = entry_fields(&r);
    let names: Vec<&str> = fields.iter().map(|field| field.0).collect();
    assert_eq!(
        names,
        vec![
            "name",
            "total_requests",
            "concurrency",
            "total_duration",
            "setup_duration_s",
            "throughput_rps",
            "throughput_success_rps",
            "average_latency_ms",
            "p95_latency_ms",
            "p99_latency_ms",
            "cold_start_ms",
            "average_queue_ms",
            "p95_queue_ms",
            "average_call_ms",
            "p95_call_ms",
            "average_processing_ms",
            "p95_processing_ms",
            "average_tool_ms",
            "p95_tool_ms",
            "average_llm_total_ms",
            "p95_llm_total_ms",
            "average_framework_overhead_ms",
            "p95_framework_overhead_ms",
            "average_framework_overhead_corrected_ms",
            "p95_framework_overhead_corrected_ms",
            "total_success",
            "total_failure",
            "cpu_usage_percent",
            "memory_peak_mb",
            "determinism_rate",
        ]
    );
    assert!(matches!(fields[0].1, Field::Text("Rig")));
    assert!(matches!(fields[1].1, Field::Count(4)));
    assert!(matches!(fields[3].1, Field::Number(r) if number(r) == 2.0));
    assert!(matches!(fields[10].1, Field::Number(r) if number(r) == 250.0));
    assert!(matches!(fields[21].1, Field::Number(r) if number(r) == 0.0));
    assert!(matches!(fields[25].1, Field::Count(3)));
    assert!(matches!(fields[29].1, Field::Number(r) if number(r) == 0.75));
}

fn read(text: &str) -> serde_json::Map<String, Value> {
    serde_json::from_str(text).unwrap()
}

fn entry(score: u64) -> Value {
    let mut fields = serde_json::Map::new();
    fields.insert("score".to_string(), Value::from(score));
    Value::Object(fields)
}

#[test]
fn entry_among_others() {
    let none = add_entry(None, "Rig", entry(1));
    assert_eq!(none.len(), 1);
    assert_eq!(none["Rig"], entry(1));
    let both = add_entry(Some(none), "AutoAgents", entry(2));
    let replaced = add_entry(Some(both), "Rig", entry(3));
    assert_eq!(replaced.len(), 2);
    assert_eq!(replaced["Rig"], entry(3));
    assert_eq!(replaced["AutoAgents"], entry(2));
}

#[test]
fn document_that_is_new_or_cannot_be_read() {
    for existing in [None, Some(""), Some("not json"), Some("[1]"), Some("{\"a\": 1")] {
        let text = persist_entry(existing, "Rig", entry(1)).ok().unwrap();
        assert_eq!(text, "{\n  \"Rig\": {\n    \"score\": 1\n  }\n}");
    }
}

#[test]
fn document_keeps_other_entries() {
    let first = persist_entry(None, "Rig", entry(1)).ok().unwrap();
    let second = persist_entry(Some(&first), "AutoAgents", entry(2)).ok().unwrap();
    let third = persist_entry(Some(&second), "Rig", entry(3)).ok().unwrap();
    let entries = read(&third);
    assert_eq!(entries.len(), 2);
    assert_eq!(entries["Rig"], entry(3));
    assert_eq!(entries["AutoAgents"], entry(2));
}

#[test]
fn document_keeps_odd_names() {
    let odd = "a\"b\\c\n\u{1}\u{1f600}/";
    let first = persist_entry(None, odd, Value::Null).ok().unwrap();
    let second = persist_entry(Some(&first), "Rig", entry(1)).ok().unwrap();
    let entries = read(&second);
    assert_eq!(entries[odd], Value::Null);
    assert_eq!(entries["Rig"], entry(1));
}

#[test]
fn document_reads_back_but_for_last_bits() {
    let text = "{\"a\": [true, null, \"t\", {\"n\": -3}], \"big\": 8.5e307, \"small\": 5e-324, \"x\": 0.1}";
    let before = read(text);
    let after = read(&persist_entry(Some(text), "Rig", entry(1)).ok().unwrap());
    assert_eq!(after["a"], before["a"]);
    for name in ["big", "small", "x"] {
        let (was, is) = (before[name].as_f64().unwrap(), after[name].as_f64().unwrap());
        assert!(was.to_bits().abs_diff(is.to_bits()) <= 1);
    }
    assert_eq!(after["Rig"], entry(1));
}

#[test]
fn integers_in_a_document_stay_the_same() {
    let text = "{\"a\": 18446744073709551615, \"b\": 9007199254740993, \"c\": -9223372036854775808, \"d\": 1, \"e\": 1.0, \"f\": -0.0}";
    let after = read(&persist_entry(Some(text), "Rig", entry(1)).ok().unwrap());
    assert_eq!(after["a"].as_u64(), Some(u64::MAX));
    assert_eq!(after["b"].as_u64(), Some(9_007_199_254_740_993));
    assert_eq!(after["c"].as_i64(), Some(i64::MIN));
    assert!(after["d"].is_u64() && after["e"].is_f64() && after["f"].is_f64());
}

#[test]
fn doubles_in_a_document_move_a_few_steps_at_most() {
    let mut seed: u64 = 88_172_645_463_325_252;
    let mut farthest = 0;
    for round in 0..20_000u64 {
        seed ^= seed << 13;
        seed ^= seed >> 7;
        seed ^= seed << 17;
        let small = if round % 4 == 0 { 0x801f_ffff_ffff_ffff } else { u64::MAX };
        let number = f64::from_bits(seed & small);
        if !number.is_finite() || number.abs() >= 2f64.powi(1023) {
            continue;
        }
        let text = persist_entry(None, "x", Value::from(number)).ok().unwrap();
        let back = read(&text)["x"].as_f64().unwrap();
        assert_eq!(back.is_sign_negative(), number.is_sign_negative());
        farthest = farthest.max(back.to_bits().abs_diff(number.to_bits()));
    }
    assert!(farthest <= 8, "{farthest}");
}

#[test]
fn document_of_the_greatest_depth() {
    let nested = |depth: usize| format!("{{\"deep\": {}{}}}", "[".repeat(depth), "]".repeat(depth));
    let text = nested(126);
    let after = persist_entry(Some(&text), "Rig", entry(1)).ok().unwrap();
    assert_eq!(read(&after)["deep"], read(&text)["deep"]);
    let lost = persist_entry(Some(&nested(127)), "Rig", entry(1)).ok().unwrap();
    assert_eq!(read(&lost).len(), 1);
}

#[test]
fn order_of_entries_does_not_count() {
    let one = persist_entry(None, "Rig", entry(1)).ok().unwrap();
    let both = persist_entry(Some(&one), "AutoAgents", entry(2)).ok().unwrap();
    let other = persist_entry(None, "AutoAgents", entry(2)).ok().unwrap();
    let all = persist_entry(Some(&other), "Rig", entry(1)).ok().unwrap();
    assert_eq!(read(&both), read(&all));
}

#[test]
fn document_error_in_words() {
    let error = serde_json::from_str::<Value>("").unwrap_err();
    assert_eq!(
        DocumentError::Unrenderable(error).message(),
        "failed to serialise benchmark results to JSON"
    );
}

#[test]
fn overhead_lies_between_zero_and_the_call() {
    let run = measured(vec![ms(20)]);
    for (of, first, second) in [
        (10.0, 3.0, 2.0),
        (10.0, 8.0, 7.0),
        (0.0, 0.0, 0.0),
        (5.0, 0.0, 0.0),
        (0.3, 0.1, 0.2),
        (1e308, 1e-308, 1.0),
        (f64::INFINITY, f64::INFINITY, 0.0),
    ] {
        let mut tool = finish_rig(&config(), BenchmarkMode::Tool, &run);
        let mut llm = tool;
        tool.average_call_ms = double(of);
        tool.average_tool_ms = double(second);
        llm.average_call_ms = double(first);
        apply_overhead_metrics(&mut tool, &llm);
        let time = number(tool.average_framework_overhead_ms);
        assert_eq!(time, (of - first - second).max(0.0));
        assert!(0.0 <= time && time <= of);
    }
}

/// The mean as doubles give it.
fn double_mean(nanos: &[u64]) -> f64 {
    let mut sorted: Vec<Duration> = nanos.iter().map(|n| Duration::from_nanos(*n)).collect();
    sorted.sort_unstable();
    sorted.iter().map(|d| d.as_secs_f64()).sum::<f64>() / nanos.len() as f64 * 1_000.0
}

#[test]
fn metrics_are_those_of_doubles() {
    let mut seed: u64 = 2_463_534_242;
    for round in 1..200usize {
        let mut totals: Vec<u64> = Vec::new();
        let mut breakdowns: Vec<TimingBreakdown> = Vec::new();
        for _ in 0..round {
            seed ^= seed << 13;
            seed ^= seed >> 7;
            seed ^= seed << 17;
            let total = seed >> (seed % 40);
            totals.push(total);
            breakdowns.push(TimingBreakdown {
                total,
                queue_wait: total / 3,
                call: total / 2,
                status: seed % 3 == 0,
            });
        }
        let elapsed = Duration::from_nanos(seed);
        let r = summarize("X", &config(), &breakdowns, seed, seed / 7, &perf());
        let passed = breakdowns.iter().filter(|b| b.status).count();
        let secs = elapsed.as_secs_f64().max(f64::EPSILON);
        assert_eq!(number(r.average_latency_ms), double_mean(&totals));
        let halves: Vec<u64> = totals.iter().map(|t| t / 2).collect();
        assert_eq!(number(r.average_call_ms), double_mean(&halves));
        let rests: Vec<u64> = totals.iter().map(|t| t - t / 2).collect();
        assert_eq!(number(r.average_processing_ms), double_mean(&rests));
        assert_eq!(number(r.throughput_rps), round as f64 / secs);
        assert_eq!(number(r.throughput_success_rps), passed as f64 / secs);
        assert_eq!(number(r.determinism_rate), passed as f64 / round as f64);
        assert_eq!(number(r.setup_duration_s), Duration::from_nanos(seed / 7).as_secs_f64());
        totals.sort_unstable();
        let at = ((0.95 * round as f64).ceil().max(1.0) as usize - 1).min(round - 1);
        let p95 = Duration::from_nanos(totals[at]).as_secs_f64() * 1_000.0;
        assert_eq!(number(r.p95_latency_ms), p95);
    }
}

#[test]
fn mean_of_tenths_is_rounded() {
    let tenths: Vec<u64> = vec![100_000_000, 200_000_000, 300_000_000];
    let breakdowns: Vec<TimingBreakdown> = tenths
        .iter()
        .map(|t| TimingBreakdown { total: *t, queue_wait: 0, call: 0, status: true })
        .collect();
    let r = summarize("X", &config(), &breakdowns, ms(1), 0, &perf());
    assert_eq!(number(r.average_latency_ms), (0.1 + 0.2 + 0.3) / 3.0 * 1_000.0);
    assert!(number(r.average_latency_ms) > 200.0);
}
