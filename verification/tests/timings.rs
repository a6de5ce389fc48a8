//! Tools, language-model calls and response streams, timed.

use agent_bench::agent::SimpleAgent;
use agent_bench::timing::{
    elapsed_since, record_tool_timing, reset_tool_timings, snapshot_tool_timings, sum_durations,
    tool_start_times, tool_timings, LlmTimingRecorder, StreamPoll, TimedStream, ToolTimingGuard,
};

fn sorted_totals(recorder: &LlmTimingRecorder) -> Vec<u128> {
    let mut totals = recorder.snapshot_request_totals();
    totals.sort();
    totals
}

#[test]
fn time_between_two_instants() {
    assert_eq!(elapsed_since(5, 12), 7);
    assert_eq!(elapsed_since(12, 5), 0);
    assert_eq!(elapsed_since(0, u64::MAX), u64::MAX);
}

#[test]
fn tool_durations_are_kept_in_order() {
    let mut timings = tool_timings();
    assert_eq!(snapshot_tool_timings(&timings), Vec::<u64>::new());
    record_tool_timing(&mut timings, 9);
    record_tool_timing(&mut timings, 4);
    assert_eq!(snapshot_tool_timings(&timings), vec![9, 4]);
    reset_tool_timings(&mut timings);
    assert_eq!(snapshot_tool_timings(&timings), Vec::<u64>::new());
}

#[test]
fn guard_times_an_execution() {
    let mut timings = tool_timings();
    let guard = ToolTimingGuard::start(100);
    guard.stop(&mut timings, 130);
    assert_eq!(snapshot_tool_timings(&timings), vec![30]);
}

#[test]
fn tool_is_timed_from_start_to_end() {
    let agent = SimpleAgent::default();
    let mut starts = tool_start_times();
    let mut timings = tool_timings();
    agent.on_tool_start(&mut starts, Some(3), 10);
    agent.on_tool_start(&mut starts, Some(4), 11);
    agent.on_tool_result(&mut starts, &mut timings, Some(3), 25);
    agent.on_tool_error(&mut starts, &mut timings, Some(4), 31);
    assert_eq!(snapshot_tool_timings(&timings), vec![15, 20]);
}

#[test]
fn end_of_a_tool_counts_once() {
    let agent = SimpleAgent::default();
    let mut starts = tool_start_times();
    let mut timings = tool_timings();
    agent.on_tool_result(&mut starts, &mut timings, Some(3), 25);
    assert_eq!(snapshot_tool_timings(&timings), Vec::<u64>::new());
    agent.on_tool_start(&mut starts, Some(3), 10);
    agent.on_tool_start(&mut starts, Some(3), 12);
    agent.on_tool_result(&mut starts, &mut timings, Some(3), 25);
    agent.on_tool_result(&mut starts, &mut timings, Some(3), 26);
    assert_eq!(snapshot_tool_timings(&timings), vec![13]);
}

#[test]
fn no_tool_is_timed_outside_a_request() {
    let agent = SimpleAgent::default();
    let mut starts = tool_start_times();
    let mut timings = tool_timings();
    agent.on_tool_start(&mut starts, None, 10);
    agent.on_tool_result(&mut starts, &mut timings, None, 25);
    agent.on_tool_error(&mut starts, &mut timings, None, 25);
    assert_eq!(snapshot_tool_timings(&timings), Vec::<u64>::new());
}

#[test]
fn calls_add_up_by_request() {
    let mut recorder = LlmTimingRecorder::default();
    assert_eq!(sorted_totals(&recorder), Vec::<u128>::new());
    recorder.record(5, Some(1));
    recorder.record(7, Some(2));
    recorder.record(11, None);
    recorder.record(13, Some(1));
    assert_eq!(sorted_totals(&recorder), vec![7, 18]);
    recorder.reset();
    assert_eq!(sorted_totals(&recorder), Vec::<u128>::new());
}

#[test]
fn totals_go_beyond_64_bits() {
    let mut recorder = LlmTimingRecorder::default();
    recorder.record(u64::MAX, Some(1));
    recorder.record(u64::MAX, Some(1));
    assert_eq!(sorted_totals(&recorder), vec![2 * u64::MAX as u128]);
    assert_eq!(sum_durations(&vec![u64::MAX, 1, 2]), u64::MAX as u128 + 3);
    assert_eq!(sum_durations(&Vec::new()), 0);
}

#[test]
fn stream_is_recorded_at_its_end() {
    let mut recorder = LlmTimingRecorder::default();
    let mut stream = TimedStream::new(100);
    stream.poll_next(StreamPoll::Pending, &mut recorder, 110, Some(1));
    stream.poll_next(StreamPoll::Item, &mut recorder, 120, Some(1));
    assert_eq!(sorted_totals(&recorder), Vec::<u128>::new());
    stream.poll_next(StreamPoll::End, &mut recorder, 150, Some(1));
    stream.poll_next(StreamPoll::End, &mut recorder, 170, Some(1));
    stream.close(&mut recorder, 190, Some(1));
    assert_eq!(sorted_totals(&recorder), vec![50]);
}

#[test]
fn stream_that_is_let_go_is_recorded_then() {
    let mut recorder = LlmTimingRecorder::default();
    let mut stream = TimedStream::new(100);
    stream.poll_next(StreamPoll::Item, &mut recorder, 120, Some(1));
    stream.close(&mut recorder, 190, Some(1));
    assert_eq!(sorted_totals(&recorder), vec![90]);
}

#[test]
fn stream_is_recorded_once_by_hand() {
    let mut recorder = LlmTimingRecorder::default();
    let mut stream = TimedStream::new(100);
    stream.record_once(&mut recorder, 120, Some(8));
    stream.record_once(&mut recorder, 140, Some(8));
    assert_eq!(sorted_totals(&recorder), vec![20]);
}

#[test]
fn stream_counts_for_the_request_at_its_end() {
    let mut recorder = LlmTimingRecorder::default();
    let mut stream = TimedStream::new(100);
    stream.poll_next(StreamPoll::Item, &mut recorder, 120, Some(1));
    stream.poll_next(StreamPoll::End, &mut recorder, 150, None);
    stream.close(&mut recorder, 190, Some(2));
    assert_eq!(sorted_totals(&recorder), Vec::<u128>::new());
    let stream = TimedStream::new(100);
    stream.close(&mut recorder, 130, Some(2));
    assert_eq!(sorted_totals(&recorder), vec![30]);
}
