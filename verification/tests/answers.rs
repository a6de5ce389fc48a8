//! The value of an answer and of a finished run.

use agent_bench::agent::{
    result_value, AgentRun, OutputValue, SimpleAgent, SimpleAgentOutput, ToolCallOutcome,
    TripDataProcessingArgs, TripDataProcessorTool,
};
use agent_bench::answer::{object_value, parse_value, value_of, FoundNumber};
use agent_bench::prompt::trip_summary;
use serde_json::Value;

fn number(found: Option<FoundNumber>) -> Option<f64> {
    found.map(|found| match found {
        FoundNumber::Json(bits) => f64::from_bits(bits),
        FoundNumber::Literal(text) => text.parse::<f64>().unwrap(),
    })
}

fn json(text: &str) -> Value {
    serde_json::from_str(text).unwrap()
}

fn output(value: &OutputValue) -> Option<f64> {
    match value {
        OutputValue::Structured => None,
        OutputValue::Found(FoundNumber::Json(bits)) => Some(f64::from_bits(*bits)),
        OutputValue::Found(FoundNumber::Literal(text)) => Some(text.parse::<f64>().unwrap()),
        OutputValue::Zero => Some(0.0),
    }
}

fn call(success: bool, result: &str) -> ToolCallOutcome {
    ToolCallOutcome { success, result: json(result) }
}

fn run(response: &str, done: bool, tool_calls: Vec<ToolCallOutcome>) -> AgentRun {
    AgentRun { response: response.to_string(), done, tool_calls }
}

fn value(response: &str, done: bool, tool_calls: Vec<ToolCallOutcome>) -> Option<f64> {
    output(&SimpleAgentOutput::from_run(&run(response, done, tool_calls), false).value)
}

#[test]
fn value_in_a_json_field() {
    assert_eq!(number(parse_value("{\"value\": 12.5}")), Some(12.5));
    assert_eq!(number(parse_value(" {\"value\": \"12.5\"} ")), Some(12.5));
    assert_eq!(number(parse_value("{\"answer\": 3, \"value\": true}")), Some(3.0));
    assert_eq!(number(parse_value("{\"average_trip_duration_minutes\": -7}")), Some(-7.0));
    assert_eq!(number(parse_value("{\"answer\": 1, \"value\": 2}")), Some(2.0));
    assert_eq!(number(parse_value("{\"value\": \"inf\"}")), Some(f64::INFINITY));
    assert_eq!(number(parse_value("{\"value\": 18446744073709551615}")), Some(u64::MAX as f64));
    assert_eq!(number(parse_value("{\"value\": -9007199254740993}")), Some(-9007199254740993i64 as f64));
}

#[test]
fn value_in_a_document_without_the_fields() {
    assert_eq!(number(parse_value("{\"other\": 4}")), Some(4.0));
    assert_eq!(number(parse_value("{\"value\": \"4 minutes, 5\"}")), Some(4.0));
    assert_eq!(number(parse_value("[1, 2, 30]")), Some(30.0));
    assert_eq!(number(parse_value("42")), Some(42.0));
    assert_eq!(number(parse_value("null")), None);
    assert_eq!(number(parse_value("{\"value\": null}")), None);
}

#[test]
fn value_in_words() {
    assert_eq!(number(parse_value("The average is 17.25 minutes over 3 trips")), Some(17.25));
    assert_eq!(number(parse_value("value 17.25, checked 2 times")), Some(2.0));
    assert_eq!(number(parse_value("no idea")), None);
    assert_eq!(number(parse_value("")), None);
    assert_eq!(number(parse_value("```json {\"value\": 8.5}```")), Some(8.5));
}

#[test]
fn value_of_a_given_document() {
    let document = json("{\"value\": 1.5}");
    assert_eq!(number(value_of("2 minutes", Some(document))), Some(1.5));
    assert_eq!(number(value_of("2 minutes", None)), Some(2.0));
    assert_eq!(number(value_of("2 minutes", Some(json("{}")))), Some(2.0));
}

#[test]
fn value_of_an_object() {
    assert_eq!(number(object_value(&json("{\"answer\": \"1e3\"}"))), Some(1000.0));
    assert_eq!(number(object_value(&json("{\"answer\": \"one\"}"))), None);
    assert_eq!(number(object_value(&json("[1]"))), None);
    assert_eq!(number(object_value(&json("\"1\""))), None);
}

#[test]
fn value_of_a_tool_result() {
    assert_eq!(number(result_value(&json("2.5"))), Some(2.5));
    assert_eq!(number(result_value(&json("\"about 2.5 minutes\""))), Some(2.5));
    assert_eq!(number(result_value(&json("{\"answer\": 9}"))), Some(9.0));
    assert_eq!(number(result_value(&json("[9]"))), None);
    assert_eq!(number(result_value(&json("true"))), None);
}

#[test]
fn response_counts_before_tool_calls() {
    assert_eq!(value("{\"value\": 5}", true, vec![call(true, "6")]), Some(5.0));
    assert_eq!(value("nothing here", true, vec![call(true, "6")]), Some(6.0));
    assert_eq!(value(" \n", true, vec![call(true, "6")]), Some(6.0));
}

#[test]
fn last_tool_call_that_gives_a_number() {
    let calls = vec![call(true, "1"), call(true, "2"), call(false, "3"), call(true, "null")];
    assert_eq!(value("", true, calls), Some(2.0));
    assert_eq!(value("", true, vec![call(false, "3")]), Some(0.0));
}

#[test]
fn run_that_is_not_done_or_gives_nothing_is_zero() {
    assert_eq!(value("{\"value\": 5}", false, vec![call(true, "6")]), Some(0.0));
    assert_eq!(value("", true, Vec::new()), Some(0.0));
    assert_eq!(value("words", true, Vec::new()), Some(0.0));
}

#[test]
fn blank_answers_name_no_number() {
    for text in ["", " ", "\t\r\n ", "\u{a0}\u{2003}"] {
        assert_eq!(number(parse_value(text)), None);
    }
}

#[test]
fn failed_calls_never_matter() {
    let with = vec![call(false, "9"), call(true, "2"), call(false, "3"), call(false, "null")];
    assert_eq!(value("words", true, with), value("words", true, vec![call(true, "2")]));
    let calls = vec![call(true, "7")];
    assert_eq!(value("5 minutes", true, calls), value("5 minutes", true, Vec::new()));
}

#[test]
fn structured_response_is_taken_as_it_is() {
    let done = run("{\"value\": 5}", true, Vec::new());
    assert!(matches!(SimpleAgentOutput::from_run(&done, true).value, OutputValue::Structured));
    let open = run("{\"value\": 5}", false, Vec::new());
    assert!(matches!(SimpleAgentOutput::from_run(&open, true).value, OutputValue::Zero));
}

#[test]
fn output_of_a_given_document() {
    let done = run("7 minutes", true, Vec::new());
    let with = SimpleAgentOutput::from_document(&done, false, Some(json("{\"value\": 5}")));
    assert_eq!(output(&with.value), Some(5.0));
    let without = SimpleAgentOutput::from_document(&done, false, None);
    assert_eq!(output(&without.value), Some(7.0));
}

#[test]
fn tool_answer_reads_back() {
    let summary = trip_summary("14.73", 3_066_766);
    assert_eq!(summary, "Average trip duration is 14.73 minutes across 3066766 trips.");
    assert_eq!(number(parse_value(&summary)), Some(14.73));
    assert_eq!(number(parse_value(&trip_summary("-0.50", 0))), Some(-0.5));
}

#[test]
fn agent_and_tool_have_defaults() {
    let _tool = TripDataProcessorTool::default();
    let _args = TripDataProcessingArgs {};
    let agent = SimpleAgent::default();
    let _copy = agent;
    let _clone = agent.clone();
}
