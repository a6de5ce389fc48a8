//! The configuration, the command line and the texts of a benchmark.

use agent_bench::config::{
    check_config, default_request_timeout_secs, framework_name, framework_word, parse_args, plan,
    request_timeout, result_file, select, BenchmarkConfig, BenchmarkMode, Framework, Selection,
    SetupError, Step,
};
use agent_bench::prompt::{
    announcement, build_llm_only_prompt, build_prompt, config_path, failure_line, replace_text,
    timeout_message, trip_data_path,
};

fn config(total_requests: usize, concurrency: usize, request_timeout_secs: u64) -> BenchmarkConfig {
    BenchmarkConfig {
        total_requests,
        concurrency,
        prompt_template: "Question {i}".to_string(),
        model: "gpt-4o-mini".to_string(),
        request_timeout_secs,
    }
}

fn args(list: &[&str]) -> Vec<String> {
    list.iter().map(|arg| arg.to_string()).collect()
}

fn chosen(list: &[&str]) -> Option<(bool, bool, bool, bool)> {
    parse_args(&args(list)).ok().map(|s| (s.run_autoagents, s.run_rig, s.run_llm, s.run_tool))
}

fn refused(list: &[&str]) -> Option<String> {
    parse_args(&args(list)).err().map(|error| error.message())
}

#[test]
fn time_limit_of_a_request() {
    assert_eq!(default_request_timeout_secs(), 120);
    assert_eq!(request_timeout(&config(1, 1, 0)), None);
    assert_eq!(request_timeout(&config(1, 1, 30)), Some(30));
}

#[test]
fn configuration_needs_requests_and_concurrency() {
    assert!(check_config(&config(1, 1, 0)).is_ok());
    for bad in [config(0, 1, 0), config(1, 0, 0), config(0, 0, 0)] {
        let error = check_config(&bad).err().unwrap();
        assert!(matches!(error, SetupError::NothingToRun));
        assert_eq!(
            error.message(),
            "Benchmark requires at least one request and concurrency > 0"
        );
    }
}

#[test]
fn command_lines() {
    assert_eq!(chosen(&["bench"]), Some((true, true, true, true)));
    assert_eq!(chosen(&[]), Some((true, true, true, true)));
    assert_eq!(chosen(&["bench", "autoagents"]), Some((true, false, true, true)));
    assert_eq!(chosen(&["bench", "rig"]), Some((false, true, true, true)));
    assert_eq!(chosen(&["bench", "all", "--mode", "tool"]), Some((true, true, false, true)));
    assert_eq!(chosen(&["bench", "autoagents", "--mode", "llm"]), Some((true, false, true, false)));
    assert_eq!(chosen(&["bench", "rig", "--mode", "both"]), Some((false, true, true, true)));
}

#[test]
fn command_lines_in_any_letter_case() {
    assert_eq!(chosen(&["bench", "RIG", "--mode", "Tool"]), Some((false, true, false, true)));
    assert_eq!(chosen(&["bench", "rig", "--MODE", "tool"]), Some((false, true, true, true)));
    assert_eq!(framework_word(&args(&["bench", "RiG"])), "rig");
    assert_eq!(framework_word(&args(&["bench", "ÄÖ"])), "äö");
    assert_eq!(framework_word(&args(&["bench"])), "all");
}

#[test]
fn first_mode_counts() {
    assert_eq!(
        chosen(&["bench", "all", "--mode", "llm", "--mode", "tool"]),
        Some((true, true, true, false))
    );
    assert_eq!(chosen(&["bench", "all", "--mode"]), Some((true, true, true, true)));
    assert_eq!(
        chosen(&["--mode", "all"]),
        None,
    );
}

#[test]
fn unknown_mode_is_told_first() {
    assert_eq!(
        refused(&["bench", "nobody", "--mode", "FAST"]),
        Some("Unknown --mode 'fast'. Valid options: tool, llm, both".to_string())
    );
    assert_eq!(
        refused(&["bench", "Nobody"]),
        Some("Unknown framework 'nobody'. Valid options: autoagents, rig, all".to_string())
    );
    assert_eq!(
        refused(&["bench", "--mode", "tool"]),
        Some("Unknown framework '--mode'. Valid options: autoagents, rig, all".to_string())
    );
}

#[test]
fn words_that_are_selected() {
    let all = Selection { run_autoagents: true, run_rig: true, run_llm: true, run_tool: true };
    assert_eq!(select("all", None).ok(), Some(all));
    assert_eq!(select("all", Some("both")).ok(), Some(all));
    assert!(matches!(select("all", Some("")).err(), Some(SetupError::UnknownMode(m)) if m.is_empty()));
    assert!(matches!(select("ALL", None).err(), Some(SetupError::UnknownFramework(f)) if f == "ALL"));
}

#[test]
fn steps_of_a_full_run() {
    let steps = plan(Selection { run_autoagents: true, run_rig: true, run_llm: true, run_tool: true });
    let step = |framework, mode, compare| Step { framework, mode, compare };
    assert_eq!(
        steps,
        vec![
            step(Framework::AutoAgents, BenchmarkMode::LlmOnly, false),
            step(Framework::AutoAgents, BenchmarkMode::Tool, true),
            step(Framework::Rig, BenchmarkMode::LlmOnly, false),
            step(Framework::Rig, BenchmarkMode::Tool, true),
        ]
    );
}

#[test]
fn steps_of_partial_runs() {
    let tools = plan(Selection { run_autoagents: false, run_rig: true, run_llm: false, run_tool: true });
    assert_eq!(
        tools,
        vec![Step { framework: Framework::Rig, mode: BenchmarkMode::Tool, compare: false }]
    );
    let none = plan(Selection { run_autoagents: false, run_rig: false, run_llm: true, run_tool: true });
    assert_eq!(none, Vec::new());
}

#[test]
fn names_of_frameworks_and_files() {
    assert_eq!(framework_name(Framework::AutoAgents), "AutoAgents");
    assert_eq!(framework_name(Framework::Rig), "Rig");
    assert_eq!(result_file(BenchmarkMode::LlmOnly), "benchmark_results_llm.json");
    assert_eq!(result_file(BenchmarkMode::Tool), "benchmark_results_tool.json");
}

#[test]
fn prompt_of_a_request() {
    assert_eq!(
        build_prompt("Question {i} of {i}{i}", 12),
        "Question 12 of 1212\nReturn JSON only in the format {\"value\": <number>}."
    );
    assert_eq!(
        build_prompt("Question", 12),
        "Question\nReturn JSON only in the format {\"value\": <number>}."
    );
    assert_eq!(
        build_prompt("{{i}i}", 0),
        "{0i}\nReturn JSON only in the format {\"value\": <number>}."
    );
}

#[test]
fn replacement_agrees_with_the_standard_library() {
    for text in ["", "a", "aaa", "aaaa", "abab", "babab", "ñaañ"] {
        for pattern in ["a", "aa", "ab", "aba", "ñ"] {
            for replacement in ["", "x", "aa"] {
                assert_eq!(
                    replace_text(text, pattern, replacement),
                    text.replace(pattern, replacement)
                );
            }
        }
    }
}

#[test]
fn prompt_without_tools() {
    let expected = format!("{:.2}", 14.729);
    assert_eq!(
        build_llm_only_prompt(7, &expected),
        "Request 7. The average trip duration in minutes is 14.73. Return JSON only in the format {\"value\": 14.73}."
    );
}

#[test]
fn paths_with_and_without_a_setting() {
    assert_eq!(trip_data_path(None), "trip_data.parquet");
    assert_eq!(trip_data_path(Some("x".to_string())), "x");
    assert_eq!(config_path(None), "benchmark.yaml");
    assert_eq!(config_path(Some("".to_string())), "");
}

#[test]
fn messages_of_failed_requests() {
    assert_eq!(
        timeout_message(Framework::AutoAgents, 3, 120),
        "request 3 timed out after 120s"
    );
    assert_eq!(timeout_message(Framework::Rig, 3, 120), "request 3 timed out");
    let line = |framework, mode| failure_line(framework, mode, "no route");
    assert_eq!(line(Framework::AutoAgents, BenchmarkMode::Tool), Some("ERROR: no route".to_string()));
    assert_eq!(line(Framework::AutoAgents, BenchmarkMode::LlmOnly), None);
    assert_eq!(line(Framework::Rig, BenchmarkMode::Tool), Some("RIG TOOL ERROR: no route".to_string()));
    assert_eq!(line(Framework::Rig, BenchmarkMode::LlmOnly), Some("RIG LLM ERROR: no route".to_string()));
}

#[test]
fn announcement_of_a_run() {
    assert_eq!(
        announcement(&config(50, 10, 0), "rig"),
        "Preparing benchmark: 50 requests with concurrency 10 (framework: rig)"
    );
}
