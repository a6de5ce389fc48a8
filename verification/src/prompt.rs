//! The texts of the benchmark: prompts, tool answers, paths and messages.

use vstd::prelude::*;
use vstd::string::*;

use crate::config::{BenchmarkConfig, BenchmarkMode, Framework};
use crate::extract::text_view;
use crate::text::{decimal, decimal_text, to_chars};

verus! {

/// `p` stands in `s` at `i`.
pub open spec fn occurs_at(s: Seq<char>, p: Seq<char>, i: int) -> bool {
    0 <= i && i + p.len() <= s.len() && s.subrange(i, i + p.len()) == p
}

/// `s` with each occurrence of `p`, from the left and without overlap,
/// replaced by `r`.
pub open spec fn replace_all(s: Seq<char>, p: Seq<char>, r: Seq<char>) -> Seq<char>
    recommends
        p.len() > 0,
    decreases s.len(),
{
    if s.len() == 0 || p.len() == 0 {
        s
    } else if occurs_at(s, p, 0) {
        r + replace_all(s.skip(p.len() as int), p, r)
    } else {
        seq![s[0]] + replace_all(s.skip(1), p, r)
    }
}

/// Whether `p` stands in `s` at `i`.
fn occurs(s: &Vec<char>, p: &Vec<char>, i: usize) -> (yes: bool)
    requires
        i <= s@.len(),
    ensures
        yes == occurs_at(s@, p@, i as int),
{
    if s.len() - i < p.len() {
        return false;
    }
    let mut k: usize = 0;
    let ghost piece = s@.subrange(i as int, i + p@.len());
    while k < p.len()
        invariant
            k <= p@.len(),
            i + p@.len() <= s@.len() <= usize::MAX,
            piece == s@.subrange(i as int, i + p@.len()),
            forall|j: int| 0 <= j < k ==> #[trigger] piece[j] == p@[j],
        decreases p@.len() - k,
    {
        if s[i + k] != p[k] {
            assert(piece[k as int] != p@[k as int]);
            return false;
        }
        k = k + 1;
    }
    assert(piece =~= p@);
    true
}

/// Replaces each occurrence of `pattern` in `text`.
pub fn replace_text(text: &str, pattern: &str, replacement: &str) -> (replaced: String)
    requires
        pattern@.len() > 0,
    ensures
        replaced@ == replace_all(text@, pattern@, replacement@),
{
    let s = to_chars(text);
    let p = to_chars(pattern);
    let mut out = String::new();
    let mut i: usize = 0;
    assert(s@.skip(0) =~= s@);
    assert(out@ + replace_all(s@, p@, replacement@) =~= replace_all(s@, p@, replacement@));
    while i < s.len()
        invariant
            p@.len() > 0,
            i <= s@.len(),
            replace_all(s@, p@, replacement@) == out@ + replace_all(
                s@.skip(i as int),
                p@,
                replacement@,
            ),
        decreases s@.len() - i,
    {
        let ghost rest = s@.skip(i as int);
        let ghost done = out@;
        assert(occurs_at(rest, p@, 0) == occurs_at(s@, p@, i as int)) by {
            if i + p@.len() <= s@.len() {
                assert(rest.subrange(0, p@.len() as int) =~= s@.subrange(
                    i as int,
                    i + p@.len(),
                ));
            }
        }
        if occurs(&s, &p, i) {
            assert(rest.skip(p@.len() as int) =~= s@.skip(i + p@.len()));
            out.append(replacement);
            i = i + p.len();
            assert(done + (replacement@ + replace_all(s@.skip(i as int), p@, replacement@))
                =~= out@ + replace_all(s@.skip(i as int), p@, replacement@));
        } else {
            assert(rest.skip(1) =~= s@.skip(i + 1));
            out.push(s[i]);
            i = i + 1;
            assert(done + (seq![rest[0]] + replace_all(s@.skip(i as int), p@, replacement@))
                =~= out@ + replace_all(s@.skip(i as int), p@, replacement@));
        }
    }
    assert(s@.skip(i as int) =~= Seq::<char>::empty());
    assert(out@ + Seq::<char>::empty() =~= out@);
    out
}

/// The prompt of a request: the template with the request's number for each
/// `{i}`, and a line that asks for JSON.
pub open spec fn prompt_text(template: Seq<char>, request_id: nat) -> Seq<char> {
    replace_all(template, "{i}"@, decimal(request_id))
        + "\nReturn JSON only in the format {\"value\": <number>}."@
}

/// Builds the prompt of a request.
pub fn build_prompt(template: &str, request_id: usize) -> (prompt: String)
    ensures
        prompt@ == prompt_text(template@, request_id as nat),
{
    proof {
        reveal_strlit("{i}");
    }
    let number = decimal_text(request_id as u64);
    let mut prompt = replace_text(template, "{i}", number.as_str());
    prompt.append("\nReturn JSON only in the format {\"value\": <number>}.");
    prompt
}

/// The prompt of a request that needs no tool, with the expected value in it
/// twice.
pub open spec fn llm_only_prompt_text(request_id: nat, expected_value: Seq<char>) -> Seq<char> {
    "Request "@ + decimal(request_id) + ". The average trip duration in minutes is "@
        + expected_value + ". Return JSON only in the format {\"value\": "@ + expected_value + "}."@
}

/// Builds the prompt of a request that needs no tool. `expected_value` is the
/// value as a decimal with two places.
pub fn build_llm_only_prompt(request_id: usize, expected_value: &str) -> (prompt: String)
    ensures
        prompt@ == llm_only_prompt_text(request_id as nat, expected_value@),
{
    let number = decimal_text(request_id as u64);
    let mut prompt = "Request ".to_owned();
    prompt.append(number.as_str());
    prompt.append(". The average trip duration in minutes is ");
    prompt.append(expected_value);
    prompt.append(". Return JSON only in the format {\"value\": ");
    prompt.append(expected_value);
    prompt.append("}.");
    prompt
}

/// What the trip-data tool answers.
pub open spec fn trip_summary_text(average: Seq<char>, row_count: nat) -> Seq<char> {
    "Average trip duration is "@ + average + " minutes across "@ + decimal(row_count) + " trips."@
}

/// The answer of the trip-data tool. `average` is the average in minutes as a
/// decimal with two places.
pub fn trip_summary(average: &str, row_count: usize) -> (summary: String)
    ensures
        summary@ == trip_summary_text(average@, row_count as nat),
{
    let count = decimal_text(row_count as u64);
    let mut summary = "Average trip duration is ".to_owned();
    summary.append(average);
    summary.append(" minutes across ");
    summary.append(count.as_str());
    summary.append(" trips.");
    summary
}

/// The path that is set, else the usual one.
pub open spec fn chosen_path(set: Option<Seq<char>>, usual: Seq<char>) -> Seq<char> {
    match set {
        Some(path) => path,
        None => usual,
    }
}

/// The dataset's path: the one that is set, else `trip_data.parquet`.
pub fn trip_data_path(set: Option<String>) -> (path: String)
    ensures
        path@ == chosen_path(text_view(set), "trip_data.parquet"@),
        path@ == (match set {
            Some(p) => p@,
            None => "trip_data.parquet"@,
        }),
{
    match set {
        Some(p) => p,
        None => "trip_data.parquet".to_owned(),
    }
}

/// The configuration's path: the one that is set, else `benchmark.yaml`.
pub fn config_path(set: Option<String>) -> (path: String)
    ensures
        path@ == chosen_path(text_view(set), "benchmark.yaml"@),
        path@ == (match set {
            Some(p) => p@,
            None => "benchmark.yaml"@,
        }),
{
    match set {
        Some(p) => p,
        None => "benchmark.yaml".to_owned(),
    }
}

/// What is said of a request that ran out of time. Only AutoAgents runs tell
/// the limit.
pub open spec fn timeout_text(
    framework: Framework,
    request_id: nat,
    limit_secs: nat,
) -> Seq<char> {
    let base = "request "@ + decimal(request_id) + " timed out"@;
    match framework {
        Framework::AutoAgents => base + " after "@ + decimal(limit_secs) + "s"@,
        Framework::Rig => base,
    }
}

/// The message for a request that ran out of time.
pub fn timeout_message(framework: Framework, request_id: usize, limit_secs: u64) -> (message:
    String)
    ensures
        message@ == timeout_text(framework, request_id as nat, limit_secs as nat),
{
    let number = decimal_text(request_id as u64);
    let mut message = "request ".to_owned();
    message.append(number.as_str());
    message.append(" timed out");
    match framework {
        Framework::AutoAgents => {
            let limit = decimal_text(limit_secs);
            message.append(" after ");
            message.append(limit.as_str());
            message.append("s");
        },
        Framework::Rig => {},
    }
    message
}

/// The line that reports a failed request, where one does: AutoAgents runs
/// without tools report none.
pub open spec fn failure_text(
    framework: Framework,
    mode: BenchmarkMode,
    error: Seq<char>,
) -> Option<Seq<char>> {
    match (framework, mode) {
        (Framework::AutoAgents, BenchmarkMode::Tool) => Some("ERROR: "@ + error),
        (Framework::AutoAgents, BenchmarkMode::LlmOnly) => None,
        (Framework::Rig, BenchmarkMode::Tool) => Some("RIG TOOL ERROR: "@ + error),
        (Framework::Rig, BenchmarkMode::LlmOnly) => Some("RIG LLM ERROR: "@ + error),
    }
}

/// The line that reports a failed request, where one does.
pub fn failure_line(framework: Framework, mode: BenchmarkMode, error: &str) -> (line: Option<
    String,
>)
    ensures
        text_view(line) == failure_text(framework, mode, error@),
{
    let head = match (framework, mode) {
        (Framework::AutoAgents, BenchmarkMode::Tool) => "ERROR: ",
        (Framework::AutoAgents, BenchmarkMode::LlmOnly) => {
            return None;
        },
        (Framework::Rig, BenchmarkMode::Tool) => "RIG TOOL ERROR: ",
        (Framework::Rig, BenchmarkMode::LlmOnly) => "RIG LLM ERROR: ",
    };
    let mut line = head.to_owned();
    line.append(error);
    Some(line)
}

/// The line that announces a benchmark.
pub open spec fn announcement_text(
    total_requests: nat,
    concurrency: nat,
    framework: Seq<char>,
) -> Seq<char> {
    "Preparing benchmark: "@ + decimal(total_requests) + " requests with concurrency "@ + decimal(
        concurrency,
    ) + " (framework: "@ + framework + ")"@
}

/// The line that announces a benchmark; `framework` is the word that was asked
/// for.
pub fn announcement(config: &BenchmarkConfig, framework: &str) -> (line: String)
    ensures
        line@ == announcement_text(
            config.total_requests as nat,
            config.concurrency as nat,
            framework@,
        ),
{
    let requests = decimal_text(config.total_requests as u64);
    let concurrency = decimal_text(config.concurrency as u64);
    let mut line = "Preparing benchmark: ".to_owned();
    line.append(requests.as_str());
    line.append(" requests with concurrency ");
    line.append(concurrency.as_str());
    line.append(" (framework: ");
    line.append(framework);
    line.append(")");
    line
}

} // verus!
