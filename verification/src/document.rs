//! The document that results are kept in: one entry for each framework.

use vstd::prelude::*;

use crate::arith::Double;
use crate::config::optional_text;
use crate::double::EXACT_LIMIT;
use crate::exact::{law_seconds_of_parts, lemma_of_over_factor, lemma_of_times, PART};
use crate::json::{
    alike, alike_fields, are_readable, empty_fields, fields_of, fields_reading, insert_field,
    is_readable, json_of, lemma_alike_readable, lemma_alike_reflexive, lemma_alike_symmetric,
    lemma_alike_transitive, lemma_readable_further, no_fields, pretty_text, read_fields,
    reads_back, render_pretty, Json,
};
use crate::report::BenchmarkResult;
use crate::stats::{seconds, seconds_of, thousandfold, times_thousand};

verus! {

/// The value of one field of an entry.
#[derive(Clone, Copy, Debug)]
pub enum Field {
    Text(&'static str),
    Count(usize),
    Number(Double),
}

/// The fields of the entry for some results, in order.
pub open spec fn entry_of(result: BenchmarkResult) -> Seq<(&'static str, Field)> {
    seq![
        ("name", Field::Text(result.name)),
        ("total_requests", Field::Count(result.total_requests)),
        ("concurrency", Field::Count(result.concurrency)),
        ("total_duration", Field::Number(seconds_of(result.total_duration as u128))),
        ("setup_duration_s", Field::Number(result.setup_duration_s)),
        ("throughput_rps", Field::Number(result.throughput_rps)),
        ("throughput_success_rps", Field::Number(result.throughput_success_rps)),
        ("average_latency_ms", Field::Number(result.average_latency_ms)),
        ("p95_latency_ms", Field::Number(result.p95_latency_ms)),
        ("p99_latency_ms", Field::Number(result.p99_latency_ms)),
        ("cold_start_ms", Field::Number(thousandfold(result.setup_duration_s))),
        ("average_queue_ms", Field::Number(result.average_queue_ms)),
        ("p95_queue_ms", Field::Number(result.p95_queue_ms)),
        ("average_call_ms", Field::Number(result.average_call_ms)),
        ("p95_call_ms", Field::Number(result.p95_call_ms)),
        ("average_processing_ms", Field::Number(result.average_processing_ms)),
        ("p95_processing_ms", Field::Number(result.p95_processing_ms)),
        ("average_tool_ms", Field::Number(result.average_tool_ms)),
        ("p95_tool_ms", Field::Number(result.p95_tool_ms)),
        ("average_llm_total_ms", Field::Number(result.average_llm_total_ms)),
        ("p95_llm_total_ms", Field::Number(result.p95_llm_total_ms)),
        ("average_framework_overhead_ms", Field::Number(result.average_framework_overhead_ms)),
        ("p95_framework_overhead_ms", Field::Number(result.p95_framework_overhead_ms)),
        (
            "average_framework_overhead_corrected_ms",
            Field::Number(result.average_framework_overhead_corrected_ms),
        ),
        (
            "p95_framework_overhead_corrected_ms",
            Field::Number(result.p95_framework_overhead_corrected_ms),
        ),
        ("total_success", Field::Count(result.total_success)),
        ("total_failure", Field::Count(result.total_failure)),
        ("cpu_usage_percent", Field::Number(result.cpu_usage_percent)),
        ("memory_peak_mb", Field::Number(result.memory_peak_mb)),
        ("determinism_rate", Field::Number(result.determinism_rate)),
    ]
}

/// The fields of the entry for some results.
pub fn entry_fields(result: &BenchmarkResult) -> (fields: Vec<(&'static str, Field)>)
    ensures
        fields@ == entry_of(*result),
{
    vec![
        ("name", Field::Text(result.name)),
        ("total_requests", Field::Count(result.total_requests)),
        ("concurrency", Field::Count(result.concurrency)),
        ("total_duration", Field::Number(seconds(result.total_duration as u128))),
        ("setup_duration_s", Field::Number(result.setup_duration_s)),
        ("throughput_rps", Field::Number(result.throughput_rps)),
        ("throughput_success_rps", Field::Number(result.throughput_success_rps)),
        ("average_latency_ms", Field::Number(result.average_latency_ms)),
        ("p95_latency_ms", Field::Number(result.p95_latency_ms)),
        ("p99_latency_ms", Field::Number(result.p99_latency_ms)),
        ("cold_start_ms", Field::Number(times_thousand(result.setup_duration_s))),
        ("average_queue_ms", Field::Number(result.average_queue_ms)),
        ("p95_queue_ms", Field::Number(result.p95_queue_ms)),
        ("average_call_ms", Field::Number(result.average_call_ms)),
        ("p95_call_ms", Field::Number(result.p95_call_ms)),
        ("average_processing_ms", Field::Number(result.average_processing_ms)),
        ("p95_processing_ms", Field::Number(result.p95_processing_ms)),
        ("average_tool_ms", Field::Number(result.average_tool_ms)),
        ("p95_tool_ms", Field::Number(result.p95_tool_ms)),
        ("average_llm_total_ms", Field::Number(result.average_llm_total_ms)),
        ("p95_llm_total_ms", Field::Number(result.p95_llm_total_ms)),
        ("average_framework_overhead_ms", Field::Number(result.average_framework_overhead_ms)),
        ("p95_framework_overhead_ms", Field::Number(result.p95_framework_overhead_ms)),
        (
            "average_framework_overhead_corrected_ms",
            Field::Number(result.average_framework_overhead_corrected_ms),
        ),
        (
            "p95_framework_overhead_corrected_ms",
            Field::Number(result.p95_framework_overhead_corrected_ms),
        ),
        ("total_success", Field::Count(result.total_success)),
        ("total_failure", Field::Count(result.total_failure)),
        ("cpu_usage_percent", Field::Number(result.cpu_usage_percent)),
        ("memory_peak_mb", Field::Number(result.memory_peak_mb)),
        ("determinism_rate", Field::Number(result.determinism_rate)),
    ]
}

/// The entries of a document, where there is one and it can be read: else none.
pub open spec fn entries_in(existing: Option<Seq<char>>) -> Map<Seq<char>, Json> {
    match existing {
        Some(text) => match fields_reading(text) {
            Some(entries) => entries,
            None => empty_fields(),
        },
        None => empty_fields(),
    }
}

/// What the entries that were found hold: none where none were.
pub open spec fn found_entries(
    found: Option<serde_json::Map<String, serde_json::Value>>,
) -> Map<Seq<char>, Json> {
    match found {
        Some(entries) => fields_of(entries),
        None => empty_fields(),
    }
}

/// The entries with one put in, in place of the one that had its name.
pub open spec fn with_entry(
    entries: Map<Seq<char>, Json>,
    name: Seq<char>,
    entry: Json,
) -> Map<Seq<char>, Json> {
    entries.insert(name, entry)
}

/// Puts an entry among those that were found, in place of the one that had its
/// name.
pub fn add_entry(
    found: Option<serde_json::Map<String, serde_json::Value>>,
    name: &str,
    entry: serde_json::Value,
) -> (entries: serde_json::Map<String, serde_json::Value>)
    ensures
        fields_of(entries) == with_entry(found_entries(found), name@, json_of(entry)),
{
    let mut entries = match found {
        Some(entries) => entries,
        None => no_fields(),
    };
    insert_field(&mut entries, name.to_string(), entry);
    entries
}

/// Why results cannot be kept.
pub enum DocumentError {
    /// The document has no text form.
    Unrenderable(serde_json::Error),
}

impl DocumentError {
    /// The error, in words.
    pub fn message(&self) -> (message: &'static str)
        ensures
            message@ == "failed to serialise benchmark results to JSON"@,
    {
        "failed to serialise benchmark results to JSON"
    }
}

/// The document with an entry put in, in place of the one that had its name;
/// the other entries are those of the document before.
pub fn persist_entry(existing: Option<&str>, name: &str, entry: serde_json::Value) -> (res: Result<
    String,
    DocumentError,
>)
    ensures
        res is Ok,
        exists|entries: serde_json::Map<String, serde_json::Value>|
            {
                &&& #[trigger] fields_of(entries) == with_entry(
                    entries_in(optional_text(existing)),
                    name@,
                    json_of(entry),
                )
                &&& res->Ok_0@ == pretty_text(entries)
            },
        reads_back(
            res->Ok_0@,
            with_entry(entries_in(optional_text(existing)), name@, json_of(entry)),
        ),
        are_readable(entries_in(optional_text(existing)), 2047),
{
    let found = match existing {
        Some(text) => match read_fields(text) {
            Ok(entries) => Some(entries),
            Err(_) => None,
        },
        None => None,
    };
    assert(found_entries(found) == entries_in(optional_text(existing)));
    let entries = add_entry(found, name, entry);
    match render_pretty(entries) {
        Ok(text) => Ok(text),
        Err(err) => Err(DocumentError::Unrenderable(err)),
    }
}

/// An entry replaces the one that had its name and leaves the others, and the
/// order in which two entries are put in does not count.
pub proof fn law_entry_replaces_its_own(
    entries: Map<Seq<char>, Json>,
    name: Seq<char>,
    other: Seq<char>,
    first: Json,
    second: Json,
)
    requires
        name != other,
    ensures
        with_entry(with_entry(entries, name, first), name, second) == with_entry(
            entries,
            name,
            second,
        ),
        with_entry(entries, name, first).contains_key(name),
        with_entry(entries, name, first)[name] == first,
        with_entry(entries, name, first).contains_key(other) == entries.contains_key(other),
        entries.contains_key(other) ==> with_entry(entries, name, first)[other] == entries[other],
        with_entry(with_entry(entries, name, first), other, second) == with_entry(
            with_entry(entries, other, second),
            name,
            first,
        ),
{
    assert(with_entry(with_entry(entries, name, first), name, second) =~= with_entry(
        entries,
        name,
        second,
    ));
    assert(with_entry(with_entry(entries, name, first), other, second) =~= with_entry(
        with_entry(entries, other, second),
        name,
        first,
    ));
}

/// Fields that are like a second set of fields, which is like a third.
proof fn lemma_fields_transitive(
    a: Map<Seq<char>, Json>,
    b: Map<Seq<char>, Json>,
    c: Map<Seq<char>, Json>,
    first: nat,
    second: nat,
)
    requires
        alike_fields(a, b, first),
        alike_fields(b, c, second),
    ensures
        alike_fields(a, c, first + second),
{
    assert forall|name: Seq<char>| #[trigger] a.contains_key(name) implies alike(
        a[name],
        c[name],
        first + second,
    ) by {
        assert(b.contains_key(name));
        lemma_alike_transitive(a[name], b[name], c[name], first, second);
    }
}

/// `second` is the document once an entry `x` under `a` and then an entry `y`
/// under `b` have been put in; between the two, the document was `first`.
pub open spec fn holds_two_entries(
    existing: Option<Seq<char>>,
    a: Seq<char>,
    x: Json,
    first: Seq<char>,
    b: Seq<char>,
    y: Json,
    second: Seq<char>,
) -> bool {
    &&& reads_back(first, with_entry(entries_in(existing), a, x))
    &&& reads_back(second, with_entry(entries_in(Some(first)), b, y))
}

/// Two entries put in one after the other are both there when the document is
/// read, and so are the entries that it had before; of two with one name the
/// later one is there. Integers, texts, booleans and nulls are unchanged. A
/// double has moved by eight doubles at most each time the document was read.
/// Left out are doubles at the end of their range, which may not be read.
pub proof fn law_entries_are_kept(
    existing: Option<Seq<char>>,
    a: Seq<char>,
    x: Json,
    first: Seq<char>,
    b: Seq<char>,
    y: Json,
    second: Seq<char>,
)
    requires
        holds_two_entries(existing, a, x, first, b, y, second),
        are_readable(entries_in(existing), 2045),
        is_readable(x, 126, 2045),
        is_readable(y, 126, 2046),
    ensures
        fields_reading(second) matches Some(back) && {
            &&& alike_fields(back, with_entry(with_entry(entries_in(existing), a, x), b, y), 16)
            &&& back.dom() == entries_in(existing).dom().insert(a).insert(b)
            &&& alike(back[b], y, 8)
            &&& a != b ==> alike(back[a], x, 16)
        },
{
    let base = entries_in(existing);
    let one = with_entry(base, a, x);
    assert forall|n: Seq<char>| #[trigger] one.contains_key(n) implies is_readable(
        one[n],
        126,
        2045,
    ) by {
        if n != a {
            assert(base.contains_key(n));
        }
    }
    assert(are_readable(one, 2046)) by {
        assert forall|n: Seq<char>| #[trigger] one.contains_key(n) implies is_readable(
            one[n],
            126,
            2046,
        ) by {
            lemma_readable_further(one[n], 126, 2045, 2046);
        }
    }
    let read = fields_reading(first)->0;
    assert(alike_fields(read, one, 8));
    let two = with_entry(read, b, y);
    assert(are_readable(two, 2046)) by {
        assert forall|n: Seq<char>| #[trigger] two.contains_key(n) implies is_readable(
            two[n],
            126,
            2046,
        ) by {
            if n != b {
                assert(read.contains_key(n));
                assert(one.contains_key(n));
                lemma_alike_readable(read[n], one[n], 126, 2045);
            }
        }
    }
    let back = fields_reading(second)->0;
    assert(alike_fields(back, two, 8));
    let kept = with_entry(one, b, y);
    lemma_alike_reflexive(y, 8);
    assert(two.dom() =~= kept.dom());
    assert forall|n: Seq<char>| #[trigger] two.contains_key(n) implies alike(
        two[n],
        kept[n],
        8,
    ) by {
        if n != b {
            assert(read.contains_key(n));
        }
    }
    lemma_fields_transitive(back, two, kept, 8, 8);
    assert(back.dom() =~= base.dom().insert(a).insert(b));
    assert(back.contains_key(b) && back.contains_key(a));
}

/// The order in which two entries with different names are put in does not
/// count for what is read in the document, but for doubles that have moved by a
/// few doubles.
pub proof fn law_order_of_entries(
    existing: Option<Seq<char>>,
    a: Seq<char>,
    x: Json,
    b: Seq<char>,
    y: Json,
    after_a: Seq<char>,
    after_both: Seq<char>,
    after_b: Seq<char>,
    after_all: Seq<char>,
)
    requires
        a != b,
        holds_two_entries(existing, a, x, after_a, b, y, after_both),
        holds_two_entries(existing, b, y, after_b, a, x, after_all),
        are_readable(entries_in(existing), 2045),
        is_readable(x, 126, 2045),
        is_readable(y, 126, 2045),
    ensures
        fields_reading(after_both) matches Some(p) && fields_reading(after_all) matches Some(q)
            && alike_fields(p, q, 32),
{
    lemma_readable_further(x, 126, 2045, 2046);
    lemma_readable_further(y, 126, 2045, 2046);
    law_entries_are_kept(existing, a, x, after_a, b, y, after_both);
    law_entries_are_kept(existing, b, y, after_b, a, x, after_all);
    law_entry_replaces_its_own(entries_in(existing), a, b, x, y);
    let p = fields_reading(after_both)->0;
    let q = fields_reading(after_all)->0;
    let kept = with_entry(with_entry(entries_in(existing), a, x), b, y);
    assert forall|n: Seq<char>| #[trigger] kept.contains_key(n) implies alike(
        kept[n],
        q[n],
        16,
    ) by {
        assert(q.contains_key(n));
        lemma_alike_symmetric(q[n], kept[n], 16);
    }
    lemma_fields_transitive(p, kept, q, 16, 16);
}

/// An entry holds a field under a name.
pub open spec fn holds(entry: Seq<(&'static str, Field)>, name: Seq<char>, field: Field) -> bool {
    exists|i: int| 0 <= i < entry.len() && (#[trigger] entry[i]).0@ == name && entry[i].1 == field
}

/// In the entry of some results, each field holds the member that it is named
/// after. The duration is in seconds, and the cold start is the setup in
/// milliseconds.
pub proof fn law_fields_hold_their_members(result: BenchmarkResult)
    ensures
        ({
            let entry = entry_of(result);
            &&& entry.len() == 30
            &&& holds(entry, "name"@, Field::Text(result.name))
            &&& holds(entry, "total_requests"@, Field::Count(result.total_requests))
            &&& holds(entry, "concurrency"@, Field::Count(result.concurrency))
            &&& holds(
                entry,
                "total_duration"@,
                Field::Number(seconds_of(result.total_duration as u128)),
            )
            &&& holds(entry, "setup_duration_s"@, Field::Number(result.setup_duration_s))
            &&& holds(
                entry,
                "cold_start_ms"@,
                Field::Number(thousandfold(result.setup_duration_s)),
            )
            &&& holds(entry, "throughput_rps"@, Field::Number(result.throughput_rps))
            &&& holds(entry, "throughput_success_rps"@, Field::Number(result.throughput_success_rps))
            &&& holds(entry, "average_latency_ms"@, Field::Number(result.average_latency_ms))
            &&& holds(entry, "p95_latency_ms"@, Field::Number(result.p95_latency_ms))
            &&& holds(entry, "p99_latency_ms"@, Field::Number(result.p99_latency_ms))
            &&& holds(entry, "average_queue_ms"@, Field::Number(result.average_queue_ms))
            &&& holds(entry, "p95_queue_ms"@, Field::Number(result.p95_queue_ms))
            &&& holds(entry, "average_call_ms"@, Field::Number(result.average_call_ms))
            &&& holds(entry, "p95_call_ms"@, Field::Number(result.p95_call_ms))
            &&& holds(entry, "average_processing_ms"@, Field::Number(result.average_processing_ms))
            &&& holds(entry, "p95_processing_ms"@, Field::Number(result.p95_processing_ms))
            &&& holds(entry, "average_tool_ms"@, Field::Number(result.average_tool_ms))
            &&& holds(entry, "p95_tool_ms"@, Field::Number(result.p95_tool_ms))
            &&& holds(entry, "average_llm_total_ms"@, Field::Number(result.average_llm_total_ms))
            &&& holds(entry, "p95_llm_total_ms"@, Field::Number(result.p95_llm_total_ms))
            &&& holds(entry, "average_framework_overhead_ms"@, Field::Number(result.average_framework_overhead_ms))
            &&& holds(entry, "p95_framework_overhead_ms"@, Field::Number(result.p95_framework_overhead_ms))
            &&& holds(entry, "average_framework_overhead_corrected_ms"@, Field::Number(result.average_framework_overhead_corrected_ms))
            &&& holds(entry, "p95_framework_overhead_corrected_ms"@, Field::Number(result.p95_framework_overhead_corrected_ms))
            &&& holds(entry, "total_success"@, Field::Count(result.total_success))
            &&& holds(entry, "total_failure"@, Field::Count(result.total_failure))
            &&& holds(entry, "cpu_usage_percent"@, Field::Number(result.cpu_usage_percent))
            &&& holds(entry, "memory_peak_mb"@, Field::Number(result.memory_peak_mb))
            &&& holds(entry, "determinism_rate"@, Field::Number(result.determinism_rate))
        }),
{
    let entry = entry_of(result);
    assert(entry[0].0@ == "name"@);
    assert(entry[1].0@ == "total_requests"@);
    assert(entry[2].0@ == "concurrency"@);
    assert(entry[3].0@ == "total_duration"@);
    assert(entry[4].0@ == "setup_duration_s"@);
    assert(entry[5].0@ == "throughput_rps"@);
    assert(entry[6].0@ == "throughput_success_rps"@);
    assert(entry[7].0@ == "average_latency_ms"@);
    assert(entry[8].0@ == "p95_latency_ms"@);
    assert(entry[9].0@ == "p99_latency_ms"@);
    assert(entry[10].0@ == "cold_start_ms"@);
    assert(entry[11].0@ == "average_queue_ms"@);
    assert(entry[12].0@ == "p95_queue_ms"@);
    assert(entry[13].0@ == "average_call_ms"@);
    assert(entry[14].0@ == "p95_call_ms"@);
    assert(entry[15].0@ == "average_processing_ms"@);
    assert(entry[16].0@ == "p95_processing_ms"@);
    assert(entry[17].0@ == "average_tool_ms"@);
    assert(entry[18].0@ == "p95_tool_ms"@);
    assert(entry[19].0@ == "average_llm_total_ms"@);
    assert(entry[20].0@ == "p95_llm_total_ms"@);
    assert(entry[21].0@ == "average_framework_overhead_ms"@);
    assert(entry[22].0@ == "p95_framework_overhead_ms"@);
    assert(entry[23].0@ == "average_framework_overhead_corrected_ms"@);
    assert(entry[24].0@ == "p95_framework_overhead_corrected_ms"@);
    assert(entry[25].0@ == "total_success"@);
    assert(entry[26].0@ == "total_failure"@);
    assert(entry[27].0@ == "cpu_usage_percent"@);
    assert(entry[28].0@ == "memory_peak_mb"@);
    assert(entry[29].0@ == "determinism_rate"@);
}

/// The successes and the failures in an entry add up to its requests, where
/// those of the results do.
pub proof fn law_counts_of_entry_add_up(result: BenchmarkResult)
    requires
        result.total_success + result.total_failure == result.total_requests,
    ensures
        exists|good: usize, bad: usize, all: usize|
            {
                &&& #[trigger] holds(entry_of(result), "total_success"@, Field::Count(good))
                &&& #[trigger] holds(entry_of(result), "total_failure"@, Field::Count(bad))
                &&& #[trigger] holds(entry_of(result), "total_requests"@, Field::Count(all))
                &&& good + bad == all
            },
{
    law_fields_hold_their_members(result);
}

/// Results that differ in a member have entries that differ.
pub proof fn law_entry_tells_results_apart(a: BenchmarkResult, b: BenchmarkResult)
    requires
        entry_of(a) == entry_of(b),
    ensures
        a.name == b.name,
        a.total_requests == b.total_requests,
        a.concurrency == b.concurrency,
        a.setup_duration_s == b.setup_duration_s,
        a.throughput_rps == b.throughput_rps,
        a.throughput_success_rps == b.throughput_success_rps,
        a.average_latency_ms == b.average_latency_ms,
        a.p95_latency_ms == b.p95_latency_ms,
        a.p99_latency_ms == b.p99_latency_ms,
        a.average_queue_ms == b.average_queue_ms,
        a.p95_queue_ms == b.p95_queue_ms,
        a.average_call_ms == b.average_call_ms,
        a.p95_call_ms == b.p95_call_ms,
        a.average_processing_ms == b.average_processing_ms,
        a.p95_processing_ms == b.p95_processing_ms,
        a.average_tool_ms == b.average_tool_ms,
        a.p95_tool_ms == b.p95_tool_ms,
        a.average_llm_total_ms == b.average_llm_total_ms,
        a.p95_llm_total_ms == b.p95_llm_total_ms,
        a.average_framework_overhead_ms == b.average_framework_overhead_ms,
        a.p95_framework_overhead_ms == b.p95_framework_overhead_ms,
        a.average_framework_overhead_corrected_ms == b.average_framework_overhead_corrected_ms,
        a.p95_framework_overhead_corrected_ms == b.p95_framework_overhead_corrected_ms,
        a.total_success == b.total_success,
        a.total_failure == b.total_failure,
        a.cpu_usage_percent == b.cpu_usage_percent,
        a.memory_peak_mb == b.memory_peak_mb,
        a.determinism_rate == b.determinism_rate,
        seconds_of(a.total_duration as u128) == seconds_of(b.total_duration as u128),
{
    let (x, y) = (entry_of(a), entry_of(b));
    assert(forall|i: int| 0 <= i < 30 ==> x[i] == y[i]);
    assert(x[0] == y[0]);
    assert(x[1] == y[1]);
    assert(x[2] == y[2]);
    assert(x[3] == y[3]);
    assert(x[4] == y[4]);
    assert(x[5] == y[5]);
    assert(x[6] == y[6]);
    assert(x[7] == y[7]);
    assert(x[8] == y[8]);
    assert(x[9] == y[9]);
    assert(x[10] == y[10]);
    assert(x[11] == y[11]);
    assert(x[12] == y[12]);
    assert(x[13] == y[13]);
    assert(x[14] == y[14]);
    assert(x[15] == y[15]);
    assert(x[16] == y[16]);
    assert(x[17] == y[17]);
    assert(x[18] == y[18]);
    assert(x[19] == y[19]);
    assert(x[20] == y[20]);
    assert(x[21] == y[21]);
    assert(x[22] == y[22]);
    assert(x[23] == y[23]);
    assert(x[24] == y[24]);
    assert(x[25] == y[25]);
    assert(x[26] == y[26]);
    assert(x[27] == y[27]);
    assert(x[28] == y[28]);
    assert(x[29] == y[29]);
}

/// The duration in an entry is in seconds, and the cold start is the setup in
/// milliseconds: exactly so of 512ths of a second.
pub proof fn law_times_of_entry(result: BenchmarkResult, count: nat, setup: nat)
    requires
        result.total_duration == count * PART,
        setup < EXACT_LIMIT,
        result.setup_duration_s == Double::of(setup as int).over(Double::of(512)),
    ensures
        holds(
            entry_of(result),
            "total_duration"@,
            Field::Number(Double::of(count as int).over(Double::of(512))),
        ),
        holds(
            entry_of(result),
            "cold_start_ms"@,
            Field::Number(
                Double::of(setup as int).over(Double::of(512)).times(Double::of(1000)),
            ),
        ),
        forall|secs: nat|
            setup == #[trigger] (512 * secs) ==> holds(
                entry_of(result),
                "cold_start_ms"@,
                Field::Number(Double::of((1000 * secs) as int)),
            ),
{
    let entry = entry_of(result);
    law_seconds_of_parts(result.total_duration as u128, count);
    assert(entry[3].0@ == "total_duration"@);
    assert(entry[10].0@ == "cold_start_ms"@);
    assert forall|secs: nat| setup == #[trigger] (512 * secs) implies holds(
        entry,
        "cold_start_ms"@,
        Field::Number(Double::of((1000 * secs) as int)),
    ) by {
        lemma_of_over_factor(secs, 512);
        assert(secs * 512 == 512 * secs);
        lemma_of_times(secs, 1000);
    }
}

/// The entries that were found are kept; where none were, there are none.
pub proof fn law_found_entries_are_kept(entries: serde_json::Map<String, serde_json::Value>)
    ensures
        found_entries(Some(entries)) == fields_of(entries),
        found_entries(None).dom() == Set::<Seq<char>>::empty(),
{
    assert(found_entries(None).dom() =~= Set::<Seq<char>>::empty());
}

/// Where there is no document, or none that can be read, an entry stands in it
/// alone; a document that can be read keeps its entries.
pub proof fn law_unreadable_document_starts_anew(
    existing: Option<Seq<char>>,
    name: Seq<char>,
    entry: Json,
)
    ensures
        ({
            let entries = with_entry(entries_in(existing), name, entry);
            &&& entries.contains_key(name) && entries[name] == entry
            &&& (existing is None || fields_reading(existing->0) is None) ==> entries.dom()
                == Set::<Seq<char>>::empty().insert(name)
            &&& forall|text: Seq<char>, before: Map<Seq<char>, Json>, other: Seq<char>|
                existing == Some(text) && #[trigger] fields_reading(text) == Some(before)
                    && other != name ==> {
                    &&& #[trigger] before.contains_key(other) == entries.contains_key(other)
                    &&& before.contains_key(other) ==> entries[other] == before[other]
                }
        }),
{
    let entries = with_entry(entries_in(existing), name, entry);
    if existing is None || fields_reading(existing->0) is None {
        assert(entries.dom() =~= Set::<Seq<char>>::empty().insert(name));
    }
}

} // verus!
