//! What is read back: the numbers that are found read as numbers, the answer of
//! the trip-data tool gives the average that it was made of, and a prompt has
//! no placeholder left.

use vstd::prelude::*;

use crate::agent::{
    last_call_number, result_number, run_value, successful_results, AgentRun, OutputView,
    ToolCallOutcome,
};
use crate::answer::{number_in, NumberView};
use crate::extract::{
    is_last_minutes, is_last_number, is_minutes_at, is_minutes_number, is_number_char,
    is_number_run, is_stretch_before, last_number, lemma_minutes_number_unique, minutes_number,
};
use crate::json::{holds_no_json, json_of, reading_of, Json};
use crate::literal::{all_digits, ascii_lower, ascii_lower_all, is_float_literal, is_number_split};
use crate::prompt::{occurs_at, replace_all, trip_summary_text};
use crate::text::{decimal, is_blank, is_digit, is_white_space};

verus! {

/// A numeral holds digits only, and one at least.
pub proof fn law_decimal_is_digits(n: nat)
    ensures
        decimal(n).len() > 0,
        all_digits(decimal(n)),
    decreases n,
{
    if n >= 10 {
        law_decimal_is_digits(n / 10);
    }
}

/// Where one run reads as a number, there is a last one that does.
proof fn lemma_last_run_exists(s: Seq<char>, a: int, b: int)
    requires
        is_number_run(s, a, b),
    ensures
        exists|found: Option<Seq<char>>| is_last_number(s, found),
    decreases s.len() - a,
{
    if forall|c: int, d: int| #[trigger] is_number_run(s, c, d) ==> c <= a {
        assert(is_last_number(s, Some(s.subrange(a, b))));
    } else {
        let (c, d) = choose|c: int, d: int| #[trigger] is_number_run(s, c, d) && !(c <= a);
        lemma_last_run_exists(s, c, d);
    }
}

/// Every text has a last number or none, and a last number reads as one.
pub proof fn law_last_number(s: Seq<char>)
    ensures
        is_last_number(s, last_number(s)),
        last_number(s) matches Some(number) ==> is_float_literal(number),
{
    if exists|a: int, b: int| #[trigger] is_number_run(s, a, b) {
        let (a, b) = choose|a: int, b: int| #[trigger] is_number_run(s, a, b);
        lemma_last_run_exists(s, a, b);
    } else {
        assert(is_last_number(s, None));
    }
}

/// Every text has a number before its last `minutes` or none, and that number
/// reads as one.
pub proof fn law_minutes_number(s: Seq<char>)
    ensures
        is_minutes_number(s, minutes_number(s)),
        minutes_number(s) matches Some(number) ==> is_float_literal(number),
{
    if exists|m: int, a: int, b: int|
        is_last_minutes(s, m) && #[trigger] is_stretch_before(s, m, a, b) && is_float_literal(
            s.subrange(a, b),
        ) {
        let (m, a, b) = choose|m: int, a: int, b: int|
            is_last_minutes(s, m) && #[trigger] is_stretch_before(s, m, a, b) && is_float_literal(
                s.subrange(a, b),
            );
        assert(is_minutes_number(s, Some(s.subrange(a, b))));
    } else {
        assert(is_minutes_number(s, None));
    }
}

/// A literal that is found in a text reads as a number.
pub proof fn law_found_literal_reads(text: Seq<char>, reading: Option<Json>)
    ensures
        number_in(text, reading) matches Some(NumberView::Literal(t)) ==> is_float_literal(t),
{
    law_last_number(text);
    law_minutes_number(text);
}

/// A literal that the tool calls of a run give reads as a number.
proof fn lemma_call_literal_reads(calls: Seq<ToolCallOutcome>)
    ensures
        last_call_number(calls) matches Some(NumberView::Literal(t)) ==> is_float_literal(t),
    decreases calls.len(),
{
    if calls.len() > 0 {
        lemma_call_literal_reads(calls.drop_last());
        match json_of(calls.last().result) {
            Json::Text(text) => law_found_literal_reads(text, reading_of(text)),
            _ => {},
        }
    }
}

/// A literal that is the value of a run reads as a number.
pub proof fn law_run_literal_reads(run: AgentRun, structured: bool, reading: Option<Json>)
    ensures
        run_value(run, structured, reading) matches OutputView::Found(NumberView::Literal(t))
            ==> is_float_literal(t),
{
    law_found_literal_reads(run.response@, reading);
    lemma_call_literal_reads(run.tool_calls@);
}

/// A blank text names no number.
pub proof fn law_blank_names_no_number(text: Seq<char>)
    requires
        is_blank(text),
    ensures
        last_number(text) is None,
        minutes_number(text) is None,
        number_in(text, reading_of(text)) is None,
{
    law_last_number(text);
    law_minutes_number(text);
    assert forall|a: int, b: int| !#[trigger] is_number_run(text, a, b) by {
        if is_number_run(text, a, b) {
            assert(is_white_space(text[a]));
        }
    }
    assert forall|m: int, a: int, b: int| !#[trigger] is_stretch_before(text, m, a, b) by {
        if is_stretch_before(text, m, a, b) {
            assert(is_number_char(text[a]));
            assert(is_white_space(text[a]));
        }
    }
}

/// The number of the last result that gives one.
pub open spec fn last_result_number(results: Seq<Json>) -> Option<NumberView>
    decreases results.len(),
{
    if results.len() == 0 {
        None
    } else if result_number(results.last()) is Some {
        result_number(results.last())
    } else {
        last_result_number(results.drop_last())
    }
}

/// Only the calls that succeeded count.
pub proof fn lemma_failed_calls_skipped(calls: Seq<ToolCallOutcome>)
    ensures
        last_call_number(calls) == last_result_number(successful_results(calls)),
    decreases calls.len(),
{
    if calls.len() > 0 {
        let before = successful_results(calls.drop_last());
        lemma_failed_calls_skipped(calls.drop_last());
        assert(before.push(json_of(calls.last().result)).drop_last() =~= before);
    }
}

/// A response that names a number outranks all tool calls, and calls that
/// failed never matter: two finished runs with one response have one value,
/// where the response names a number or the calls that succeeded had the same
/// results.
pub proof fn law_response_outranks_calls(a: AgentRun, b: AgentRun, structured: bool)
    requires
        a.done,
        b.done,
        a.response@ == b.response@,
        number_in(a.response@, reading_of(a.response@)) is Some || successful_results(a.tool_calls@)
            == successful_results(b.tool_calls@),
    ensures
        run_value(a, structured, reading_of(a.response@)) == run_value(
            b,
            structured,
            reading_of(b.response@),
        ),
{
    if is_blank(a.response@) {
        law_blank_names_no_number(a.response@);
    }
    lemma_failed_calls_skipped(a.tool_calls@);
    lemma_failed_calls_skipped(b.tool_calls@);
}

/// What is read in the answer of the trip-data tool is the average that it was
/// made of.
pub proof fn law_summary_reads_back(average: Seq<char>, row_count: nat)
    requires
        is_float_literal(average),
        forall|i: int| 0 <= i < average.len() ==> is_number_char(#[trigger] average[i]),
    ensures
        holds_no_json(trip_summary_text(average, row_count)),
        minutes_number(trip_summary_text(average, row_count)) == Some(average),
        number_in(
            trip_summary_text(average, row_count),
            reading_of(trip_summary_text(average, row_count)),
        ) == Some(NumberView::Literal(average)),
{
    let head = "Average trip duration is "@;
    let mid = " minutes across "@;
    let count = decimal(row_count);
    let tail = " trips."@;
    let s = trip_summary_text(average, row_count);
    reveal_strlit("Average trip duration is ");
    reveal_strlit(" minutes across ");
    reveal_strlit(" trips.");
    reveal_strlit("minutes");
    law_decimal_is_digits(row_count);
    assert(average.len() > 0) by {
        lemma_empty_is_no_literal(average);
    }
    let a = head.len() as int;
    let b = a + average.len();
    let c = b + mid.len();
    let d = c + count.len();
    assert(s =~= head + (average + (mid + (count + tail))));
    assert(s.subrange(a, b) =~= average);
    assert forall|i: int| 0 <= i < mid.len() implies s[b + i] == #[trigger] mid[i] by {}
    assert forall|i: int| 0 <= i < count.len() implies s[c + i] == #[trigger] count[i] by {}
    assert forall|i: int| 0 <= i < tail.len() implies s[d + i] == #[trigger] tail[i] by {}
    let m = b + 1;
    assert(ascii_lower_all(s.subrange(m, m + 7)) =~= "minutes"@);
    assert(is_minutes_at(s, m));
    assert forall|n: int| #[trigger] is_minutes_at(s, n) implies n <= m by {
        let lower = ascii_lower_all(s.subrange(n, n + 7));
        assert(lower[0] == ascii_lower(s[n]));
        assert("minutes"@[0] == 'm');
        if n > m {
            if n < c {
                assert(s[n] == mid[n - b]);
            } else if n < d {
                assert(s[n] == count[n - c]);
            } else {
                assert(s[n] == tail[n - d]);
            }
        }
    }
    assert forall|i: int| a <= i < b implies is_number_char(#[trigger] s[i]) by {
        assert(s[i] == average[i - a]);
    }
    assert(s[b] == mid[0]);
    assert(s[a - 1] == head[a - 1]);
    assert(is_stretch_before(s, m, a, b));
    assert(is_minutes_number(s, Some(average)));
    law_minutes_number(s);
    lemma_minutes_number_unique(s, Some(average), minutes_number(s));
    assert(s[0] == head[0]);
}

/// The empty text reads as no number.
pub proof fn lemma_empty_is_no_literal(s: Seq<char>)
    requires
        is_float_literal(s),
    ensures
        s.len() > 0,
{
    reveal_strlit("inf");
    reveal_strlit("infinity");
    reveal_strlit("nan");
    if s.len() == 0 {
        assert(ascii_lower_all(s).len() == 0);
        let k = choose|k: int| #[trigger] is_number_split(s, k);
        assert(s.take(k).len() == 0);
    }
}

/// A text in which a pattern does not occur keeps its form when the pattern is
/// replaced.
pub proof fn law_nothing_to_replace(s: Seq<char>, p: Seq<char>, r: Seq<char>)
    requires
        forall|i: int| !#[trigger] occurs_at(s, p, i),
    ensures
        replace_all(s, p, r) == s,
    decreases s.len(),
{
    if s.len() > 0 && p.len() > 0 {
        assert(!occurs_at(s, p, 0));
        let rest = s.skip(1);
        assert forall|i: int| !#[trigger] occurs_at(rest, p, i) by {
            if 0 <= i && i + p.len() <= rest.len() {
                assert(rest.subrange(i, i + p.len()) =~= s.subrange(i + 1, i + 1 + p.len()));
                assert(!occurs_at(s, p, i + 1));
            }
        }
        law_nothing_to_replace(rest, p, r);
        assert(seq![s[0]] + rest =~= s);
    }
}

/// Once a request's number stands for each `{i}` of a template, no `{i}` is
/// left.
pub proof fn law_no_placeholder_left(template: Seq<char>, request_id: nat, i: int)
    ensures
        !occurs_at(replace_all(template, "{i}"@, decimal(request_id)), "{i}"@, i),
    decreases template.len(),
{
    let p = "{i}"@;
    let r = decimal(request_id);
    let out = replace_all(template, p, r);
    reveal_strlit("{i}");
    law_decimal_is_digits(request_id);
    if occurs_at(out, p, i) {
        let found = out.subrange(i, i + 3);
        assert(found[0] == '{' && found[1] == 'i' && found[2] == '}');
        assert(out[i] == '{' && out[i + 1] == 'i' && out[i + 2] == '}');
        if template.len() == 0 {
            assert(false);
        } else if occurs_at(template, p, 0) {
            let rest = template.skip(3);
            if i < r.len() {
                assert(out[i] == r[i]);
            } else {
                law_no_placeholder_left(rest, request_id, i - r.len());
                assert(replace_all(rest, p, r).subrange(i - r.len(), i - r.len() + 3) =~= found);
            }
        } else {
            let rest = template.skip(1);
            let tail = replace_all(rest, p, r);
            if i > 0 {
                law_no_placeholder_left(rest, request_id, i - 1);
                assert(tail.subrange(i - 1, i + 2) =~= found);
            } else {
                lemma_kept_head(rest, p, r);
                assert(tail[0] == 'i');
                assert(rest[0] == 'i');
                let last = rest.skip(1);
                assert(tail =~= seq![rest[0]] + replace_all(last, p, r));
                lemma_kept_head(last, p, r);
                assert(last[0] == '}');
                assert(template.subrange(0, 3) =~= p);
            }
        }
    }
}

/// Where a text with digits put in for a pattern begins with no digit, its
/// first character was not put in.
proof fn lemma_kept_head(s: Seq<char>, p: Seq<char>, r: Seq<char>)
    requires
        p.len() > 0,
        r.len() > 0,
        all_digits(r),
        replace_all(s, p, r).len() > 0,
        !is_digit(replace_all(s, p, r)[0]),
    ensures
        s.len() > 0,
        !occurs_at(s, p, 0),
        s[0] == replace_all(s, p, r)[0],
{
    if s.len() > 0 && occurs_at(s, p, 0) {
        assert(replace_all(s, p, r)[0] == r[0]);
    }
}

} // verus!
