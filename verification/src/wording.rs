//! What the texts of the benchmark say, whatever is put into them.

use vstd::prelude::*;

use crate::config::{BenchmarkMode, Framework};
use crate::extract::last_number;
use crate::finding::{law_digits_read_as_number, law_last_number_of_text};
use crate::prompt::{
    announcement_text, chosen_path, failure_text, llm_only_prompt_text, occurs_at, prompt_text,
    replace_all, timeout_text, trip_summary_text,
};
use crate::reading::law_decimal_is_digits;
use crate::text::{decimal, is_blank, is_digit, is_white_space};

verus! {

/// A pattern does not begin in a text before `end`.
pub open spec fn begins_not_before(text: Seq<char>, pattern: Seq<char>, end: int) -> bool {
    forall|i: int|
        0 <= i < end && i + pattern.len() <= text.len() ==> #[trigger] text.subrange(
            i,
            i + pattern.len(),
        ) != pattern
}

/// Text before the first occurrence of a pattern stays as it is.
proof fn lemma_plain_text_kept(plain: Seq<char>, rest: Seq<char>, p: Seq<char>, r: Seq<char>)
    requires
        p.len() > 0,
        begins_not_before(plain + rest, p, plain.len() as int),
    ensures
        replace_all(plain + rest, p, r) == plain + replace_all(rest, p, r),
    decreases plain.len(),
{
    let s = plain + rest;
    if plain.len() == 0 {
        assert(s =~= rest);
        assert(plain + replace_all(rest, p, r) =~= replace_all(rest, p, r));
    } else {
        let tail = plain.skip(1);
        assert(s[0] == plain[0]);
        assert(!occurs_at(s, p, 0));
        assert(s.skip(1) =~= tail + rest);
        assert forall|i: int|
            0 <= i < tail.len() && i + p.len() <= (tail + rest).len() implies #[trigger] (tail
            + rest).subrange(i, i + p.len()) != p by {
            assert((tail + rest).subrange(i, i + p.len()) =~= s.subrange(
                i + 1,
                i + 1 + p.len(),
            ));
        }
        lemma_plain_text_kept(tail, rest, p, r);
        assert(seq![plain[0]] + (tail + replace_all(rest, p, r)) =~= plain + replace_all(
            rest,
            p,
            r,
        ));
    }
}

/// The first occurrence of a pattern is replaced, the text before it stays as
/// it is, and the text behind it is treated in the same way; a text in which
/// the pattern does not occur stays as it is.
pub proof fn law_first_occurrence_replaced(
    before: Seq<char>,
    pattern: Seq<char>,
    rest: Seq<char>,
    replacement: Seq<char>,
)
    requires
        pattern.len() > 0,
    ensures
        begins_not_before(before + pattern + rest, pattern, before.len() as int) ==> replace_all(
            before + pattern + rest,
            pattern,
            replacement,
        ) == before + replacement + replace_all(rest, pattern, replacement),
        begins_not_before(before, pattern, before.len() as int) ==> replace_all(
            before,
            pattern,
            replacement,
        ) == before,
{
    let (p, r) = (pattern, replacement);
    let s = p + rest;
    assert(before + p + rest =~= before + s);
    if begins_not_before(before + s, p, before.len() as int) {
        lemma_plain_text_kept(before, s, p, r);
        assert(s.subrange(0, p.len() as int) =~= p);
        assert(occurs_at(s, p, 0));
        assert(s.skip(p.len() as int) =~= rest);
        assert(before + (r + replace_all(rest, p, r)) =~= before + r + replace_all(rest, p, r));
    }
    if begins_not_before(before, p, before.len() as int) {
        let none = Seq::<char>::empty();
        assert(before + none =~= before);
        lemma_plain_text_kept(before, none, p, r);
        assert(before + replace_all(none, p, r) =~= before);
    }
}

/// In a prompt, the request's number stands where the template has `{i}`, the
/// rest of the template stands as it is, and a line that asks for JSON comes
/// last.
pub proof fn law_prompt_numbers_the_request(
    before: Seq<char>,
    rest: Seq<char>,
    request_id: nat,
)
    ensures
        begins_not_before(before + "{i}"@ + rest, "{i}"@, before.len() as int) ==> prompt_text(
            before + "{i}"@ + rest,
            request_id,
        ) == before + decimal(request_id) + prompt_text(rest, request_id),
        begins_not_before(before, "{i}"@, before.len() as int) ==> prompt_text(
            before,
            request_id,
        ) == before + ("\nReturn JSON only in the format "@ + "{\"value\": <number>}"@ + "."@),
{
    reveal_strlit("{i}");
    reveal_strlit("\nReturn JSON only in the format {\"value\": <number>}.");
    reveal_strlit("\nReturn JSON only in the format ");
    reveal_strlit("{\"value\": <number>}");
    reveal_strlit(".");
    let p = "{i}"@;
    let r = decimal(request_id);
    let tail = "\nReturn JSON only in the format {\"value\": <number>}."@;
    assert(tail =~= "\nReturn JSON only in the format "@ + "{\"value\": <number>}"@ + "."@);
    law_first_occurrence_replaced(before, p, rest, r);
    assert(before + r + replace_all(rest, p, r) + tail =~= before + r + (replace_all(rest, p, r)
        + tail));
}

/// The prompt of a request that needs no tool names the request and the value,
/// and ends with the JSON that it asks for, which holds the value once more.
pub proof fn law_llm_only_prompt_holds_value(request_id: nat, value: Seq<char>)
    ensures
        llm_only_prompt_text(request_id, value) == "Request "@ + (decimal(request_id) + ". "@)
            + "The average trip duration in minutes is "@ + (value + ". "@)
            + "Return JSON only in the format "@ + ("{\"value\": "@ + value + "}"@) + "."@,
{
    reveal_strlit("Request ");
    reveal_strlit(". ");
    reveal_strlit("The average trip duration in minutes is ");
    reveal_strlit("Return JSON only in the format ");
    reveal_strlit("{\"value\": ");
    reveal_strlit("}");
    reveal_strlit(".");
    reveal_strlit(". The average trip duration in minutes is ");
    reveal_strlit(". Return JSON only in the format {\"value\": ");
    reveal_strlit("}.");
    assert(". The average trip duration in minutes is "@ =~= ". "@
        + "The average trip duration in minutes is "@);
    assert(". Return JSON only in the format {\"value\": "@ =~= ". "@
        + "Return JSON only in the format "@ + "{\"value\": "@);
    assert("}."@ =~= "}"@ + "."@);
    assert(llm_only_prompt_text(request_id, value) =~= "Request "@ + (decimal(request_id) + ". "@)
        + "The average trip duration in minutes is "@ + (value + ". "@)
        + "Return JSON only in the format "@ + ("{\"value\": "@ + value + "}"@) + "."@);
}

/// The answer of the trip-data tool, in its parts: what it is an average of,
/// the average in minutes, and over how many trips.
pub proof fn law_summary_in_parts(average: Seq<char>, row_count: nat)
    ensures
        trip_summary_text(average, row_count) == "Average trip duration is "@ + (average
            + " minutes"@) + " across "@ + (decimal(row_count) + " trips"@) + "."@,
{
    reveal_strlit("Average trip duration is ");
    reveal_strlit(" minutes");
    reveal_strlit(" across ");
    reveal_strlit(" minutes across ");
    reveal_strlit(" trips");
    reveal_strlit(" trips.");
    reveal_strlit(".");
    assert(" minutes across "@ =~= " minutes"@ + " across "@);
    assert(" trips."@ =~= " trips"@ + "."@);
    assert(trip_summary_text(average, row_count) =~= "Average trip duration is "@ + (average
        + " minutes"@) + " across "@ + (decimal(row_count) + " trips"@) + "."@);
}

/// The message for a request that ran out of time ends with its number and
/// that it timed out; that of AutoAgents goes on with the limit in seconds.
pub proof fn law_timeout_tells_request_and_limit(request_id: nat, limit_secs: nat, other: nat)
    ensures
        timeout_text(Framework::Rig, request_id, limit_secs) == "request "@ + (decimal(request_id)
            + " timed out"@),
        timeout_text(Framework::Rig, request_id, limit_secs) == timeout_text(
            Framework::Rig,
            request_id,
            other,
        ),
        timeout_text(Framework::AutoAgents, request_id, limit_secs) == timeout_text(
            Framework::Rig,
            request_id,
            limit_secs,
        ) + (" after "@ + decimal(limit_secs) + "s"@),
        last_number(timeout_text(Framework::Rig, request_id, limit_secs)) == Some(
            decimal(request_id),
        ),
        last_number(timeout_text(Framework::AutoAgents, request_id, limit_secs)) == Some(
            decimal(limit_secs),
        ),
{
    reveal_strlit("request ");
    reveal_strlit(" timed out");
    reveal_strlit(" after ");
    reveal_strlit("s");
    let base = timeout_text(Framework::Rig, request_id, limit_secs);
    let long = timeout_text(Framework::AutoAgents, request_id, limit_secs);
    assert(base =~= "request "@ + (decimal(request_id) + " timed out"@));
    assert(long =~= base + (" after "@ + decimal(limit_secs) + "s"@));
    lemma_last_decimal("request "@, request_id, " timed out"@);
    assert(long =~= (base + " after "@) + decimal(limit_secs) + "s"@);
    lemma_last_decimal(base + " after "@, limit_secs, "s"@);
}

/// A numeral between words is the last number of the text.
proof fn lemma_last_decimal(before: Seq<char>, n: nat, after: Seq<char>)
    requires
        before.len() > 0,
        before.last() == ' ',
        forall|i: int| 0 <= i < after.len() ==> !is_digit(#[trigger] after[i]),
        after.len() > 0 ==> after[0] != '.',
    ensures
        last_number(before + decimal(n) + after) == Some(decimal(n)),
{
    let none = Seq::<char>::empty();
    law_decimal_is_digits(n);
    law_digits_read_as_number(none, decimal(n), none);
    assert(none + decimal(n) =~= decimal(n));
    assert(is_digit(decimal(n)[0]));
    assert forall|i: int| 0 <= i < decimal(n).len() implies is_digit(#[trigger] decimal(n)[i]) by {}
    law_last_number_of_text(before, decimal(n), after, None);
}

/// A failed request is reported with its error behind a word for the framework
/// and the mode; only AutoAgents runs without tools report none.
pub proof fn law_failures_reported(framework: Framework, mode: BenchmarkMode, error: Seq<char>)
    ensures
        failure_text(framework, mode, error) is None <==> framework is AutoAgents
            && mode is LlmOnly,
        failure_text(framework, mode, error) matches Some(line) ==> {
            &&& framework is AutoAgents ==> line == "ERROR"@ + ": "@ + error
            &&& framework is Rig && mode is Tool ==> line == "RIG TOOL "@ + ("ERROR"@ + ": "@
                + error)
            &&& framework is Rig && mode is LlmOnly ==> line == "RIG LLM "@ + ("ERROR"@ + ": "@
                + error)
        },
{
    reveal_strlit("ERROR");
    reveal_strlit(": ");
    reveal_strlit("ERROR: ");
    reveal_strlit("RIG TOOL ");
    reveal_strlit("RIG TOOL ERROR: ");
    reveal_strlit("RIG LLM ");
    reveal_strlit("RIG LLM ERROR: ");
    assert("ERROR: "@ =~= "ERROR"@ + ": "@);
    assert("RIG TOOL ERROR: "@ =~= "RIG TOOL "@ + ("ERROR"@ + ": "@));
    assert("RIG LLM ERROR: "@ =~= "RIG LLM "@ + ("ERROR"@ + ": "@));
    assert("RIG TOOL ERROR: "@ + error =~= "RIG TOOL "@ + ("ERROR"@ + ": "@ + error));
    assert("RIG LLM ERROR: "@ + error =~= "RIG LLM "@ + ("ERROR"@ + ": "@ + error));
}

/// The line that announces a benchmark tells the number of requests, then the
/// concurrency, then the framework that was asked for.
pub proof fn law_announcement_in_parts(total: nat, concurrency: nat, framework: Seq<char>)
    ensures
        announcement_text(total, concurrency, framework) == "Preparing benchmark: "@ + (decimal(
            total,
        ) + " requests"@) + " with concurrency "@ + decimal(concurrency) + " "@
            + ("(framework: "@ + framework + ")"@),
{
    reveal_strlit("Preparing benchmark: ");
    reveal_strlit(" requests");
    reveal_strlit(" with concurrency ");
    reveal_strlit(" requests with concurrency ");
    reveal_strlit(" ");
    reveal_strlit("(framework: ");
    reveal_strlit(" (framework: ");
    reveal_strlit(")");
    assert(" requests with concurrency "@ =~= " requests"@ + " with concurrency "@);
    assert(" (framework: "@ =~= " "@ + "(framework: "@);
    assert(announcement_text(total, concurrency, framework) =~= "Preparing benchmark: "@
        + (decimal(total) + " requests"@) + " with concurrency "@ + decimal(concurrency) + " "@
        + ("(framework: "@ + framework + ")"@));
}

/// A text is blank where all its parts are, and one character is blank where it
/// is white space as Unicode has it. Nothing at all is blank.
pub proof fn law_blank_in_parts(a: Seq<char>, b: Seq<char>, c: char)
    ensures
        is_blank(Seq::empty()),
        is_blank(a + b) <==> is_blank(a) && is_blank(b),
        is_blank(seq![c]) <==> (9 <= c as int <= 13 || c as int == 0x20 || c as int == 0x85
            || c as int == 0xa0 || c as int == 0x1680 || 0x2000 <= c as int <= 0x200a || c as int
            == 0x2028 || c as int == 0x2029 || c as int == 0x202f || c as int == 0x205f
            || c as int == 0x3000),
{
    let s = a + b;
    assert forall|i: int| 0 <= i < a.len() implies #[trigger] a[i] == s[i] by {}
    assert forall|i: int| 0 <= i < b.len() implies #[trigger] b[i] == s[a.len() + i] by {}
    if is_blank(s) {
        assert forall|i: int| 0 <= i < b.len() implies is_white_space(#[trigger] b[i]) by {
            assert(is_white_space(s[a.len() + i]));
        }
        assert forall|i: int| 0 <= i < a.len() implies is_white_space(#[trigger] a[i]) by {
            assert(is_white_space(s[i]));
        }
    }
    if is_blank(a) && is_blank(b) {
        assert forall|i: int| 0 <= i < s.len() implies is_white_space(#[trigger] s[i]) by {
            if i < a.len() {
                assert(is_white_space(a[i]));
            } else {
                assert(is_white_space(b[i - a.len()]));
            }
        }
    }
    let one = seq![c];
    assert(one[0] == c);
    if is_white_space(c) {
        assert(is_blank(one));
    }
}

/// A path that is set is taken as it is, whatever it says, and no other.
pub proof fn law_set_path_is_taken(path: Seq<char>, usual: Seq<char>)
    ensures
        chosen_path(Some(path), usual) == path,
        chosen_path(None, usual) == usual,
{
}

/// A numeral has no leading zero but in zero itself, and one digit more is ten
/// times as much and the digit.
pub proof fn law_decimal_grows_by_digits(n: nat, digit: nat)
    requires
        digit < 10,
    ensures
        n > 0 ==> decimal(n)[0] != '0',
        decimal(0) == "0"@,
        n > 0 ==> decimal(10 * n + digit) == decimal(n).push(('0' as int + digit) as char),
        decimal(digit) == seq![('0' as int + digit) as char],
    decreases n,
{
    reveal_strlit("0");
    assert(decimal(0) =~= "0"@);
    law_decimal_is_digits(n);
    if n >= 10 {
        law_decimal_grows_by_digits(n / 10, digit);
        law_decimal_is_digits(n / 10);
        assert(decimal(n)[0] == decimal(n / 10)[0]);
    }
}

} // verus!
