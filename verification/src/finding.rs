//! Which number an answer gives, told from how the answer is put together.

use vstd::prelude::*;

use crate::agent::{
    result_number, run_value, successful_results, AgentRun, OutputView, ToolCallOutcome,
};
use crate::answer::{document_number, number_in, NumberView};
use crate::arith::Double;
use crate::extract::{
    continues_run, is_detached, is_last_minutes, is_last_number, is_minutes_at, is_minutes_number,
    is_number_char, is_number_run, is_run, is_run_start, is_stretch_before, last_number,
    lemma_last_number_unique, lemma_minutes_number_unique, lemma_no_start_inside,
    lemma_stretch_unique, minutes_number,
};
use crate::json::{json_of, reading_of, Json, JsonNumber};
use crate::literal::{
    all_digits, ascii_lower, ascii_lower_all, is_float_literal, is_number_split, is_special,
    is_split_at_point, unsigned,
};
use crate::prompt::trip_summary_text;
use crate::reading::{
    last_result_number, law_blank_names_no_number, law_decimal_is_digits, law_last_number,
    law_minutes_number, law_summary_reads_back, lemma_empty_is_no_literal,
    lemma_failed_calls_skipped,
};
use crate::text::{decimal, is_blank, is_digit};

verus! {

/// The word `minutes`, each letter in either case.
pub open spec fn spells_minutes(word: Seq<char>) -> bool {
    &&& word.len() == 7
    &&& word[0] == 'm' || word[0] == 'M'
    &&& word[1] == 'i' || word[1] == 'I'
    &&& word[2] == 'n' || word[2] == 'N'
    &&& word[3] == 'u' || word[3] == 'U'
    &&& word[4] == 't' || word[4] == 'T'
    &&& word[5] == 'e' || word[5] == 'E'
    &&& word[6] == 's' || word[6] == 'S'
}

/// The word `minutes` stands in a text from `first` on.
pub open spec fn has_minutes_from(text: Seq<char>, first: int) -> bool {
    exists|i: int|
        first <= i && i + 7 <= text.len() && spells_minutes(#[trigger] text.subrange(i, i + 7))
}

/// Digits, points and minus signs.
pub open spec fn all_number_chars(text: Seq<char>) -> bool {
    forall|i: int|
        0 <= i < text.len() ==> ('0' <= #[trigger] text[i] && text[i] <= '9') || text[i] == '.'
            || text[i] == '-'
}

/// No digit, point or minus sign.
pub open spec fn no_number_chars(text: Seq<char>) -> bool {
    forall|i: int|
        0 <= i < text.len() ==> !('0' <= #[trigger] text[i] && text[i] <= '9') && text[i] != '.'
            && text[i] != '-'
}

/// The last character of a text is no digit, point or minus sign.
pub open spec fn ends_no_number(text: Seq<char>) -> bool {
    text.len() > 0 ==> no_number_chars(seq![text.last()])
}

/// Where a text spells the word `minutes`, and where it cannot.
proof fn lemma_spelling(s: Seq<char>, n: int)
    requires
        0 <= n,
        n + 7 <= s.len(),
    ensures
        is_minutes_at(s, n) == spells_minutes(s.subrange(n, n + 7)),
{
    reveal_strlit("minutes");
    let word = s.subrange(n, n + 7);
    let lower = ascii_lower_all(word);
    assert forall|i: int| 0 <= i < 7 implies #[trigger] lower[i] == ascii_lower(word[i]) by {}
    if spells_minutes(word) {
        assert(lower =~= "minutes"@);
    }
    if lower == "minutes"@ {
        assert(lower[0] == 'm' && lower[1] == 'i' && lower[2] == 'n' && lower[3] == 'u');
        assert(lower[4] == 't' && lower[5] == 'e' && lower[6] == 's');
    }
}

/// The word that is the last `minutes` of a text.
proof fn lemma_last_spelling(before: Seq<char>, word: Seq<char>, after: Seq<char>)
    requires
        spells_minutes(word),
        !has_minutes_from(word + after, 1),
    ensures
        is_last_minutes(before + word + after, before.len() as int),
{
    let s = before + word + after;
    let m = before.len() as int;
    assert(s.subrange(m, m + 7) =~= word);
    lemma_spelling(s, m);
    assert forall|n: int| #[trigger] is_minutes_at(s, n) implies n <= m by {
        if n > m {
            lemma_spelling(s, n);
            assert((word + after).subrange(n - m, n - m + 7) =~= s.subrange(n, n + 7));
        }
    }
}

/// The number before the last `minutes` of a text is the stretch of digits,
/// points and minus signs next before it, whatever stands before and behind;
/// where that stretch reads as no number, there is none. It is what the text
/// gives, unless it is JSON that gives another.
pub proof fn law_number_before_minutes(
    before: Seq<char>,
    number: Seq<char>,
    gap: Seq<char>,
    word: Seq<char>,
    after: Seq<char>,
    reading: Option<Json>,
)
    requires
        number.len() > 0,
        all_number_chars(number),
        ends_no_number(before),
        no_number_chars(gap),
        spells_minutes(word),
        !has_minutes_from(word + after, 1),
    ensures
        ({
            let text = before + number + gap + word + after;
            &&& is_float_literal(number) ==> minutes_number(text) == Some(number)
            &&& !is_float_literal(number) ==> minutes_number(text) is None
            &&& is_float_literal(number) && document_number(reading) is None ==> number_in(
                text,
                reading,
            ) == Some(NumberView::Literal(number))
        }),
{
    let s = before + number + gap + word + after;
    let a = before.len() as int;
    let b = a + number.len();
    let m = b + gap.len();
    assert(s =~= (before + number + gap) + word + after);
    lemma_last_spelling(before + number + gap, word, after);
    assert(s.subrange(a, b) =~= number);
    assert forall|i: int| a <= i < b implies is_number_char(#[trigger] s[i]) by {
        assert(s[i] == number[i - a]);
    }
    assert forall|i: int| b <= i < m implies !is_number_char(#[trigger] s[i]) by {
        assert(s[i] == gap[i - b]);
    }
    if a > 0 {
        assert(s[a - 1] == seq![before.last()][0]);
    }
    assert(is_stretch_before(s, m, a, b));
    law_minutes_number(s);
    if is_float_literal(number) {
        assert(is_minutes_number(s, Some(number)));
        lemma_minutes_number_unique(s, Some(number), minutes_number(s));
    } else if minutes_number(s) is Some {
        let (n, c, d) = choose|n: int, c: int, d: int|
            {
                &&& is_last_minutes(s, n)
                &&& #[trigger] is_stretch_before(s, n, c, d)
                &&& is_float_literal(s.subrange(c, d))
                &&& minutes_number(s)->0 == s.subrange(c, d)
            };
        lemma_stretch_unique(s, m, a, b, n, c, d);
    }
}

/// Without the word `minutes`, or without a number character before it, there
/// is no number before `minutes`.
pub proof fn law_no_number_before_minutes(before: Seq<char>, word: Seq<char>, after: Seq<char>)
    ensures
        !has_minutes_from(after, 0) ==> minutes_number(after) is None,
        no_number_chars(before) && spells_minutes(word) && !has_minutes_from(word + after, 1)
            ==> minutes_number(before + word + after) is None,
{
    law_minutes_number(after);
    if !has_minutes_from(after, 0) {
        assert forall|n: int| !#[trigger] is_minutes_at(after, n) by {
            if is_minutes_at(after, n) {
                lemma_spelling(after, n);
                assert(spells_minutes(after.subrange(n, n + 7)));
            }
        }
    }
    if no_number_chars(before) && spells_minutes(word) && !has_minutes_from(word + after, 1) {
        let s = before + word + after;
        law_minutes_number(s);
        lemma_last_spelling(before, word, after);
        if minutes_number(s) is Some {
            let (n, c, d) = choose|n: int, c: int, d: int|
                {
                    &&& is_last_minutes(s, n)
                    &&& #[trigger] is_stretch_before(s, n, c, d)
                    &&& is_float_literal(s.subrange(c, d))
                    &&& minutes_number(s)->0 == s.subrange(c, d)
                };
            assert(is_minutes_at(s, n));
            assert(n == before.len());
            assert(is_number_char(s[c]));
            assert(s[c] == before[c]);
        }
    }
}

/// A text of digits, points and minus signs that reads as a number has a digit.
proof fn lemma_literal_has_digit(s: Seq<char>)
    requires
        is_float_literal(s),
        all_number_chars(s),
    ensures
        exists|i: int| 0 <= i < s.len() && is_digit(#[trigger] s[i]),
{
    reveal_strlit("inf");
    reveal_strlit("infinity");
    reveal_strlit("nan");
    let u = unsigned(s);
    let offset = s.len() - u.len();
    assert forall|i: int| 0 <= i < u.len() implies #[trigger] u[i] == s[i + offset] by {}
    if is_special(u) {
        let lower = ascii_lower_all(u);
        assert(lower.len() > 0);
        assert(lower[0] == ascii_lower(u[0]));
        assert(u[0] == s[offset]);
        assert(false);
    }
    let k = choose|k: int| #[trigger] is_number_split(u, k);
    let t = u.take(k);
    if t.len() > 0 && all_digits(t) {
        assert(is_digit(t[0]));
        assert(t[0] == s[offset]);
    } else {
        let p = choose|p: int| #[trigger] is_split_at_point(t, p);
        if p > 0 {
            assert(is_digit(t.take(p)[0]));
            assert(t.take(p)[0] == s[offset]);
        } else {
            assert(is_digit(t.skip(1)[0]));
            assert(t.skip(1)[0] == s[offset + 1]);
        }
    }
}

/// A run without a digit reads as no number.
proof fn lemma_run_without_digit(s: Seq<char>, c: int, d: int)
    requires
        is_run(s, c, d),
        forall|i: int| c <= i < s.len() ==> !is_digit(#[trigger] s[i]),
    ensures
        !is_number_run(s, c, d),
{
    let run = s.subrange(c, d);
    assert forall|i: int| 0 <= i < run.len() implies is_number_char(#[trigger] run[i]) by {
        assert(run[i] == s[c + i]);
        if i > 0 {
            assert(continues_run(s[c + i]));
        }
    }
    if is_float_literal(run) {
        lemma_literal_has_digit(run);
        let i = choose|i: int| 0 <= i < run.len() && is_digit(#[trigger] run[i]);
        assert(is_digit(s[c + i]));
    }
}

/// The last number of a text: a minus sign or a digit with the digits and
/// points behind it, where no digit follows and, if it begins with a digit, no
/// number goes before. Where the word `minutes` is missing, it is what the text
/// gives, unless it is JSON that gives another.
pub proof fn law_last_number_of_text(
    before: Seq<char>,
    number: Seq<char>,
    after: Seq<char>,
    reading: Option<Json>,
)
    requires
        number.len() > 0,
        is_float_literal(number),
        number[0] == '-' || ('0' <= number[0] && number[0] <= '9' && ends_no_number(before)),
        all_number_chars(number),
        forall|i: int| 0 < i < number.len() ==> #[trigger] number[i] != '-',
        forall|i: int| 0 <= i < after.len() ==> !('0' <= #[trigger] after[i] && after[i] <= '9'),
        after.len() > 0 ==> after[0] != '.',
    ensures
        last_number(before + number + after) == Some(number),
        !has_minutes_from(before + number + after, 0) && document_number(reading) is None
            ==> number_in(before + number + after, reading) == Some(NumberView::Literal(number)),
{
    let s = before + number + after;
    let a = before.len() as int;
    let b = a + number.len();
    assert(s.subrange(a, b) =~= number);
    assert(s[a] == number[0]);
    if number[0] != '-' {
        if a > 0 {
            assert(s[a - 1] == seq![before.last()][0]);
        }
        assert(is_detached(s, a, a));
    }
    assert(is_run_start(s, a));
    assert forall|i: int| a < i < b implies continues_run(#[trigger] s[i]) by {
        assert(s[i] == number[i - a]);
    }
    if b < s.len() {
        assert(s[b] == after[0]);
    }
    assert(is_run(s, a, b));
    assert(is_number_run(s, a, b));
    assert forall|c: int, d: int| #[trigger] is_number_run(s, c, d) implies c <= a by {
        if c > a {
            if c < b {
                lemma_no_start_inside(s, a, b, c);
            } else {
                assert forall|i: int| c <= i < s.len() implies !is_digit(#[trigger] s[i]) by {
                    assert(s[i] == after[i - b]);
                }
                lemma_run_without_digit(s, c, d);
            }
        }
    }
    assert(is_last_number(s, Some(number)));
    law_last_number(s);
    lemma_last_number_unique(s, Some(number), last_number(s));
    if !has_minutes_from(s, 0) {
        law_no_number_before_minutes(Seq::empty(), Seq::empty(), s);
    }
}

/// A text without a digit names no number; only as JSON may it give one.
pub proof fn law_no_digit_no_number(text: Seq<char>, reading: Option<Json>)
    requires
        forall|i: int| 0 <= i < text.len() ==> !('0' <= #[trigger] text[i] && text[i] <= '9'),
    ensures
        last_number(text) is None,
        minutes_number(text) is None,
        number_in(text, reading) == document_number(reading),
{
    law_last_number(text);
    law_minutes_number(text);
    assert forall|c: int, d: int| !#[trigger] is_number_run(text, c, d) by {
        if is_run(text, c, d) {
            lemma_run_without_digit(text, c, d);
        }
    }
    if minutes_number(text) is Some {
        let (n, c, d) = choose|n: int, c: int, d: int|
            {
                &&& is_last_minutes(text, n)
                &&& #[trigger] is_stretch_before(text, n, c, d)
                &&& is_float_literal(text.subrange(c, d))
                &&& minutes_number(text)->0 == text.subrange(c, d)
            };
        let part = text.subrange(c, d);
        assert forall|i: int| 0 <= i < part.len() implies is_number_char(#[trigger] part[i]) by {
            assert(part[i] == text[c + i]);
        }
        lemma_literal_has_digit(part);
        let i = choose|i: int| 0 <= i < part.len() && is_digit(#[trigger] part[i]);
        assert(part[i] == text[c + i]);
    }
}

/// The answer of the trip-data tool ends with the number of trips: it is the
/// last number of the text.
pub proof fn law_summary_ends_with_count(average: Seq<char>, row_count: nat)
    ensures
        last_number(trip_summary_text(average, row_count)) == Some(decimal(row_count)),
{
    let head = "Average trip duration is "@ + average + " minutes across "@;
    let count = decimal(row_count);
    let tail = " trips."@;
    reveal_strlit(" minutes across ");
    reveal_strlit(" trips.");
    law_decimal_is_digits(row_count);
    assert(trip_summary_text(average, row_count) =~= head + count + tail);
    assert(head.last() == ' ');
    assert(is_digit(count[0]));
    assert forall|i: int| 0 <= i < count.len() implies is_digit(#[trigger] count[i]) by {}
    assert forall|i: int| 0 <= i < tail.len() implies !is_digit(#[trigger] tail[i]) by {}
    law_digits_read_as_number(Seq::empty(), count, Seq::empty());
    assert(Seq::<char>::empty() + count =~= count);
    law_last_number_of_text(head, count, tail, None);
}

/// Digits read as a number, also with a point among them or at an end, and
/// with a sign before them. Without a digit there is none to read, and with a
/// second point there is none either.
pub proof fn law_digits_read_as_number(sign: Seq<char>, whole: Seq<char>, fraction: Seq<char>)
    requires
        sign.len() == 0 || sign == seq!['-'] || sign == seq!['+'],
        all_digits(whole),
        all_digits(fraction),
    ensures
        is_float_literal(sign + whole) <==> whole.len() > 0,
        whole.len() + fraction.len() > 0 <==> is_float_literal(
            sign + (whole + seq!['.'] + fraction),
        ),
        !is_float_literal(sign + (whole + seq!['.', '.'] + fraction)),
{
    let split = whole + seq!['.'] + fraction;
    let double = whole + seq!['.', '.'] + fraction;
    lemma_unsigned(sign, whole);
    lemma_unsigned(sign, split);
    lemma_unsigned(sign, double);
    if whole.len() > 0 {
        assert(whole.take(whole.len() as int) =~= whole);
        assert(is_number_split(whole, whole.len() as int));
    } else if is_float_literal(whole) {
        lemma_empty_is_no_literal(whole);
    }
    if whole.len() + fraction.len() > 0 {
        let p = whole.len() as int;
        assert(split.take(p) =~= whole);
        assert(split.skip(p + 1) =~= fraction);
        assert(is_split_at_point(split, p));
        assert(split.take(split.len() as int) =~= split);
        assert(is_number_split(split, split.len() as int));
    } else if is_float_literal(split) {
        assert(all_number_chars(split));
        lemma_literal_has_digit(split);
    }
    lemma_points_apart(double, whole.len() as int);
}

/// A number may go on with an exponent: the letter `e` in either case, a sign
/// or none, and digits.
pub proof fn law_exponents_read(
    sign: Seq<char>,
    whole: Seq<char>,
    letter: char,
    mark: Seq<char>,
    exponent: Seq<char>,
)
    requires
        sign.len() == 0 || sign == seq!['-'] || sign == seq!['+'],
        mark.len() == 0 || mark == seq!['-'] || mark == seq!['+'],
        letter == 'e' || letter == 'E',
        whole.len() > 0,
        exponent.len() > 0,
        all_digits(whole),
        all_digits(exponent),
    ensures
        is_float_literal(sign + (whole + (seq![letter] + mark + exponent))),
{
    let power = seq![letter] + mark + exponent;
    let s = whole + power;
    assert(is_digit(whole[0]));
    lemma_unsigned(sign, s);
    let k = whole.len() as int;
    assert(s.take(k) =~= whole);
    assert(s.skip(k) =~= power);
    if mark.len() == 0 {
        assert(power.skip(1) =~= exponent);
    } else {
        assert(power.skip(2) =~= exponent);
        assert(power[1] == mark[0]);
    }
    assert(ascii_lower(power[0]) == 'e');
    assert(is_number_split(s, k));
    assert(unsigned(s) == s);
}

/// A text that begins with no sign is what is left of it when a sign goes
/// before.
proof fn lemma_unsigned(sign: Seq<char>, rest: Seq<char>)
    requires
        sign.len() == 0 || sign == seq!['-'] || sign == seq!['+'],
        rest.len() > 0 ==> is_digit(rest[0]) || rest[0] == '.',
    ensures
        is_float_literal(sign + rest) == is_float_literal(rest),
{
    let s = sign + rest;
    if sign.len() == 0 {
        assert(s =~= rest);
    } else {
        assert(s.skip(1) =~= rest);
        assert(unsigned(rest) == rest);
    }
}

/// A text of digits and two points in a row reads as no number.
proof fn lemma_points_apart(s: Seq<char>, p: int)
    requires
        0 <= p,
        p + 1 < s.len(),
        s[p] == '.',
        s[p + 1] == '.',
        forall|i: int| 0 <= i < s.len() ==> continues_run(#[trigger] s[i]),
    ensures
        !is_float_literal(s),
{
    reveal_strlit("inf");
    reveal_strlit("infinity");
    reveal_strlit("nan");
    assert(unsigned(s) == s);
    if is_special(s) {
        let lower = ascii_lower_all(s);
        assert(lower[0] == ascii_lower(s[0]));
        assert(continues_run(s[0]));
    } else if is_float_literal(s) {
        let k = choose|k: int| #[trigger] is_number_split(s, k);
        if k < s.len() {
            assert(s.skip(k)[0] == s[k]);
            assert(continues_run(s[k]));
        }
        let t = s.take(k);
        assert(t =~= s);
        if all_digits(t) {
            assert(is_digit(t[p]));
        } else {
            let q = choose|q: int| #[trigger] is_split_at_point(t, q);
            if q <= p {
                assert(t.skip(q + 1)[p - q] == t[p + 1]);
            } else {
                assert(t.take(q)[p] == t[p]);
            }
        }
    }
}

/// A value in a JSON field that gives no number: neither a number, nor a text
/// that reads as one.
pub open spec fn gives_none(fields: Map<Seq<char>, Json>, key: Seq<char>) -> bool {
    fields.contains_key(key) ==> {
        &&& !(fields[key] is Number)
        &&& fields[key] is Text ==> !is_float_literal(fields[key]->Text_0)
    }
}

/// What a JSON value gives, if it is a number or a text that reads as one.
pub open spec fn gives(value: Json, number: NumberView) -> bool {
    ||| value matches Json::Number(JsonNumber::Count(n)) && number == NumberView::Json(
        Double::of(n as int).bits,
    )
    ||| value matches Json::Number(JsonNumber::Negative(n)) && number == NumberView::Json(
        Double::of(n as int).bits,
    )
    ||| value matches Json::Number(JsonNumber::Float(bits)) && number == NumberView::Json(bits)
    ||| value matches Json::Text(text) && is_float_literal(text) && number
        == NumberView::Literal(text)
}

/// An object gives the number of its field `value`; where that gives none, the
/// number of `answer`; and where that gives none, the number of
/// `average_trip_duration_minutes`. It gives it as the result of a tool call,
/// and in a text whatever else the text says.
pub proof fn law_object_gives_number(
    fields: Map<Seq<char>, Json>,
    text: Seq<char>,
    number: NumberView,
)
    ensures
        ({
            let (first, second, third) = (
                "value"@,
                "answer"@,
                "average_trip_duration_minutes"@,
            );
            let object = Json::Object(fields);
            &&& fields.contains_key(first) && gives(fields[first], number) ==> result_number(
                object,
            ) == Some(number) && number_in(text, Some(object)) == Some(number)
            &&& gives_none(fields, first) && fields.contains_key(second) && gives(
                fields[second],
                number,
            ) ==> result_number(object) == Some(number) && number_in(text, Some(object)) == Some(
                number,
            )
            &&& gives_none(fields, first) && gives_none(fields, second) && fields.contains_key(
                third,
            ) && gives(fields[third], number) ==> result_number(object) == Some(number)
                && number_in(text, Some(object)) == Some(number)
            &&& gives_none(fields, first) && gives_none(fields, second) && gives_none(
                fields,
                third,
            ) ==> result_number(object) is None && number_in(text, Some(object)) == number_in(
                text,
                None,
            )
        }),
{
}

/// JSON that is no object gives no number by its fields: the text is read as if
/// it were no JSON at all.
pub proof fn law_only_objects_give_fields(text: Seq<char>, value: Json)
    requires
        !(value is Object),
    ensures
        number_in(text, Some(value)) == number_in(text, None),
        document_number(Some(value)) is None,
{
}

/// A number is the result of a tool call that gives it; null, a truth value and
/// an array give none.
pub proof fn law_plain_results(number: JsonNumber, truth: bool, items: Seq<Json>)
    ensures
        result_number(Json::Number(number)) == Some(
            NumberView::Json(
                match number {
                    JsonNumber::Count(n) => Double::of(n as int).bits,
                    JsonNumber::Negative(n) => Double::of(n as int).bits,
                    JsonNumber::Float(bits) => bits,
                },
            ),
        ),
        result_number(Json::Null) is None,
        result_number(Json::Bool(truth)) is None,
        result_number(Json::Array(items)) is None,
{
}

/// Where a text names no number before `minutes`, and no JSON gives one, it
/// gives its last number.
pub proof fn law_last_number_is_given(text: Seq<char>, reading: Option<Json>)
    requires
        document_number(reading) is None,
    ensures
        minutes_number(text) matches Some(number) ==> number_in(text, reading) == Some(
            NumberView::Literal(number),
        ),
        minutes_number(text) is None ==> match last_number(text) {
            Some(number) => number_in(text, reading) == Some(NumberView::Literal(number)),
            None => number_in(text, reading) is None,
        },
{
}

/// The runs of two texts with a separator between them.
proof fn lemma_runs_apart(a: Seq<char>, separator: char, b: Seq<char>, c: int, d: int)
    requires
        !is_number_char(separator),
    ensures
        ({
            let s = a.push(separator) + b;
            let m = a.len() + 1;
            is_number_run(s, c, d) <==> is_number_run(a, c, d) || is_number_run(b, c - m, d - m)
        }),
{
    let s = a.push(separator) + b;
    let m = a.len() as int + 1;
    assert(s[a.len() as int] == separator);
    assert forall|i: int| 0 <= i < a.len() implies #[trigger] a[i] == s[i] by {}
    assert forall|i: int| 0 <= i < b.len() implies #[trigger] b[i] == s[m + i] by {}
    if is_number_run(s, c, d) {
        if d <= a.len() {
            assert(a.subrange(c, d) =~= s.subrange(c, d));
            lemma_start_kept(a, s, c);
            assert(is_run(a, c, d));
        } else if c >= m {
            assert(b.subrange(c - m, d - m) =~= s.subrange(c, d));
            if s[c] != '-' {
                let p = choose|p: int| #[trigger] is_detached(s, p, c);
                let q = if p < m {
                    m
                } else {
                    p
                };
                if p < m {
                    assert(s[a.len() as int] == '.');
                }
                assert(is_detached(b, q - m, c - m)) by {
                    assert forall|i: int| q - m <= i < c - m implies #[trigger] b[i] == '.' by {
                        assert(s[m + i] == '.');
                    }
                    if q - m > 0 {
                        assert(b[q - m - 1] == s[q - 1]);
                    }
                }
            }
            assert(is_run_start(b, c - m));
            assert forall|i: int| c - m < i < d - m implies continues_run(#[trigger] b[i]) by {
                assert(continues_run(s[m + i]));
            }
            assert(is_run(b, c - m, d - m));
        } else {
            if c < a.len() {
                assert(continues_run(s[a.len() as int]));
            }
            assert(false);
        }
    }
    if is_number_run(a, c, d) {
        assert(a.subrange(c, d) =~= s.subrange(c, d));
        if a[c] != '-' {
            let p = choose|p: int| #[trigger] is_detached(a, p, c);
            assert(is_detached(s, p, c));
        }
        assert(is_run_start(s, c));
        assert(is_run(s, c, d));
    }
    if is_number_run(b, c - m, d - m) {
        assert(b.subrange(c - m, d - m) =~= s.subrange(c, d));
        assert(b[c - m] == s[c]);
        if b[c - m] != '-' {
            let p = choose|p: int| #[trigger] is_detached(b, p, c - m);
            assert(is_detached(s, p + m, c)) by {
                assert forall|i: int| p + m <= i < c implies #[trigger] s[i] == '.' by {
                    assert(b[i - m] == '.');
                }
                if p > 0 {
                    assert(b[p - 1] == s[p + m - 1]);
                }
            }
        }
        assert(is_run_start(s, c));
        assert forall|i: int| c < i < d implies continues_run(#[trigger] s[i]) by {
            assert(continues_run(b[i - m]));
        }
        if d < s.len() {
            assert(b[d - m] == s[d]);
        }
        assert(is_run(s, c, d));
    }
}

/// A start of a run is one in a text that is cut off behind it.
proof fn lemma_start_kept(a: Seq<char>, s: Seq<char>, c: int)
    requires
        0 <= c < a.len() <= s.len(),
        forall|i: int| 0 <= i < a.len() ==> #[trigger] a[i] == s[i],
        is_run_start(s, c),
    ensures
        is_run_start(a, c),
{
    assert(a[c] == s[c]);
    if s[c] != '-' {
        let p = choose|p: int| #[trigger] is_detached(s, p, c);
        assert(is_detached(a, p, c)) by {
            assert forall|i: int| p <= i < c implies #[trigger] a[i] == '.' by {
                assert(s[i] == '.');
            }
            if p > 0 {
                assert(a[p - 1] == s[p - 1]);
            }
        }
    }
}

/// A separator splits a text into two: the last number is that of the second
/// part, and where that names none, that of the first.
pub proof fn law_last_number_behind_separator(a: Seq<char>, separator: char, b: Seq<char>)
    requires
        no_number_chars(seq![separator]),
    ensures
        last_number(a.push(separator) + b) == (if last_number(b) is Some {
            last_number(b)
        } else {
            last_number(a)
        }),
{
    let s = a.push(separator) + b;
    let m = a.len() as int + 1;
    assert(seq![separator][0] == separator);
    law_last_number(a);
    law_last_number(b);
    law_last_number(s);
    assert forall|c: int, d: int|
        (#[trigger] is_number_run(s, c, d)) == (is_number_run(a, c, d) || is_number_run(
            b,
            c - m,
            d - m,
        )) by {
        lemma_runs_apart(a, separator, b, c, d);
    }
    if last_number(b) is Some {
        let (c, d) = choose|c: int, d: int|
            {
                &&& #[trigger] is_number_run(b, c, d)
                &&& last_number(b)->0 == b.subrange(c, d)
                &&& forall|x: int, y: int| #[trigger] is_number_run(b, x, y) ==> x <= c
            };
        lemma_runs_apart(a, separator, b, c + m, d + m);
        assert(is_number_run(s, c + m, d + m));
        assert(s.subrange(c + m, d + m) =~= b.subrange(c, d));
        assert forall|x: int, y: int| #[trigger] is_number_run(s, x, y) implies x <= c + m by {
            if is_number_run(b, x - m, y - m) {
                assert(x - m <= c);
            }
        }
        assert(is_last_number(s, last_number(b)));
        lemma_last_number_unique(s, last_number(b), last_number(s));
    } else if last_number(a) is Some {
        let (c, d) = choose|c: int, d: int|
            {
                &&& #[trigger] is_number_run(a, c, d)
                &&& last_number(a)->0 == a.subrange(c, d)
                &&& forall|x: int, y: int| #[trigger] is_number_run(a, x, y) ==> x <= c
            };
        assert(is_number_run(s, c, d));
        assert(s.subrange(c, d) =~= a.subrange(c, d));
        assert forall|x: int, y: int| #[trigger] is_number_run(s, x, y) implies x <= c by {
            assert(!is_number_run(b, x - m, y - m));
            assert(is_number_run(a, x, y));
        }
        assert(is_last_number(s, last_number(a)));
        lemma_last_number_unique(s, last_number(a), last_number(s));
    } else {
        assert forall|x: int, y: int| !#[trigger] is_number_run(s, x, y) by {
            assert(!is_number_run(b, x - m, y - m));
            assert(!is_number_run(a, x, y));
        }
        assert(is_last_number(s, None));
        lemma_last_number_unique(s, None, last_number(s));
    }
}

/// A minus sign begins a number, whatever goes before it: with the digits and
/// points behind it, it is the last number where it reads as one, and else
/// counts nothing.
pub proof fn law_minus_begins_number(a: Seq<char>, rest: Seq<char>)
    requires
        all_number_chars(rest),
        forall|i: int| 0 <= i < rest.len() ==> #[trigger] rest[i] != '-',
    ensures
        ({
            let number = seq!['-'] + rest;
            last_number(a + number) == (if is_float_literal(number) {
                Some(number)
            } else {
                last_number(a)
            })
        }),
{
    let number = seq!['-'] + rest;
    let s = a + number;
    let m = a.len() as int;
    law_last_number(a);
    law_last_number(s);
    assert(s.subrange(m, s.len() as int) =~= number);
    assert(s[m] == '-');
    assert forall|i: int| m < i < s.len() implies continues_run(#[trigger] s[i]) by {
        assert(s[i] == rest[i - m - 1]);
    }
    assert(is_run_start(s, m));
    assert(is_run(s, m, s.len() as int));
    assert forall|i: int| 0 <= i < a.len() implies #[trigger] a[i] == s[i] by {}
    assert forall|c: int, d: int| #[trigger] is_number_run(s, c, d) implies c == m
        || is_number_run(a, c, d) by {
        if c > m {
            lemma_no_start_inside(s, m, s.len() as int, c);
        } else if c < m {
            if d > m {
                assert(continues_run(s[m]));
            }
            assert(a.subrange(c, d) =~= s.subrange(c, d));
            lemma_start_kept(a, s, c);
            assert(is_run(a, c, d));
        } else {
        }
    }
    assert forall|c: int, d: int| #[trigger] is_number_run(a, c, d) implies is_number_run(
        s,
        c,
        d,
    ) by {
        assert(a.subrange(c, d) =~= s.subrange(c, d));
        if a[c] != '-' {
            let p = choose|p: int| #[trigger] is_detached(a, p, c);
            assert(is_detached(s, p, c));
        }
        assert(is_run_start(s, c));
        assert(is_run(s, c, d));
    }
    if is_float_literal(number) {
        assert(is_number_run(s, m, s.len() as int));
        assert forall|c: int, d: int| #[trigger] is_number_run(s, c, d) implies c <= m by {}
        assert(is_last_number(s, Some(number)));
        lemma_last_number_unique(s, Some(number), last_number(s));
    } else {
        assert forall|c: int, d: int| #[trigger] is_number_run(s, c, d) implies is_number_run(
            a,
            c,
            d,
        ) by {
            if c == m {
                if d < s.len() {
                    assert(continues_run(s[d]));
                }
                assert(s.subrange(c, d) =~= number);
            }
        }
        match last_number(a) {
            Some(found) => {
                let (c, d) = choose|c: int, d: int|
                    {
                        &&& #[trigger] is_number_run(a, c, d)
                        &&& found == a.subrange(c, d)
                        &&& forall|x: int, y: int| #[trigger] is_number_run(a, x, y) ==> x <= c
                    };
                assert(s.subrange(c, d) =~= found);
                assert(is_number_run(s, c, d));
                assert forall|x: int, y: int| #[trigger] is_number_run(s, x, y) implies x
                    <= c by {
                    assert(is_number_run(a, x, y));
                }
                assert(is_last_number(s, Some(found)));
                lemma_last_number_unique(s, Some(found), last_number(s));
            },
            None => {
                assert(is_last_number(s, None));
                lemma_last_number_unique(s, None, last_number(s));
            },
        }
    }
}

/// Points before the first digit do not belong to a number; from that digit on,
/// digits and points do as far as they go, and they are the last number where
/// they read as one.
pub proof fn law_points_before_number(points: Seq<char>, number: Seq<char>)
    requires
        forall|i: int| 0 <= i < points.len() ==> #[trigger] points[i] == '.',
        number.len() > 0,
        '0' <= number[0] && number[0] <= '9',
        all_number_chars(number),
        forall|i: int| 0 <= i < number.len() ==> #[trigger] number[i] != '-',
    ensures
        last_number(points + number) == (if is_float_literal(number) {
            Some(number)
        } else {
            None
        }),
{
    let s = points + number;
    let m = points.len() as int;
    law_last_number(s);
    assert(s.subrange(m, s.len() as int) =~= number);
    assert(s[m] == number[0]);
    assert(is_detached(s, 0, m));
    assert(is_run_start(s, m));
    assert forall|i: int| m < i < s.len() implies continues_run(#[trigger] s[i]) by {
        assert(s[i] == number[i - m]);
    }
    assert(is_run(s, m, s.len() as int));
    assert forall|c: int, d: int| #[trigger] is_number_run(s, c, d) implies c == m && d
        == s.len() by {
        if c > m {
            lemma_no_start_inside(s, m, s.len() as int, c);
        } else if c < m {
            assert(s[c] == points[c]);
        } else if d < s.len() {
            assert(continues_run(s[d]));
        }
    }
    let found = if is_float_literal(number) {
        Some(number)
    } else {
        None
    };
    if is_float_literal(number) {
        assert(is_number_run(s, m, s.len() as int));
    }
    assert(is_last_number(s, found));
    lemma_last_number_unique(s, found, last_number(s));
}

/// A text that a tool call returns is read as a response would be: a finished
/// run that has nothing but the one gives the value of a finished run that has
/// nothing but the other.
pub proof fn law_text_result_read_as_response(told: AgentRun, said: AgentRun, structured: bool)
    requires
        told.done,
        is_blank(told.response@),
        successful_results(told.tool_calls@) == seq![Json::Text(said.response@)],
        said.done,
        successful_results(said.tool_calls@).len() == 0,
    ensures
        result_number(Json::Text(said.response@)) == number_in(
            said.response@,
            reading_of(said.response@),
        ),
        run_value(told, structured, reading_of(told.response@)) == run_value(
            said,
            false,
            reading_of(said.response@),
        ),
{
    let text = Json::Text(said.response@);
    lemma_failed_calls_skipped(told.tool_calls@);
    lemma_failed_calls_skipped(said.tool_calls@);
    assert(seq![text].last() == text);
    assert(last_result_number(seq![text].drop_last()) is None);
    if is_blank(said.response@) {
        law_blank_names_no_number(said.response@);
    }
}

/// A run that answers nothing itself has the average that the trip-data tool
/// returned, and not the number of trips.
pub proof fn law_tool_answer_is_the_average(
    run: AgentRun,
    structured: bool,
    average: Seq<char>,
    row_count: nat,
)
    requires
        is_float_literal(average),
        forall|i: int| 0 <= i < average.len() ==> is_number_char(#[trigger] average[i]),
        run.done,
        is_blank(run.response@),
        successful_results(run.tool_calls@) == seq![
            Json::Text(trip_summary_text(average, row_count)),
        ],
    ensures
        result_number(Json::Text(trip_summary_text(average, row_count))) == Some(
            NumberView::Literal(average),
        ),
        run_value(run, structured, reading_of(run.response@)) == OutputView::Found(
            NumberView::Literal(average),
        ),
{
    let text = Json::Text(trip_summary_text(average, row_count));
    law_summary_reads_back(average, row_count);
    lemma_failed_calls_skipped(run.tool_calls@);
    assert(seq![text].last() == text);
}

/// What a run comes to. One that is not done comes to zero. A response that is
/// not blank and reads as a structured output is the value itself; else it
/// gives the number that is in it, and a response that gives none is as good
/// as a blank one.
pub proof fn law_value_of_run(run: AgentRun, quiet: AgentRun, reading: Option<Json>)
    requires
        quiet.done,
        is_blank(quiet.response@),
        quiet.tool_calls@ == run.tool_calls@,
    ensures
        !run.done ==> run_value(run, true, reading) == OutputView::Zero && run_value(
            run,
            false,
            reading,
        ) == OutputView::Zero,
        run.done && !is_blank(run.response@) ==> run_value(run, true, reading)
            == OutputView::Structured,
        run.done && is_blank(run.response@) ==> run_value(run, true, reading) == run_value(
            run,
            false,
            reading,
        ),
        run.done && !is_blank(run.response@) ==> match number_in(run.response@, reading) {
            Some(number) => run_value(run, false, reading) == OutputView::Found(number),
            None => run_value(run, false, reading) == run_value(quiet, false, reading),
        },
{
}

/// Of the tool calls of a run, the last one that succeeded and gives a number
/// counts. A call that failed, or that gives none, changes nothing; and a run
/// without calls comes to zero where its response gives nothing.
pub proof fn law_last_call_counts(run: AgentRun, shorter: AgentRun, reading: Option<Json>)
    requires
        run.done,
        shorter.done,
        is_blank(run.response@),
        is_blank(shorter.response@),
    ensures
        run.tool_calls@.len() == 0 ==> run_value(run, false, reading) == OutputView::Zero,
        run.tool_calls@.len() > 0 && run.tool_calls@.last().success ==> match result_number(
            json_of(run.tool_calls@.last().result),
        ) {
            Some(number) => run_value(run, false, reading) == OutputView::Found(number),
            None => shorter.tool_calls@ == run.tool_calls@.drop_last() ==> run_value(
                run,
                false,
                reading,
            ) == run_value(shorter, false, reading),
        },
        run.tool_calls@.len() > 0 && !run.tool_calls@.last().success && shorter.tool_calls@
            == run.tool_calls@.drop_last() ==> run_value(run, false, reading) == run_value(
            shorter,
            false,
            reading,
        ),
{
}

/// The results that count are those of the calls that succeeded, in their
/// order.
pub proof fn law_successful_results(calls: Seq<ToolCallOutcome>, call: ToolCallOutcome)
    ensures
        successful_results(Seq::empty()) == Seq::<Json>::empty(),
        call.success ==> successful_results(calls.push(call)) == successful_results(calls).push(
            json_of(call.result),
        ),
        !call.success ==> successful_results(calls.push(call)) == successful_results(calls),
{
    assert(calls.push(call).drop_last() =~= calls);
}

} // verus!
