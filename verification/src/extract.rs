//! The number that a free text names.

use vstd::prelude::*;

use crate::literal::{ascii_lower_all, float_literal, is_float_literal, lower_char};
use crate::text::{digit, from_chars, is_digit, to_chars};

verus! {

/// A character that continues a run of number characters.
pub open spec fn continues_run(c: char) -> bool {
    is_digit(c) || c == '.'
}

/// A character that may stand in a number before the word `minutes`.
pub open spec fn is_number_char(c: char) -> bool {
    is_digit(c) || c == '.' || c == '-'
}

/// Between `p` and `a` there are only points, and what stands before `p`
/// belongs to no number.
pub open spec fn is_detached(s: Seq<char>, p: int, a: int) -> bool {
    &&& 0 <= p <= a <= s.len()
    &&& forall|i: int| p <= i < a ==> #[trigger] s[i] == '.'
    &&& p > 0 ==> !is_number_char(s[p - 1])
}

/// A run begins at `a`: with a minus, or with a digit that no earlier run
/// has taken up.
pub open spec fn is_run_start(s: Seq<char>, a: int) -> bool {
    &&& 0 <= a < s.len()
    &&& {
        ||| s[a] == '-'
        ||| is_digit(s[a]) && exists|p: int| #[trigger] is_detached(s, p, a)
    }
}

/// `s[a..b]` is a run: from a start on, digits and points as far as they go.
pub open spec fn is_run(s: Seq<char>, a: int, b: int) -> bool {
    &&& is_run_start(s, a)
    &&& a < b <= s.len()
    &&& forall|i: int| a < i < b ==> continues_run(#[trigger] s[i])
    &&& b < s.len() ==> !continues_run(s[b])
}

/// `s[a..b]` is a run that reads as a number.
pub open spec fn is_number_run(s: Seq<char>, a: int, b: int) -> bool {
    is_run(s, a, b) && is_float_literal(s.subrange(a, b))
}

/// `found` is the last run of `s` that reads as a number; `None` when no run
/// does.
pub open spec fn is_last_number(s: Seq<char>, found: Option<Seq<char>>) -> bool {
    match found {
        Some(number) => exists|a: int, b: int|
            {
                &&& #[trigger] is_number_run(s, a, b)
                &&& number == s.subrange(a, b)
                &&& forall|c: int, d: int| #[trigger] is_number_run(s, c, d) ==> c <= a
            },
        None => forall|a: int, b: int| !#[trigger] is_number_run(s, a, b),
    }
}

/// The last number of `s`.
pub open spec fn last_number(s: Seq<char>) -> Option<Seq<char>> {
    choose|found: Option<Seq<char>>| is_last_number(s, found)
}

/// The word `minutes` stands at `m`, letter case aside.
pub open spec fn is_minutes_at(s: Seq<char>, m: int) -> bool {
    0 <= m && m + 7 <= s.len() && ascii_lower_all(s.subrange(m, m + 7)) == "minutes"@
}

/// The word `minutes` stands at `m` and nowhere behind it.
pub open spec fn is_last_minutes(s: Seq<char>, m: int) -> bool {
    is_minutes_at(s, m) && forall|n: int| #[trigger] is_minutes_at(s, n) ==> n <= m
}

/// `s[a..b]` is the stretch of number characters next before `m`, as long as
/// it gets.
pub open spec fn is_stretch_before(s: Seq<char>, m: int, a: int, b: int) -> bool {
    &&& 0 <= a < b <= m <= s.len()
    &&& forall|i: int| a <= i < b ==> is_number_char(#[trigger] s[i])
    &&& forall|i: int| b <= i < m ==> !is_number_char(#[trigger] s[i])
    &&& a > 0 ==> !is_number_char(s[a - 1])
}

/// `found` is the stretch next before the last `minutes`, if it reads as a
/// number; `None` when it does not, or there is no such stretch or word.
pub open spec fn is_minutes_number(s: Seq<char>, found: Option<Seq<char>>) -> bool {
    match found {
        Some(number) => exists|m: int, a: int, b: int|
            {
                &&& is_last_minutes(s, m)
                &&& #[trigger] is_stretch_before(s, m, a, b)
                &&& is_float_literal(s.subrange(a, b))
                &&& number == s.subrange(a, b)
            },
        None => forall|m: int, a: int, b: int|
            is_last_minutes(s, m) && #[trigger] is_stretch_before(s, m, a, b)
                ==> !is_float_literal(s.subrange(a, b)),
    }
}

/// The number next before the last `minutes` of `s`.
pub open spec fn minutes_number(s: Seq<char>) -> Option<Seq<char>> {
    choose|found: Option<Seq<char>>| is_minutes_number(s, found)
}

/// The view of an optional text.
pub open spec fn text_view(text: Option<String>) -> Option<Seq<char>> {
    match text {
        Some(t) => Some(t@),
        None => None,
    }
}

/// Position `i` lies outside every run that begins before it.
spec fn is_fresh(s: Seq<char>, i: int) -> bool {
    &&& 0 <= i <= s.len()
    &&& exists|p: int| #[trigger] is_free_from(s, p, i)
}

/// Either nothing but points between `p` and `i` and no number before `p`, or
/// a character at `i` that continues no run.
spec fn is_free_from(s: Seq<char>, p: int, i: int) -> bool {
    is_detached(s, p, i) || (p == i && (i == s.len() || !continues_run(s[i])))
}

/// Two runs of one start are one run.
proof fn lemma_run_end_unique(s: Seq<char>, a: int, b: int, d: int)
    requires
        is_run(s, a, b),
        is_run(s, a, d),
    ensures
        b == d,
{
    if b < d {
        assert(continues_run(s[b]));
    } else if d < b {
        assert(continues_run(s[d]));
    }
}

/// No run begins inside another.
pub proof fn lemma_no_start_inside(s: Seq<char>, a: int, b: int, c: int)
    requires
        is_run(s, a, b),
        a < c < b,
    ensures
        !is_run_start(s, c),
{
    assert(continues_run(s[c]));
    if is_run_start(s, c) {
        let p = choose|p: int| #[trigger] is_detached(s, p, c);
        if p <= a {
            assert(s[a] == '.');
        } else {
            assert(p - 1 >= a);
            assert(is_number_char(s[p - 1])) by {
                if p - 1 > a {
                    assert(continues_run(s[p - 1]));
                }
            }
        }
    }
}

/// The last number in `text`: the last stretch of digits and points, with a
/// minus before it or not, that reads as a number.
pub fn extract_last_number(text: &str) -> (number: Option<String>)
    ensures
        is_last_number(text@, text_view(number)),
        text_view(number) == last_number(text@),
{
    let s = to_chars(text);
    let mut idx: usize = 0;
    let mut last: Option<String> = None;
    assert(is_detached(s@, 0, 0));
    assert(is_free_from(s@, 0, 0));
    while idx < s.len()
        invariant
            s@ == text@,
            idx <= s@.len(),
            is_fresh(s@, idx as int),
            match last {
                Some(number) => exists|a: int, b: int|
                    {
                        &&& a < idx
                        &&& #[trigger] is_number_run(s@, a, b)
                        &&& number@ == s@.subrange(a, b)
                        &&& forall|c: int, d: int| #[trigger]
                            is_number_run(s@, c, d) && c < idx ==> c <= a
                    },
                None => forall|a: int, b: int| #[trigger] is_number_run(s@, a, b) ==> a >= idx,
            },
        decreases s@.len() - idx,
    {
        let ghost old_idx = idx as int;
        let c = s[idx];
        if !(digit(c) || c == '-') {
            proof {
                let p = choose|p: int| #[trigger] is_free_from(s@, p, old_idx);
                if c == '.' {
                    assert(is_detached(s@, p, old_idx + 1));
                    assert(is_free_from(s@, p, old_idx + 1));
                } else {
                    assert(is_detached(s@, old_idx + 1, old_idx + 1));
                    assert(is_free_from(s@, old_idx + 1, old_idx + 1));
                }
                assert(!is_run_start(s@, old_idx));
            }
            idx = idx + 1;
            continue;
        }
        let start: usize = idx;
        idx = idx + 1;
        while idx < s.len() && (digit(s[idx]) || s[idx] == '.')
            invariant
                start < idx <= s@.len(),
                forall|i: int| start < i < idx ==> continues_run(#[trigger] s@[i]),
            decreases s@.len() - idx,
        {
            idx = idx + 1;
        }
        proof {
            if c != '-' {
                let p = choose|p: int| #[trigger] is_free_from(s@, p, old_idx);
                assert(is_detached(s@, p, old_idx));
            }
            assert(is_run(s@, start as int, idx as int));
            assert(is_free_from(s@, idx as int, idx as int));
            assert forall|a: int, b: int| #[trigger]
                is_number_run(s@, a, b) && old_idx <= a < idx implies a == start && b == idx by {
                if a > start {
                    lemma_no_start_inside(s@, start as int, idx as int, a);
                } else {
                    lemma_run_end_unique(s@, a, b, idx as int);
                }
            }
        }
        let run = from_chars(&s, start, idx);
        let run_chars = to_chars(run.as_str());
        if float_literal(&run_chars) {
            assert(is_number_run(s@, start as int, idx as int));
            last = Some(run);
        }
    }
    proof {
        assert(is_last_number(text@, text_view(last)));
        lemma_last_number_unique(text@, text_view(last), last_number(text@));
    }
    last
}

/// A text has one last number at most.
pub proof fn lemma_last_number_unique(s: Seq<char>, f: Option<Seq<char>>, g: Option<Seq<char>>)
    requires
        is_last_number(s, f),
        is_last_number(s, g),
    ensures
        f == g,
{
    if f is Some && g is Some {
        let (a, b) = choose|a: int, b: int|
            {
                &&& #[trigger] is_number_run(s, a, b)
                &&& f->0 == s.subrange(a, b)
                &&& forall|c: int, d: int| #[trigger] is_number_run(s, c, d) ==> c <= a
            };
        let (c, d) = choose|c: int, d: int|
            {
                &&& #[trigger] is_number_run(s, c, d)
                &&& g->0 == s.subrange(c, d)
                &&& forall|x: int, y: int| #[trigger] is_number_run(s, x, y) ==> x <= c
            };
        lemma_run_end_unique(s, a, b, d);
    }
}

/// Two stretches before the last `minutes` are one.
pub proof fn lemma_stretch_unique(s: Seq<char>, m: int, a: int, b: int, n: int, c: int, d: int)
    requires
        is_last_minutes(s, m),
        is_stretch_before(s, m, a, b),
        is_last_minutes(s, n),
        is_stretch_before(s, n, c, d),
    ensures
        m == n,
        a == c,
        b == d,
{
    assert(m == n);
    if b < d {
        assert(is_number_char(s[d - 1]));
    } else if d < b {
        assert(is_number_char(s[b - 1]));
    }
    if a < c {
        assert(is_number_char(s[c - 1]));
    } else if c < a {
        assert(is_number_char(s[a - 1]));
    }
}

/// What is before the last `minutes` is one number at most.
pub proof fn lemma_minutes_number_unique(s: Seq<char>, f: Option<Seq<char>>, g: Option<Seq<char>>)
    requires
        is_minutes_number(s, f),
        is_minutes_number(s, g),
    ensures
        f == g,
{
    if f is Some || g is Some {
        let (x, y) = if f is Some {
            (f, g)
        } else {
            (g, f)
        };
        let (m, a, b) = choose|m: int, a: int, b: int|
            {
                &&& is_last_minutes(s, m)
                &&& #[trigger] is_stretch_before(s, m, a, b)
                &&& is_float_literal(s.subrange(a, b))
                &&& x->0 == s.subrange(a, b)
            };
        if y is Some {
            let (n, c, d) = choose|n: int, c: int, d: int|
                {
                    &&& is_last_minutes(s, n)
                    &&& #[trigger] is_stretch_before(s, n, c, d)
                    &&& is_float_literal(s.subrange(c, d))
                    &&& y->0 == s.subrange(c, d)
                };
            lemma_stretch_unique(s, m, a, b, n, c, d);
        }
    }
}

/// Whether `c` may stand in a number before the word `minutes`.
fn number_char(c: char) -> (yes: bool)
    ensures
        yes == is_number_char(c),
{
    digit(c) || c == '.' || c == '-'
}

/// Where the last `minutes` of `s` stands.
fn find_last_minutes(s: &Vec<char>) -> (at: Option<usize>)
    ensures
        match at {
            Some(m) => is_last_minutes(s@, m as int),
            None => forall|m: int| !#[trigger] is_minutes_at(s@, m),
        },
{
    let word = to_chars("minutes");
    proof {
        reveal_strlit("minutes");
    }
    if s.len() < 7 {
        return None;
    }
    let mut end: usize = s.len();
    while end >= 7
        invariant
            7 <= s@.len() <= usize::MAX,
            6 <= end <= s@.len(),
            word@ == "minutes"@,
            word@.len() == 7,
            forall|n: int| #[trigger] is_minutes_at(s@, n) ==> n + 7 <= end,
        decreases end,
    {
        let at: usize = end - 7;
        let ghost piece = ascii_lower_all(s@.subrange(at as int, at + 7));
        let mut i: usize = 0;
        while i < 7 && lower_char(s[at + i]) == word[i]
            invariant
                i <= 7,
                at + 7 <= s@.len() <= usize::MAX,
                word@.len() == 7,
                piece == ascii_lower_all(s@.subrange(at as int, at + 7)),
                forall|j: int| 0 <= j < i ==> #[trigger] piece[j] == word@[j],
            decreases 7 - i,
        {
            i = i + 1;
        }
        if i == 7 {
            assert(piece =~= word@);
            assert(is_minutes_at(s@, at as int));
            return Some(at);
        }
        assert(piece[i as int] != word@[i as int]);
        assert(!is_minutes_at(s@, at as int));
        end = end - 1;
    }
    None
}

/// The number that stands next before the last `minutes` of `text`: `None`
/// when the word is missing, nothing like a number stands before it, or what
/// stands there does not read as one.
pub fn extract_number_before_minutes(text: &str) -> (number: Option<String>)
    ensures
        is_minutes_number(text@, text_view(number)),
        text_view(number) == minutes_number(text@),
{
    let number = number_before_minutes(&to_chars(text));
    proof {
        lemma_minutes_number_unique(text@, text_view(number), minutes_number(text@));
    }
    number
}

/// The number that stands next before the last `minutes` of `s`.
fn number_before_minutes(s: &Vec<char>) -> (number: Option<String>)
    ensures
        is_minutes_number(s@, text_view(number)),
{
    let minutes = match find_last_minutes(s) {
        Some(m) => m,
        None => {
            return None;
        },
    };
    let mut end: usize = minutes;
    while end > 0 && !number_char(s[end - 1])
        invariant
            end <= minutes <= s@.len(),
            forall|i: int| end <= i < minutes ==> !is_number_char(#[trigger] s@[i]),
        decreases end,
    {
        end = end - 1;
    }
    if end == 0 {
        assert forall|m: int, a: int, b: int| is_last_minutes(s@, m)
            && #[trigger] is_stretch_before(s@, m, a, b) implies false by {
            assert(m == minutes);
            assert(is_number_char(s@[a]));
        }
        return None;
    }
    let mut start: usize = end - 1;
    while start > 0 && number_char(s[start - 1])
        invariant
            start < end <= s@.len(),
            forall|i: int| start <= i < end ==> is_number_char(#[trigger] s@[i]),
        decreases start,
    {
        start = start - 1;
    }
    assert(is_stretch_before(s@, minutes as int, start as int, end as int));
    let stretch = from_chars(s, start, end);
    let stretch_chars = to_chars(stretch.as_str());
    if float_literal(&stretch_chars) {
        Some(stretch)
    } else {
        assert forall|m: int, a: int, b: int| is_last_minutes(s@, m)
            && #[trigger] is_stretch_before(s@, m, a, b) implies !is_float_literal(
            s@.subrange(a, b),
        ) by {
            lemma_stretch_unique(
                s@,
                m,
                a,
                b,
                minutes as int,
                start as int,
                end as int,
            );
        }
        None
    }
}

} // verus!
