//! Floating-point literals: the texts that the standard library reads as a
//! double-precision number.

use vstd::prelude::*;

use crate::text::{digit, is_digit, to_chars};

verus! {

/// Only decimal digits, possibly none.
pub open spec fn all_digits(s: Seq<char>) -> bool {
    forall|i: int| 0 <= i < s.len() ==> is_digit(#[trigger] s[i])
}

/// A plus or a minus.
pub open spec fn is_sign(c: char) -> bool {
    c == '+' || c == '-'
}

/// `c` in lower case, where it is an ASCII letter.
pub open spec fn ascii_lower(c: char) -> char {
    if 'A' <= c && c <= 'Z' {
        (c as int + 32) as char
    } else {
        c
    }
}

/// `s` with its ASCII letters in lower case.
pub open spec fn ascii_lower_all(s: Seq<char>) -> Seq<char> {
    s.map_values(|c: char| ascii_lower(c))
}

/// Digits with at most one point among them, and at least one digit.
pub open spec fn is_mantissa(s: Seq<char>) -> bool {
    ||| s.len() > 0 && all_digits(s)
    ||| s.len() > 1 && exists|p: int| #[trigger] is_split_at_point(s, p)
}

/// The only point of `s` stands at `p`, and all else is digits.
pub open spec fn is_split_at_point(s: Seq<char>, p: int) -> bool {
    &&& 0 <= p < s.len()
    &&& s[p] == '.'
    &&& all_digits(s.take(p))
    &&& all_digits(s.skip(p + 1))
}

/// The letter `e`, a sign or none, and at least one digit.
pub open spec fn is_exponent(s: Seq<char>) -> bool {
    &&& s.len() > 1
    &&& ascii_lower(s[0]) == 'e'
    &&& {
        ||| all_digits(s.skip(1))
        ||| s.len() > 2 && is_sign(s[1]) && all_digits(s.skip(2))
    }
}

/// A mantissa, with an exponent or without.
pub open spec fn is_number(s: Seq<char>) -> bool {
    exists|k: int| #[trigger] is_number_split(s, k)
}

/// The mantissa of `s` ends at `k`.
pub open spec fn is_number_split(s: Seq<char>, k: int) -> bool {
    &&& 0 <= k <= s.len()
    &&& is_mantissa(s.take(k))
    &&& k == s.len() || is_exponent(s.skip(k))
}

/// One of the words for a value that has no digits, in any letter case.
pub open spec fn is_special(s: Seq<char>) -> bool {
    let lower = ascii_lower_all(s);
    lower == "inf"@ || lower == "infinity"@ || lower == "nan"@
}

/// `s` without a leading sign.
pub open spec fn unsigned(s: Seq<char>) -> Seq<char> {
    if s.len() > 0 && is_sign(s[0]) {
        s.skip(1)
    } else {
        s
    }
}

/// A text that reads as a double-precision number: a sign or none, then a
/// number or a special word.
pub open spec fn is_float_literal(s: Seq<char>) -> bool {
    is_number(unsigned(s)) || is_special(unsigned(s))
}

/// `c` in lower case, where it is an ASCII letter.
pub fn lower_char(c: char) -> (lower: char)
    ensures
        lower == ascii_lower(c),
{
    if 'A' <= c && c <= 'Z' {
        (c as u8 + 32) as char
    } else {
        c
    }
}

/// Where the digits of `s` that begin at `from` end.
fn skip_digits(s: &Vec<char>, from: usize) -> (end: usize)
    requires
        from <= s@.len(),
    ensures
        from <= end <= s@.len(),
        all_digits(s@.subrange(from as int, end as int)),
        end < s@.len() ==> !is_digit(s@[end as int]),
{
    let mut end: usize = from;
    while end < s.len() && digit(s[end])
        invariant
            from <= end <= s@.len(),
            forall|i: int| from <= i < end ==> is_digit(#[trigger] s@[i]),
        decreases s@.len() - end,
    {
        end = end + 1;
    }
    assert forall|i: int| 0 <= i < end - from implies is_digit(
        #[trigger] s@.subrange(from as int, end as int)[i],
    ) by {
        assert(s@.subrange(from as int, end as int)[i] == s@[from + i]);
    }
    end
}

/// Whether `s[from..]` is `word`, letter case aside.
fn ends_with_word(s: &Vec<char>, from: usize, word: &Vec<char>) -> (same: bool)
    requires
        from <= s@.len(),
    ensures
        same == (ascii_lower_all(s@.skip(from as int)) == word@),
{
    let ghost tail = ascii_lower_all(s@.skip(from as int));
    if s.len() - from != word.len() {
        assert(tail.len() != word@.len());
        return false;
    }
    let mut i: usize = 0;
    while i < word.len()
        invariant
            from <= s@.len(),
            i <= word@.len(),
            s@.len() - from == word@.len(),
            s@.len() <= usize::MAX,
            tail == ascii_lower_all(s@.skip(from as int)),
            forall|j: int| 0 <= j < i ==> #[trigger] tail[j] == word@[j],
        decreases word@.len() - i,
    {
        if lower_char(s[from + i]) != word[i] {
            assert(tail[i as int] != word@[i as int]);
            return false;
        }
        i = i + 1;
    }
    assert(tail =~= word@);
    true
}

/// A mantissa of `s` ends nowhere but where its digits and points end.
proof fn lemma_split_is_forced(s: Seq<char>, k: int, end: int)
    requires
        is_number_split(s, k),
        0 <= end <= s.len(),
        forall|i: int| 0 <= i < end ==> is_digit(#[trigger] s[i]) || s[i] == '.',
        end < s.len() ==> !is_digit(s[end]) && s[end] != '.',
    ensures
        k == end,
{
    let m = s.take(k);
    assert forall|i: int| 0 <= i < k implies is_digit(#[trigger] s[i]) || s[i] == '.' by {
        assert(m[i] == s[i]);
        if !(m.len() > 0 && all_digits(m)) {
            let p = choose|p: int| #[trigger] is_split_at_point(m, p);
            if i < p {
                assert(m.take(p)[i] == s[i]);
            } else if i > p {
                assert(m.skip(p + 1)[i - p - 1] == s[i]);
            }
        }
    }
    if k < s.len() {
        assert(s.skip(k)[0] == s[k]);
        assert(ascii_lower(s[k]) == 'e');
    }
}

/// Whether `s[from..]` is an exponent.
fn exponent_from(s: &Vec<char>, from: usize) -> (yes: bool)
    requires
        from <= s@.len(),
    ensures
        yes == is_exponent(s@.skip(from as int)),
{
    let ghost e = s@.skip(from as int);
    if s.len() - from < 2 || lower_char(s[from]) != 'e' {
        return false;
    }
    let signed = s[from + 1] == '+' || s[from + 1] == '-';
    let start: usize = if signed {
        from + 2
    } else {
        from + 1
    };
    assert(e[1] == s@[from + 1]);
    let end = skip_digits(s, start);
    let yes = start < s.len() && end == s.len();
    proof {
        let skipped = start - from;
        let digits = e.skip(skipped);
        assert(digits =~= s@.subrange(start as int, s@.len() as int));
        if end < s.len() {
            assert(digits[end - start] == s@[end as int]);
            assert(!all_digits(digits));
        }
        if signed {
            assert(e.skip(1)[0] == e[1]);
            assert(!all_digits(e.skip(1)));
        }
    }
    yes
}

/// Whether `s[from..]` is a number.
fn number_from(s: &Vec<char>, from: usize) -> (yes: bool)
    requires
        from <= s@.len(),
    ensures
        yes == is_number(s@.skip(from as int)),
{
    let ghost t = s@.skip(from as int);
    let whole_end = skip_digits(s, from);
    let point = whole_end < s.len() && s[whole_end] == '.';
    let end = if point {
        skip_digits(s, whole_end + 1)
    } else {
        whole_end
    };
    let digits: usize = if point {
        end - from - 1
    } else {
        end - from
    };
    let yes = digits > 0 && (end == s.len() || exponent_from(s, end));
    proof {
        let k = end - from;
        let p = whole_end - from;
        let m = t.take(k);
        let whole = s@.subrange(from as int, whole_end as int);
        assert(t.skip(k) =~= s@.skip(end as int));
        assert forall|i: int| 0 <= i < p implies is_digit(#[trigger] t[i]) by {
            assert(whole[i] == t[i]);
        }
        if point {
            let frac = s@.subrange(whole_end as int + 1, end as int);
            assert(t[p] == '.');
            assert forall|i: int| p < i < k implies is_digit(#[trigger] t[i]) by {
                assert(frac[i - p - 1] == t[i]);
            }
            assert(m.take(p) =~= whole);
            assert(m.skip(p + 1) =~= frac);
            assert(is_split_at_point(m, p));
            assert(!is_digit(m[p]));
        } else {
            assert(m =~= whole);
        }
        if yes {
            assert(is_number_split(t, k));
        }
        if is_number(t) {
            let j = choose|j: int| #[trigger] is_number_split(t, j);
            if end < s.len() && s@[end as int] == '.' {
                // A second point: the mantissa that reaches it would hold two.
                let mj = t.take(j);
                assert(t[k] == '.');
                if j <= k {
                    if j < k {
                        assert(t.skip(j)[0] == t[j]);
                        assert(is_digit(t[j]) || t[j] == '.');
                    } else {
                        assert(t.skip(j)[0] == t[j]);
                    }
                    assert(ascii_lower(t[j]) == 'e');
                } else {
                    assert(mj[p] == '.' && mj[k] == '.');
                    assert(!is_digit(mj[p]));
                    assert(!all_digits(mj));
                    let q = choose|q: int| #[trigger] is_split_at_point(mj, q);
                    if q <= p {
                        assert(mj.skip(q + 1)[k - q - 1] == mj[k]);
                    } else {
                        assert(mj.take(q)[p] == mj[p]);
                    }
                }
                assert(false);
            } else {
                if end < s.len() {
                    assert(t[k] == s@[end as int]);
                }
                lemma_split_is_forced(t, j, k);
                if digits == 0 {
                    if point {
                        assert(m.len() == 1);
                        assert(m[0] == '.');
                    }
                    assert(!is_mantissa(m));
                }
            }
        }
    }
    yes
}

/// Whether `s` reads as a double-precision number.
pub fn float_literal(s: &Vec<char>) -> (yes: bool)
    ensures
        yes == is_float_literal(s@),
{
    let from: usize = if s.len() > 0 && (s[0] == '+' || s[0] == '-') {
        1
    } else {
        0
    };
    assert(s@.skip(0) =~= s@);
    number_from(s, from) || ends_with_word(s, from, &to_chars("inf")) || ends_with_word(
        s,
        from,
        &to_chars("infinity"),
    ) || ends_with_word(s, from, &to_chars("nan"))
}

} // verus!
