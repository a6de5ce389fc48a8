//! What the costs of a run are measured by.

use vstd::arithmetic::power2::{
    lemma2_to64, lemma2_to64_rest, lemma_pow2_adds, lemma_pow2_pos, lemma_pow2_strictly_increases,
    pow2,
};
use vstd::prelude::*;

use crate::arith::{finer, meaning, rounded, Double, Meaning, INFINITY};
use crate::double::EXACT_LIMIT;
use crate::exact::{
    law_seconds_of_parts, lemma_minus_exact, lemma_of_meaning, lemma_of_over, lemma_of_over_factor,
    lemma_of_units, lemma_parts_plus, lemma_parts_units, parts_of, PART,
};
use crate::literal::all_digits;
use crate::metrics::lemma_minus_all;
use crate::monitor::{
    cpu_percent, law_numeral_reads_back, lemma_open_word, megabytes, numeral_value,
    resident_bytes_in, resident_pages_in, time_of, u64_reading, words, CpuTime, PeakMemory,
};
use crate::order::{
    lemma_amount, lemma_finer_exact, lemma_negated, lemma_rounded_moved, lemma_rounded_ordered,
    lemma_rounded_scaled, lemma_rounded_sign, units,
};
use crate::reading::law_decimal_is_digits;
use crate::stats::seconds_of;
use crate::text::{decimal, is_blank, is_digit, is_white_space};

verus! {

/// A word: no white space, and something at least.
pub open spec fn is_word(text: Seq<char>) -> bool {
    &&& text.len() > 0
    &&& forall|i: int| 0 <= i < text.len() ==> !is_white_space(#[trigger] text[i])
}

/// White space behind a text adds no word to it.
proof fn lemma_words_before_gap(a: Seq<char>, gap: Seq<char>)
    requires
        is_blank(gap),
    ensures
        words(a + gap) == words(a),
    decreases gap.len(),
{
    if gap.len() == 0 {
        assert(a + gap =~= a);
    } else {
        let s = a + gap;
        assert(s.drop_last() =~= a + gap.drop_last());
        assert(is_white_space(gap[gap.len() - 1]));
        lemma_words_before_gap(a, gap.drop_last());
    }
}

/// The words of two texts with white space between them are those of the one
/// and then those of the other; a word is its own only word, and white space
/// has none.
pub proof fn law_words_between_gaps(a: Seq<char>, gap: Seq<char>, b: Seq<char>)
    requires
        gap.len() > 0,
        is_blank(gap),
    ensures
        words(a + gap + b) == words(a) + words(b),
        is_word(a) ==> words(a) == seq![a],
        words(gap) == Seq::<Seq<char>>::empty(),
{
    lemma_words_joined(a, gap, b);
    if is_word(a) {
        lemma_one_word(a);
    }
    lemma_words_before_gap(Seq::empty(), gap);
    assert(Seq::<char>::empty() + gap =~= gap);
}

/// The words of two texts with white space between them.
proof fn lemma_words_joined(a: Seq<char>, gap: Seq<char>, b: Seq<char>)
    requires
        gap.len() > 0,
        is_blank(gap),
    ensures
        words(a + gap + b) == words(a) + words(b),
    decreases b.len(),
{
    let s = a + gap + b;
    if b.len() == 0 {
        assert(s =~= a + gap);
        lemma_words_before_gap(a, gap);
        assert(words(a) + words(b) =~= words(a));
    } else {
        let shorter = b.drop_last();
        lemma_words_joined(a, gap, shorter);
        assert(s.drop_last() =~= a + gap + shorter);
        assert(s.last() == b.last());
        if is_white_space(b.last()) {
        } else if b.len() == 1 {
            assert(s[s.len() - 2] == gap[gap.len() - 1]);
            assert(is_white_space(gap[gap.len() - 1]));
            assert(words(shorter) =~= Seq::<Seq<char>>::empty());
            assert(words(s) =~= words(a) + words(b));
        } else {
            assert(s[s.len() - 2] == b[b.len() - 2]);
            if is_white_space(b[b.len() - 2]) {
                assert(words(s) =~= words(a) + words(b));
            } else {
                lemma_open_word(shorter);
                let before = words(a) + words(shorter);
                assert(before.drop_last() =~= words(a) + words(shorter).drop_last());
                assert(before.last() == words(shorter).last());
                assert(words(s) =~= words(a) + words(b));
            }
        }
    }
}

/// A word is its own only word.
proof fn lemma_one_word(a: Seq<char>)
    requires
        is_word(a),
    ensures
        words(a) == seq![a],
    decreases a.len(),
{
    let shorter = a.drop_last();
    assert(!is_white_space(a[a.len() - 1]));
    if a.len() == 1 {
        assert(words(shorter) =~= Seq::<Seq<char>>::empty());
        assert(a =~= seq![a.last()]);
        assert(words(a) =~= seq![a]);
    } else {
        assert forall|i: int| 0 <= i < shorter.len() implies !is_white_space(
            #[trigger] shorter[i],
        ) by {
            assert(shorter[i] == a[i]);
        }
        lemma_one_word(shorter);
        assert(!is_white_space(a[a.len() - 2]));
        assert(shorter.push(a.last()) =~= a);
        assert(words(a) =~= seq![a]);
    }
}

/// The second word of the kernel's memory status counts the resident pages, and
/// their number times the size of a page is the resident memory.
pub proof fn law_resident_memory_in_second_word(
    first: Seq<char>,
    gap: Seq<char>,
    pages: nat,
    rest: Seq<char>,
    page_size: u64,
)
    requires
        is_word(first),
        gap.len() > 0,
        is_blank(gap),
        rest.len() > 0 ==> is_white_space(rest[0]),
        pages <= u64::MAX,
    ensures
        resident_pages_in(first + gap + (decimal(pages) + rest)) == Some(pages as u64),
        resident_bytes_in(first + gap + (decimal(pages) + rest), page_size) == Some(
            pages * page_size,
        ),
        resident_pages_in(first + gap) is None,
        resident_bytes_in(first + gap, page_size) is None,
{
    let count = decimal(pages);
    law_decimal_is_digits(pages);
    law_numeral_reads_back(pages);
    assert forall|i: int| 0 <= i < count.len() implies !is_white_space(#[trigger] count[i]) by {
        assert(is_digit(count[i]));
    }
    law_words_between_gaps(first, gap, count + rest);
    lemma_words_joined(first, gap, Seq::empty());
    assert(first + gap + Seq::<char>::empty() =~= first + gap);
    lemma_one_word(count);
    if rest.len() == 0 {
        assert(count + rest =~= count);
    } else {
        let space = rest.take(1);
        assert(is_blank(space));
        assert(count + rest =~= count + space + rest.skip(1));
        lemma_words_joined(count, space, rest.skip(1));
    }
    let all = words(first + gap + (count + rest));
    assert(all[1] == words(count + rest)[0]);
    assert(words(count + rest)[0] == count);
}

/// A numeral is read with a plus before it and with leading zeros, but not with
/// anything else in it; and what does not fit is not read.
pub proof fn law_numerals_read(n: nat, digits: Seq<char>, other: Seq<char>, first: char)
    requires
        digits.len() > 0,
        all_digits(digits),
        exists|i: int| 0 < i < other.len() && !is_digit(#[trigger] other[i]),
    ensures
        n <= u64::MAX ==> u64_reading(seq!['+'] + decimal(n)) == Some(n as u64),
        n > u64::MAX ==> u64_reading(decimal(n)) is None,
        u64_reading(seq!['0'] + digits) == u64_reading(digits),
        u64_reading(other) is None,
        u64_reading(Seq::empty()) is None,
        u64_reading(seq!['+']) is None,
        !('0' <= first && first <= '9') && first != '+' ==> u64_reading(seq![first] + digits) is None,
        !('0' <= first && first <= '9') ==> u64_reading(seq![first]) is None,
{
    law_decimal_is_digits(n);
    law_numeral_reads_back(n);
    let plus = seq!['+'] + decimal(n);
    assert(plus.skip(1) =~= decimal(n));
    assert(is_digit(decimal(n)[0]));
    let padded = seq!['0'] + digits;
    lemma_leading_zero(digits);
    assert forall|i: int| 0 <= i < padded.len() implies is_digit(#[trigger] padded[i]) by {
        if i > 0 {
            assert(padded[i] == digits[i - 1]);
        }
    }
    assert(is_digit(digits[0]));
    let i = choose|i: int| 0 < i < other.len() && !is_digit(#[trigger] other[i]);
    if other[0] == '+' {
        assert(other.skip(1)[i - 1] == other[i]);
    }
    assert(seq!['+'].skip(1) =~= Seq::<char>::empty());
    let marked = seq![first] + digits;
    assert(marked[0] == first);
    assert(seq![first][0] == first);
}

/// A leading zero counts nothing.
proof fn lemma_leading_zero(digits: Seq<char>)
    ensures
        numeral_value(seq!['0'] + digits) == numeral_value(digits),
    decreases digits.len(),
{
    let padded = seq!['0'] + digits;
    if digits.len() == 0 {
        assert(padded.drop_last() =~= Seq::<char>::empty());
        assert(numeral_value(padded.drop_last()) == 0);
    } else {
        assert(padded.drop_last() =~= seq!['0'] + digits.drop_last());
        lemma_leading_zero(digits.drop_last());
    }
}

/// Processor time in 64ths of a second, given how many of them the microseconds
/// make.
pub open spec fn sixty_fourths(time: CpuTime, user: nat, system: nat) -> int {
    64 * (time.user_secs + time.system_secs) + user + system
}

/// The microseconds of a processor time are whole 64ths of a second.
pub open spec fn has_sixty_fourths(time: CpuTime, user: nat, system: nat) -> bool {
    &&& 0 <= time.user_secs < 0x1_0000_0000
    &&& 0 <= time.system_secs < 0x1_0000_0000
    &&& time.user_micros == 15_625 * user
    &&& time.system_micros == 15_625 * system
    &&& user < 64
    &&& system < 64
}

/// Seconds and 64ths.
proof fn lemma_time_of_parts(secs: i64, micros: i64, count: nat)
    requires
        0 <= secs < 0x1_0000_0000,
        micros == 15_625 * count,
        count < 64,
    ensures
        time_of(secs, micros) == parts_of((8 * (64 * secs + count)) as nat),
{
    let n = secs as nat;
    lemma_of_over((15_625 * count) as nat, 1_000_000);
    lemma_rounded_scaled(false, 8 * count, 512, 15_625, 0);
    lemma_rounded_scaled(false, (15_625 * count) as nat, 1_000_000, 8, 0);
    assert(15_625 * (8 * count) == 8 * (15_625 * count));
    lemma_parts_units(8 * count);
    lemma_of_over_factor(n, 512);
    assert(n * 512 == 512 * n);
    lemma_parts_plus(512 * n, 8 * count);
}

/// All of a processor time, in 512ths.
proof fn lemma_cpu_parts(time: CpuTime, user: nat, system: nat)
    requires
        has_sixty_fourths(time, user, system),
    ensures
        time.seconds() == parts_of((8 * sixty_fourths(time, user, system)) as nat),
        0 <= sixty_fourths(time, user, system) < 0x100_0000_0000,
{
    lemma_time_of_parts(time.user_secs, time.user_micros, user);
    lemma_time_of_parts(time.system_secs, time.system_micros, system);
    lemma_parts_plus(
        (8 * (64 * time.user_secs + user)) as nat,
        (8 * (64 * time.system_secs + system)) as nat,
    );
}

/// The processor usage is the processor time that passed, the user's and the
/// system's together, over the time on the clock, in percent: exactly so of
/// 64ths of a second on the processor and of 512ths on the clock. Time that
/// runs backwards counts as none, and so does all of it where the clock stands
/// still.
pub proof fn law_cpu_usage_is_a_share(
    start: CpuTime,
    start_user: nat,
    start_system: nat,
    end: CpuTime,
    end_user: nat,
    end_system: nat,
    wall_nanos: u64,
    wall: nat,
)
    requires
        has_sixty_fourths(start, start_user, start_system),
        has_sixty_fourths(end, end_user, end_system),
        wall_nanos == wall * PART,
    ensures
        ({
            let first = sixty_fourths(start, start_user, start_system);
            let last = sixty_fourths(end, end_user, end_system);
            let spent = if last > first {
                last - first
            } else {
                0
            };
            &&& wall > 0 ==> cpu_percent(start, end, wall_nanos) == Double::of(8 * spent).over(
                Double::of(512),
            ).over(Double::of(wall as int).over(Double::of(512))).times(Double::of(100))
            &&& cpu_percent(start, end, 0) == (Double { bits: 0 })
        }),
{
    let first = sixty_fourths(start, start_user, start_system);
    let last = sixty_fourths(end, end_user, end_system);
    lemma_cpu_parts(start, start_user, start_system);
    lemma_cpu_parts(end, end_user, end_system);
    let (x, y) = ((8 * first) as nat, (8 * last) as nat);
    lemma_parts_units(x);
    lemma_parts_units(y);
    let p = pow2(1065);
    lemma_pow2_pos(1065);
    lemma_parts_units(0);
    lemma_amount(parts_of(0));
    if last > first {
        let d = (y - x) as nat;
        lemma_parts_units(d);
        assert(d * p + x * p == y * p) by (nonlinear_arith)
            requires
                d == y - x,
        ;
        lemma_minus_exact(parts_of(y), parts_of(x), parts_of(d));
        lemma_amount(parts_of(d));
    } else {
        assert(y * p <= x * p) by (nonlinear_arith)
            requires
                y <= x,
                p > 0,
        ;
        lemma_minus_all(parts_of(y), parts_of(x));
    }
    law_seconds_of_parts(wall_nanos as u128, wall);
}

/// A whole number of microseconds makes the seconds that the clock makes of it.
proof fn lemma_time_as_clock(secs: i64, micros: i64)
    requires
        0 <= secs < 0x1_0000_0000,
        0 <= micros < 1_000_000,
    ensures
        time_of(secs, micros) == seconds_of(
            (secs * 1_000_000_000 + micros * 1000) as u128,
        ),
{
    let nanos = secs * 1_000_000_000 + micros * 1000;
    vstd::arithmetic::div_mod::lemma_fundamental_div_mod_converse(
        nanos,
        1_000_000_000,
        secs as int,
        micros * 1000,
    );
    lemma_of_over(micros as nat, 1_000_000);
    lemma_of_over((micros * 1000) as nat, 1_000_000_000);
    lemma_rounded_scaled(false, micros as nat, 1_000_000, 1000, 0);
}

/// Processor time is told in seconds as time on the clock is, the user's and
/// the system's added; and its usage is what passed of it over the time on the
/// clock, in percent. `spent` is what passed, where that is a double.
pub proof fn law_cpu_time_told_as_clock(
    start: CpuTime,
    end: CpuTime,
    wall_nanos: u64,
    spent: Double,
)
    requires
        0 <= end.user_secs < 0x1_0000_0000,
        0 <= end.system_secs < 0x1_0000_0000,
        0 <= end.user_micros < 1_000_000,
        0 <= end.system_micros < 1_000_000,
    ensures
        end.seconds() == seconds_of(
            (end.user_secs * 1_000_000_000 + end.user_micros * 1000) as u128,
        ).plus(
            seconds_of((end.system_secs * 1_000_000_000 + end.system_micros * 1000) as u128),
        ),
        start.seconds().bits < INFINITY && end.seconds().bits < INFINITY && spent.bits < INFINITY
            && units(spent) + units(start.seconds()) == units(end.seconds()) && wall_nanos > 0
            ==> cpu_percent(start, end, wall_nanos) == spent.over(
            seconds_of(wall_nanos as u128),
        ).times(Double::of(100)),
        start.seconds().bits < INFINITY && end.seconds().bits < INFINITY && units(
            end.seconds(),
        ) <= units(start.seconds()) && wall_nanos > 0 ==> cpu_percent(start, end, wall_nanos)
            == Double::of(0).over(seconds_of(wall_nanos as u128)).times(Double::of(100)),
{
    lemma_time_as_clock(end.user_secs, end.user_micros);
    lemma_time_as_clock(end.system_secs, end.system_micros);
    lemma_of_units(0);
    lemma_amount(Double::of(0));
    if start.seconds().bits < INFINITY && end.seconds().bits < INFINITY {
        if spent.bits < INFINITY && units(spent) + units(start.seconds()) == units(
            end.seconds(),
        ) {
            lemma_minus_exact(end.seconds(), start.seconds(), spent);
            lemma_amount(spent);
        }
        if units(end.seconds()) <= units(start.seconds()) {
            lemma_minus_all(end.seconds(), start.seconds());
        }
    }
}

/// No byte is lost: below two to the 53rd, the memory that is told is exactly
/// what was measured.
pub proof fn law_memory_loses_nothing(size: nat)
    requires
        size < EXACT_LIMIT,
    ensures
        megabytes(PeakMemory::Sampled(size as u64)).bits < INFINITY,
        units(megabytes(PeakMemory::Sampled(size as u64))) * 1_048_576 == size * pow2(1074),
        units(megabytes(PeakMemory::Bytes(size as i64))) * 1_048_576 == size * pow2(1074),
        units(megabytes(PeakMemory::Kibibytes(size as i64))) * 1024 == size * pow2(1074),
{
    lemma_of_over_power(size, 20);
    lemma_of_over_power(size, 10);
    lemma2_to64();
}

/// An integer over a power of two loses nothing.
#[verifier::spinoff_prover]
proof fn lemma_of_over_power(a: nat, k: nat)
    requires
        a < EXACT_LIMIT,
        k <= 52,
    ensures
        ({
            let d = Double::of(a as int).over(Double::of(pow2(k) as int));
            d.bits < INFINITY && units(d) * pow2(k) == a * pow2(1074)
        }),
{
    let b = pow2(k);
    let d = Double::of(a as int).over(Double::of(b as int));
    lemma2_to64_rest();
    lemma_pow2_pos(k);
    if k < 52 {
        lemma_pow2_strictly_increases(k, 52);
    }
    assert(0 < b < EXACT_LIMIT);
    lemma_of_over(a, b);
    lemma_rounded_moved(false, a, 1, -(k as int), k);
    assert(1 * b == b);
    assert(d.bits == rounded(false, a, 1, -(k as int)));
    lemma_finer_exact(a, -(k as int));
    let p = pow2((1074 - k) as nat);
    lemma_pow2_adds(k, (1074 - k) as nat);
    assert(b * p == pow2(1074));
    if a == 0 {
        assert(d.bits == 0);
        assert(meaning(0) == (Meaning::Finite { negative: false, mantissa: 0, exponent: -1074 }));
        assert(0 * pow2(0) == 0);
        assert(units(d) == a * p) by {
            assert(0 * p == 0);
        }
    } else {
        assert(d.bits == finer(false, a, 1, -(k as int)));
        assert(units(d) == a * p);
    }
    assert((a * p) * b == a * (b * p)) by (nonlinear_arith);
}

/// Memory is told in units of 1024 times 1024 bytes, whichever unit it was
/// measured in: so many whole units are that number, and the same memory
/// measured in another unit is the same.
pub proof fn law_memory_in_one_unit(count: u32, bytes: i64)
    requires
        0 <= bytes,
    ensures
        megabytes(PeakMemory::Sampled((count * 1_048_576) as u64)) == Double::of(count as int),
        megabytes(PeakMemory::Bytes((count * 1_048_576) as i64)) == Double::of(count as int),
        megabytes(PeakMemory::Kibibytes((count * 1024) as i64)) == Double::of(count as int),
        megabytes(PeakMemory::Bytes(bytes)) == megabytes(PeakMemory::Sampled(bytes as u64)),
        bytes < 0x800_0000_0000 ==> megabytes(PeakMemory::Kibibytes(bytes)) == megabytes(
            PeakMemory::Bytes((1024 * bytes) as i64),
        ),
{
    let n = count as nat;
    assert(n * 1_048_576 <= 0xffff_ffff * 1_048_576) by (nonlinear_arith)
        requires
            n <= 0xffff_ffff,
    ;
    lemma_of_over_factor(n, 1_048_576);
    lemma_of_over_factor(n, 1024);
    if bytes < 0x800_0000_0000 {
        lemma_of_over(bytes as nat, 1024);
        lemma_of_over((1024 * bytes) as nat, 1_048_576);
        lemma_rounded_scaled(false, bytes as nat, 1024, 1024, 0);
    }
}

/// A size that the system tells below zero is as far below as its opposite is
/// above.
pub proof fn law_memory_keeps_its_sign(size: u32)
    requires
        size > 0,
    ensures
        megabytes(PeakMemory::Bytes(-(size as i64) as i64)) == megabytes(
            PeakMemory::Bytes(size as i64),
        ).negated(),
        megabytes(PeakMemory::Kibibytes(-(size as i64) as i64)) == megabytes(
            PeakMemory::Kibibytes(size as i64),
        ).negated(),
{
    lemma_negative_over(size as nat, 1_048_576);
    lemma_negative_over(size as nat, 1024);
}

/// A negative integer over a positive one.
proof fn lemma_negative_over(a: nat, b: nat)
    requires
        0 < a < EXACT_LIMIT,
        0 < b < EXACT_LIMIT,
    ensures
        Double::of(-(a as int)).over(Double::of(b as int)) == Double::of(a as int).over(
            Double::of(b as int),
        ).negated(),
{
    let x = Double::of(a as int);
    let y = Double::of(b as int);
    let (m, d) = lemma_of_meaning(a);
    let (n, k) = lemma_of_meaning(b);
    lemma_pow2_pos(k);
    assert(n > 0) by (nonlinear_arith)
        requires
            n == b * pow2(k),
            b > 0,
            pow2(k) > 0,
    ;
    lemma_of_units(a);
    lemma_rounded_sign(a, 1, 0);
    lemma_negated(x);
    assert(Double::of(-(a as int)) == x.negated());
    lemma_rounded_sign(m, n, k - d);
    lemma_rounded_ordered(m, m, n, k - d);
}

} // verus!
