//! What a run costs: processor time and resident memory.

use vstd::prelude::*;

use crate::arith::Double;
use crate::literal::all_digits;
use crate::reading::law_decimal_is_digits;
use crate::stats::{seconds, seconds_of};
use crate::text::{decimal, digit, digit_value, is_digit, is_white_space, to_chars, white_space};

verus! {

/// The words of `s`: its longest stretches without white space, in order.
pub open spec fn words(s: Seq<char>) -> Seq<Seq<char>>
    decreases s.len(),
{
    if s.len() == 0 {
        Seq::empty()
    } else {
        let before = words(s.drop_last());
        if is_white_space(s.last()) {
            before
        } else if s.len() == 1 || is_white_space(s[s.len() - 2]) {
            before.push(seq![s.last()])
        } else {
            before.drop_last().push(before.last().push(s.last()))
        }
    }
}

/// The views of some words.
pub open spec fn word_views(list: Seq<Vec<char>>) -> Seq<Seq<char>> {
    list.map_values(|word: Vec<char>| word@)
}

/// A text that ends within a word has a word.
pub proof fn lemma_open_word(s: Seq<char>)
    requires
        s.len() > 0,
        !is_white_space(s.last()),
    ensures
        words(s).len() > 0,
    decreases s.len(),
{
}

/// The words of a text.
pub fn split_words(text: &str) -> (list: Vec<Vec<char>>)
    ensures
        word_views(list@) == words(text@),
{
    let s = to_chars(text);
    let mut list: Vec<Vec<char>> = Vec::new();
    let mut i: usize = 0;
    assert(word_views(list@) =~= words(s@.take(0)));
    while i < s.len()
        invariant
            i <= s@.len(),
            s@ == text@,
            word_views(list@) == words(s@.take(i as int)),
        decreases s@.len() - i,
    {
        let c = s[i];
        let ghost done = s@.take(i + 1);
        let ghost old_list = list@;
        assert(done.drop_last() =~= s@.take(i as int));
        assert(done.last() == c);
        if !white_space(c) {
            if i == 0 || white_space(s[i - 1]) {
                let mut word: Vec<char> = Vec::new();
                word.push(c);
                assert(word@ =~= seq![c]);
                list.push(word);
                assert(word_views(list@) =~= word_views(old_list).push(seq![c]));
            } else {
                proof {
                    lemma_open_word(s@.take(i as int));
                    assert(old_list.len() == word_views(old_list).len());
                }
                let mut word: Vec<char> = match list.pop() {
                    Some(w) => w,
                    None => Vec::new(),
                };
                word.push(c);
                list.push(word);
                assert(word_views(list@) =~= word_views(old_list).drop_last().push(
                    word_views(old_list).last().push(c),
                ));
            }
        }
        i = i + 1;
    }
    assert(s@.take(i as int) =~= text@);
    list
}

/// What a numeral counts.
pub open spec fn numeral_value(s: Seq<char>) -> nat
    decreases s.len(),
{
    if s.len() == 0 {
        0
    } else {
        10 * numeral_value(s.drop_last()) + digit_value(s.last())
    }
}

/// `s` without a leading plus.
pub open spec fn without_plus(s: Seq<char>) -> Seq<char> {
    if s.len() > 0 && s[0] == '+' {
        s.skip(1)
    } else {
        s
    }
}

/// What a text counts as a 64-bit number: digits, with a plus before them or
/// not, whose value fits.
pub open spec fn u64_reading(s: Seq<char>) -> Option<u64> {
    let digits = without_plus(s);
    if digits.len() > 0 && all_digits(digits) && numeral_value(digits) <= u64::MAX {
        Some(numeral_value(digits) as u64)
    } else {
        None
    }
}

/// A numeral counts no less for having more digits.
proof fn lemma_numeral_prefix(s: Seq<char>, k: int)
    requires
        0 <= k <= s.len(),
        all_digits(s),
    ensures
        numeral_value(s.take(k)) <= numeral_value(s),
    decreases s.len(),
{
    if k == s.len() {
        assert(s.take(k) =~= s);
    } else {
        assert(all_digits(s.drop_last()));
        lemma_numeral_prefix(s.drop_last(), k);
        assert(s.drop_last().take(k) =~= s.take(k));
    }
}

/// Reads a 64-bit number.
pub fn read_u64(s: &Vec<char>) -> (number: Option<u64>)
    ensures
        number == u64_reading(s@),
{
    let start: usize = if s.len() > 0 && s[0] == '+' {
        1
    } else {
        0
    };
    let ghost digits = without_plus(s@);
    assert(digits =~= s@.skip(start as int));
    if start == s.len() {
        return None;
    }
    let mut value: u64 = 0;
    let mut i: usize = start;
    assert(digits.take(0) =~= Seq::<char>::empty());
    while i < s.len()
        invariant
            start <= i <= s@.len(),
            start < s@.len(),
            digits == without_plus(s@),
            digits == s@.skip(start as int),
            all_digits(digits.take(i - start)),
            value == numeral_value(digits.take(i - start)),
        decreases s@.len() - i,
    {
        let c = s[i];
        let ghost k = i - start;
        let ghost seen = digits.take(k + 1);
        assert(seen.drop_last() =~= digits.take(k));
        assert(seen.last() == c);
        assert(digits[k] == c);
        if !digit(c) {
            assert(!all_digits(digits));
            return None;
        }
        assert(all_digits(seen)) by {
            assert forall|j: int| 0 <= j < seen.len() implies is_digit(#[trigger] seen[j]) by {
                if j < k {
                    assert(digits.take(k)[j] == seen[j]);
                }
            }
        }
        let d: u64 = c as u64 - '0' as u64;
        if value > (u64::MAX - d) / 10 {
            proof {
                assert(numeral_value(seen) > u64::MAX);
                if all_digits(digits) {
                    lemma_numeral_prefix(digits, k + 1);
                }
            }
            return None;
        }
        value = value * 10 + d;
        i = i + 1;
    }
    assert(digits.take(i - start) =~= digits);
    Some(value)
}

/// The number of resident pages that the kernel's memory status names: its
/// second word.
pub open spec fn resident_pages_in(statm: Seq<char>) -> Option<u64> {
    if words(statm).len() > 1 {
        u64_reading(words(statm)[1])
    } else {
        None
    }
}

/// The number of resident pages.
pub fn resident_pages(statm: &str) -> (pages: Option<u64>)
    ensures
        pages == resident_pages_in(statm@),
{
    let list = split_words(statm);
    if list.len() > 1 {
        assert(word_views(list@)[1] == list@[1]@);
        read_u64(&list[1])
    } else {
        None
    }
}

/// The resident memory in bytes that the kernel's memory status names.
pub open spec fn resident_bytes_in(statm: Seq<char>, page_size: u64) -> Option<int> {
    match resident_pages_in(statm) {
        Some(pages) => Some(pages * page_size),
        None => None,
    }
}

/// The resident memory in bytes, from the kernel's memory status.
pub fn current_rss_bytes(statm: &str, page_size: u64) -> (bytes: Option<u64>)
    requires
        resident_pages_in(statm@) matches Some(pages) ==> pages * page_size <= u64::MAX,
    ensures
        bytes == (match resident_pages_in(statm@) {
            Some(pages) => Some((pages * page_size) as u64),
            None => None,
        }),
        bytes is Some == resident_bytes_in(statm@, page_size) is Some,
        bytes matches Some(size) ==> resident_bytes_in(statm@, page_size) == Some(size as int),
{
    match resident_pages(statm) {
        Some(pages) => Some(pages * page_size),
        None => None,
    }
}

/// The peak after one more sample; a sample that could not be taken changes
/// nothing.
pub open spec fn raised_peak(peak: u64, sample: Option<u64>) -> u64 {
    match sample {
        Some(rss) => if rss > peak {
            rss
        } else {
            peak
        },
        None => peak,
    }
}

/// The peak after one more sample.
pub fn raise_peak(peak: u64, sample: Option<u64>) -> (raised: u64)
    ensures
        raised == raised_peak(peak, sample),
{
    match sample {
        Some(rss) => if rss > peak {
            rss
        } else {
            peak
        },
        None => peak,
    }
}

/// The peak after some samples.
pub open spec fn peak_of(first: u64, samples: Seq<Option<u64>>) -> u64
    decreases samples.len(),
{
    if samples.len() == 0 {
        first
    } else {
        raised_peak(peak_of(first, samples.drop_last()), samples.last())
    }
}

/// The peak is the greatest of what was sampled.
pub proof fn law_peak_is_greatest(first: u64, samples: Seq<Option<u64>>)
    ensures
        peak_of(first, samples) >= first,
        forall|i: int|
            0 <= i < samples.len() ==> (#[trigger] samples[i] matches Some(rss) ==> rss <= peak_of(
                first,
                samples,
            )),
        peak_of(first, samples) == first || samples.contains(Some(peak_of(first, samples))),
    decreases samples.len(),
{
    if samples.len() > 0 {
        let before = samples.drop_last();
        law_peak_is_greatest(first, before);
        assert forall|i: int| 0 <= i < samples.len() implies (#[trigger] samples[i] matches Some(
            rss,
        ) ==> rss <= peak_of(first, samples)) by {
            if i < before.len() {
                assert(before[i] == samples[i]);
            }
        }
        let peak = peak_of(first, samples);
        if before.contains(Some(peak)) {
            let i = choose|i: int| 0 <= i < before.len() && before[i] == Some(peak);
            assert(samples[i] == Some(peak));
        } else if peak != first {
            assert(samples[samples.len() - 1] == Some(peak));
        }
    }
}

/// Processor time, in the user's code and in the system's.
#[derive(Clone, Copy, Debug, PartialEq, Eq, Structural)]
pub struct CpuTime {
    pub user_secs: i64,
    pub user_micros: i64,
    pub system_secs: i64,
    pub system_micros: i64,
}

/// Seconds and microseconds, in seconds.
pub open spec fn time_of(secs: i64, micros: i64) -> Double {
    Double::of(secs as int).plus(Double::of(micros as int).over(Double::of(1_000_000)))
}

/// Seconds and microseconds, in seconds.
fn time(secs: i64, micros: i64) -> (d: Double)
    ensures
        d == time_of(secs, micros),
{
    Double::from_i64(secs).add(&Double::from_i64(micros).divide(&Double::from_u128(1_000_000)))
}

impl CpuTime {
    /// All of it, in seconds.
    pub open spec fn seconds(self) -> Double {
        time_of(self.user_secs, self.user_micros).plus(
            time_of(self.system_secs, self.system_micros),
        )
    }

    /// All of it, in seconds.
    pub fn cpu_seconds(&self) -> (secs: Double)
        ensures
            secs == self.seconds(),
    {
        time(self.user_secs, self.user_micros).add(&time(self.system_secs, self.system_micros))
    }
}

/// The most memory that a run held: as it was sampled, in bytes, or as the
/// system tells it, in bytes or in units of 1024 bytes.
#[derive(Clone, Copy, Debug, PartialEq, Eq, Structural)]
pub enum PeakMemory {
    Sampled(u64),
    Bytes(i64),
    Kibibytes(i64),
}

/// What a run cost.
#[derive(Clone, Copy, Debug, PartialEq, Eq, Structural)]
pub struct PerformanceStats {
    pub cpu_usage_percent: Double,
    pub memory_peak_mb: Double,
}

/// The processor time between two readings, in seconds; never negative.
pub open spec fn cpu_spent(start: CpuTime, end: CpuTime) -> Double {
    end.seconds().minus(start.seconds()).greater(Double::of(0))
}

/// The share of a processor that was in use over `wall_nanos`, in percent:
/// none where no time passed.
pub open spec fn cpu_percent(start: CpuTime, end: CpuTime, wall_nanos: u64) -> Double {
    if wall_nanos > 0 {
        cpu_spent(start, end).over(seconds_of(wall_nanos as u128)).times(Double::of(100))
    } else {
        Double::of(0)
    }
}

/// A memory size in units of 1024 times 1024 bytes.
pub open spec fn megabytes(peak: PeakMemory) -> Double {
    match peak {
        PeakMemory::Sampled(bytes) => Double::of(bytes as int).over(Double::of(1_048_576)),
        PeakMemory::Bytes(bytes) => Double::of(bytes as int).over(Double::of(1_048_576)),
        PeakMemory::Kibibytes(kib) => Double::of(kib as int).over(Double::of(1024)),
    }
}

/// What a run cost, from the readings at its start and at its end.
pub fn performance_stats(
    start: &CpuTime,
    end: &CpuTime,
    wall_nanos: u64,
    peak: PeakMemory,
) -> (stats: PerformanceStats)
    ensures
        stats.cpu_usage_percent == cpu_percent(*start, *end, wall_nanos),
        stats.memory_peak_mb == megabytes(peak),
{
    let zero = Double::from_u128(0);
    let spent = end.cpu_seconds().subtract(&start.cpu_seconds()).max(&zero);
    let cpu_usage_percent = if wall_nanos > 0 {
        spent.divide(&seconds(wall_nanos as u128)).multiply(&Double::from_u128(100))
    } else {
        zero
    };
    let memory_peak_mb = match peak {
        PeakMemory::Sampled(bytes) => Double::from_u128(bytes as u128).divide(
            &Double::from_u128(1_048_576),
        ),
        PeakMemory::Bytes(bytes) => Double::from_i64(bytes).divide(&Double::from_u128(1_048_576)),
        PeakMemory::Kibibytes(kib) => Double::from_i64(kib).divide(&Double::from_u128(1024)),
    };
    PerformanceStats { cpu_usage_percent, memory_peak_mb }
}

/// A numeral counts what it was rendered from.
pub proof fn law_numeral_reads_back(n: nat)
    ensures
        numeral_value(decimal(n)) == n,
        n <= u64::MAX ==> u64_reading(decimal(n)) == Some(n as u64),
    decreases n,
{
    law_decimal_is_digits(n);
    if n < 10 {
        assert(decimal(n).drop_last() =~= Seq::<char>::empty());
        assert(numeral_value(decimal(n).drop_last()) == 0);
    } else {
        law_numeral_reads_back(n / 10);
        assert(decimal(n).drop_last() =~= decimal(n / 10));
    }
    assert(is_digit(decimal(n)[0]));
}

} // verus!
