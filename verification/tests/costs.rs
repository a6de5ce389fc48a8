//! Processor time and memory.

use agent_bench::monitor::{
    current_rss_bytes, performance_stats, raise_peak, read_u64, resident_pages, split_words,
    CpuTime, PeakMemory,
};
use agent_bench::text::{decimal_text, to_chars};

fn cpu(user_secs: i64, user_micros: i64, system_secs: i64, system_micros: i64) -> CpuTime {
    CpuTime { user_secs, user_micros, system_secs, system_micros }
}

#[test]
fn words_agree_with_the_standard_library() {
    for text in ["", " ", "a", " ab  c\td\n", "x\u{a0}y", "1 2", "\u{2028}é è"] {
        let words: Vec<String> =
            split_words(text).into_iter().map(|word| word.into_iter().collect()).collect();
        let expected: Vec<String> = text.split_whitespace().map(|word| word.to_string()).collect();
        assert_eq!(words, expected);
    }
}

#[test]
fn numbers_agree_with_the_standard_library() {
    for text in [
        "", "+", "-", "0", "00", "+7", "-7", "7x", "++1", "18446744073709551615",
        "18446744073709551616", "99999999999999999999", "018446744073709551615", "1 ", "٣",
    ] {
        assert_eq!(read_u64(&to_chars(text)), text.parse::<u64>().ok(), "{text:?}");
    }
}

#[test]
fn numerals_read_back() {
    for n in [0u64, 9, 10, 4096, u64::MAX] {
        assert_eq!(read_u64(&to_chars(&decimal_text(n))), Some(n));
    }
}

#[test]
fn resident_memory_of_a_status() {
    assert_eq!(current_rss_bytes("2000 512 300 1 0 100 0\n", 4096), Some(2_097_152));
    assert_eq!(current_rss_bytes("2000", 4096), None);
    assert_eq!(current_rss_bytes("", 4096), None);
    assert_eq!(current_rss_bytes("2000 many", 4096), None);
    assert_eq!(resident_pages("1 18446744073709551615"), Some(u64::MAX));
}

#[test]
fn peak_is_the_greatest_sample() {
    let mut peak: u64 = 10;
    for sample in [Some(5), None, Some(30), Some(20), Some(30)] {
        peak = raise_peak(peak, sample);
    }
    assert_eq!(peak, 30);
    assert_eq!(raise_peak(10, None), 10);
}

#[test]
fn share_of_a_processor() {
    let start = cpu(1, 500_000, 0, 250_000);
    let end = cpu(2, 0, 1, 0);
    let secs = |time: &CpuTime| f64::from_bits(time.cpu_seconds().bits);
    assert_eq!(secs(&end) - secs(&start), 1.25);
    let stats = performance_stats(&start, &end, 2_500_000_000, PeakMemory::Sampled(3 * 1_048_576));
    assert_eq!(f64::from_bits(stats.cpu_usage_percent.bits), 50.0);
    assert_eq!(f64::from_bits(stats.memory_peak_mb.bits), 3.0);
}

#[test]
fn costs_are_those_of_doubles() {
    let (us, um, ss, sm) = (12i64, 345_678i64, 3i64, 999_999i64);
    let before = cpu(1, 1, 1, 1);
    let after = cpu(us, um, ss, sm);
    let secs = |a: i64, b: i64, c: i64, d: i64| {
        (a as f64 + (b as f64 / 1_000_000.0)) + (c as f64 + (d as f64 / 1_000_000.0))
    };
    let wall: u64 = 7_123_456_789;
    let spent = (secs(us, um, ss, sm) - secs(1, 1, 1, 1)).max(0.0);
    let expected = spent / std::time::Duration::from_nanos(wall).as_secs_f64() * 100.0;
    let stats = performance_stats(&before, &after, wall, PeakMemory::Bytes(123_456_789));
    assert_eq!(f64::from_bits(stats.cpu_usage_percent.bits), expected);
    assert_eq!(f64::from_bits(stats.memory_peak_mb.bits), 123_456_789.0 / (1024.0 * 1024.0));
    let negative = performance_stats(&before, &after, wall, PeakMemory::Kibibytes(-3));
    assert_eq!(f64::from_bits(negative.memory_peak_mb.bits), -3.0 / 1024.0);
}

#[test]
fn processor_time_is_never_negative() {
    let stats = performance_stats(&cpu(5, 0, 0, 0), &cpu(4, 0, 0, 0), 1, PeakMemory::Kibibytes(2048));
    assert_eq!(stats.cpu_usage_percent.bits, 0);
    assert_eq!(f64::from_bits(stats.memory_peak_mb.bits), 2.0);
    let stats = performance_stats(&cpu(4, 0, 0, 0), &cpu(5, 0, 0, 0), 0, PeakMemory::Kibibytes(0));
    assert_eq!(stats.cpu_usage_percent.bits, 0);
}
