//! Means and percentiles.

use agent_bench::arith::Double;
use agent_bench::double::share;
use agent_bench::stats::{mean_ms, percentile_ms, rank, seconds, sort_samples, P95, P99};

fn number(double: Double) -> f64 {
    f64::from_bits(double.bits)
}

/// The rank as doubles give it.
fn double_rank(n: usize, percentile: f64) -> usize {
    let capped = percentile.clamp(0.0, 1.0);
    ((capped * n as f64).ceil().max(1.0) as usize - 1).min(n - 1)
}

#[test]
fn percentiles_are_doubles() {
    assert_eq!(P95, 0.95f64.to_bits());
    assert_eq!(P99, 0.99f64.to_bits());
}

#[test]
fn ranks_are_those_of_doubles() {
    let shares = [
        0.0, -0.0, -1.0, 1.0, 2.0, 0.5, 0.95, 0.99, 0.07, 0.1, 0.29, 0.333, 0.999999, 1e-3, 1e-17,
        1e-300, 5e-324, f64::MIN_POSITIVE, f64::EPSILON, 1.0 - f64::EPSILON / 2.0,
        1.0 + f64::EPSILON, f64::MAX, f64::INFINITY, f64::NEG_INFINITY, f64::NAN, -f64::NAN,
    ];
    let sizes = (1usize..300).chain([
        1000, 65_537, 123_456_789, 142_159_079_146_799, 422_212_465_065_984, (1 << 53) - 1,
        (1 << 53) + 1, (1 << 53) + 3, (1 << 60) + 129, usize::MAX - 1024, usize::MAX - 1023, usize::MAX,
    ]);
    for n in sizes {
        for value in shares {
            assert_eq!(rank(n, value.to_bits()), double_rank(n, value), "{n} {value}");
        }
    }
}

#[test]
fn ranks_of_all_percents() {
    for n in [1usize, 2, 3, 7, 20, 99, 100, 101, 1000, 12_345] {
        for percent in 0..=100 {
            let value = percent as f64 / 100.0;
            assert_eq!(rank(n, value.to_bits()), double_rank(n, value), "{n} {percent}");
        }
    }
    assert_eq!(rank(100, 0.07f64.to_bits()), 7);
}

#[test]
fn ranks_of_scattered_doubles() {
    let mut seed: u64 = 88_172_645_463_325_252;
    for _ in 0..200_000 {
        seed ^= seed << 13;
        seed ^= seed >> 7;
        seed ^= seed << 17;
        let n = ((seed >> (seed % 64)) as usize).max(1);
        let value = f64::from_bits(seed.rotate_left(29) & 0x3fff_ffff_ffff_ffff);
        assert_eq!(rank(n, value.to_bits()), double_rank(n, value), "{n} {value:e}");
    }
}

#[test]
fn ranks_of_95_and_99_percent_are_nearest() {
    for n in (1usize..3000).chain([1_000_000, 142_159_079_146_796]) {
        assert_eq!(rank(n, P95), (95 * n + 99) / 100 - 1);
        assert_eq!(rank(n, P99), (99 * n + 99) / 100 - 1);
    }
}

#[test]
fn parts_of_a_share() {
    let half = share(0.5f64.to_bits());
    assert_eq!((half.mantissa, half.scale), (1 << 52, 53));
    let least = share(5e-324f64.to_bits());
    assert_eq!((least.mantissa, least.scale), (1, 1074));
    assert_eq!(share(f64::NAN.to_bits()).mantissa, 0);
    assert_eq!(share((-0.5f64).to_bits()).mantissa, 0);
    assert_eq!((share(7.5f64.to_bits()).mantissa, share(7.5f64.to_bits()).scale), (1, 0));
}

#[test]
fn samples_are_put_in_order() {
    let mut samples: Vec<u128> = vec![5, 1, u128::MAX, 1, 0];
    sort_samples(&mut samples);
    assert_eq!(samples, vec![0, 1, 1, 5, u128::MAX]);
}

#[test]
fn percentile_of_samples() {
    let samples: Vec<u128> = (1..=100).map(|n| n * 1_000_000).collect();
    assert_eq!(number(percentile_ms(&samples, P95)), 95.0);
    assert_eq!(number(percentile_ms(&samples, P99)), 99.0);
    assert_eq!(number(percentile_ms(&Vec::new(), P95)), 0.0);
    assert_eq!(number(percentile_ms(&vec![7], P95)), 7e-9 * 1000.0);
}

#[test]
fn percentiles_ascend() {
    let samples: Vec<u128> = vec![1, 2, 2, 3, 9, 40, 41];
    let mut before = 0.0;
    for percent in 0..=100 {
        let now = number(percentile_ms(&samples, (percent as f64 / 100.0).to_bits()));
        assert!(before <= now);
        before = now;
    }
}

#[test]
fn percentile_covers_its_share() {
    let samples: Vec<u128> = vec![1, 1, 2, 2, 2, 3, 9];
    for percent in 1..=100u32 {
        let share = percent as f64 / 100.0;
        let at = rank(samples.len(), share.to_bits());
        let below = samples.iter().filter(|s| **s < samples[at]).count();
        let up_to = samples.iter().filter(|s| **s <= samples[at]).count();
        let count = (share * samples.len() as f64).ceil() as usize;
        assert!(below < count && count <= up_to);
    }
}

#[test]
fn mean_of_samples() {
    assert_eq!(number(mean_ms(&Vec::new())), 0.0);
    assert_eq!(number(mean_ms(&vec![3_000_000, 4_000_000, 5_000_000])), (0.003 + 0.004 + 0.005) / 3.0 * 1000.0);
    assert_eq!(number(mean_ms(&vec![9_000_000_000])), 9000.0);
}

#[test]
fn seconds_are_those_of_durations() {
    let mut seed: u64 = 88_172_645_463_325_252;
    for _ in 0..20_000 {
        seed ^= seed << 13;
        seed ^= seed >> 7;
        seed ^= seed << 17;
        let nanos = seed >> (seed % 64);
        let expected = std::time::Duration::from_nanos(nanos).as_secs_f64();
        assert_eq!(number(seconds(nanos as u128)), expected);
    }
}
