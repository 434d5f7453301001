use clove4apm::float::double::Double;
use clove4apm::hist::{index_of, value_at, Histogram, BUCKETS, SUB};

fn q(x: f64) -> Double {
    Double { bits: x.to_bits() }
}

#[test]
fn index_is_monotonic_and_in_range() {
    let mut last = 0;
    for v in 0..10_000u64 {
        let i = index_of(v);
        assert!(i < BUCKETS, "v={v} idx={i}");
        assert!(i >= last, "not monotonic at {v}");
        last = i;
    }
    // Extremes must not escape the array.
    assert!(index_of(u64::MAX) < BUCKETS);
    assert_eq!(index_of(0), 0);
}

#[test]
fn value_at_round_trips_its_own_bucket() {
    // value_at(index_of(v)) is the top of the bucket, so it is never below v.
    for v in [0u64, 1, 15, 16, 17, 1_000, 999_999, 1 << 40] {
        let back = value_at(index_of(v));
        assert!(back >= v, "v={v} back={back}");
        assert!(
            back <= v + v / (SUB as u64) + 1,
            "v={v} back={back} exceeds the promised resolution"
        );
    }
}

#[test]
fn small_values_are_exact() {
    // Below SUB there is no bucketing, so no error is acceptable there.
    for v in 0..SUB as u64 {
        assert_eq!(value_at(index_of(v)), v);
    }
}

#[test]
fn buckets_have_exact_bounds() {
    assert_eq!(index_of(16), 16);
    assert_eq!(index_of(31), 31);
    assert_eq!(index_of(32), 32);
    assert_eq!(index_of(33), 32);
    assert_eq!(value_at(32), 33);
    assert_eq!(index_of(u64::MAX), 975);
    assert_eq!(value_at(975), u64::MAX);
    // No value lands beyond; the tops are what the shifted pattern leaves.
    assert_eq!(value_at(976), 0xffff_ffff_ffff_ffff >> 4);
    for i in 16..BUCKETS {
        let shift = i / 16 - 1;
        let base = ((16 + i % 16) as u64) << shift;
        assert_eq!(value_at(i), base | ((1u64 << shift) - 1), "bucket {i}");
    }
}

#[test]
fn empty_histogram_reports_nothing_rather_than_zero() {
    let h = Histogram::default();
    assert_eq!(h.count(), 0);
    assert_eq!(h.min(), None);
    assert_eq!(h.max(), None);
    assert_eq!(h.mean(), None);
    assert_eq!(h.quantile(q(0.5)), None);
}

#[test]
fn quantiles_track_a_known_distribution() {
    let mut h = Histogram::default();
    for v in 1..=1000u64 {
        h.record(v);
    }
    assert_eq!(h.count(), 1000);
    assert_eq!(h.min(), Some(1));
    assert_eq!(h.max(), Some(1000));

    // Each quantile is an upper bound within the promised relative error.
    for (p, want) in [(0.5, 500.0), (0.95, 950.0), (0.99, 990.0)] {
        let got = h.quantile(q(p)).unwrap() as f64;
        assert!(got >= want, "p{p} = {got}, must not undershoot {want}");
        let err = (got - want) / want;
        assert!(err <= 1.0 / SUB as f64, "p{p} = {got}, error {err} too big");
    }
    assert_eq!(h.quantile(q(0.5)), Some(511));
    assert_eq!(h.quantile(q(0.95)), Some(959));
}

#[test]
fn p99_sees_the_tail_that_the_mean_hides() {
    // The reason percentiles exist: 980 fast calls and 20 slow ones.
    let mut h = Histogram::default();
    for _ in 0..980 {
        h.record(1);
    }
    for _ in 0..20 {
        h.record(10_000);
    }
    let mean = f64::from_bits(h.mean().unwrap().bits);
    assert!(mean < 250.0, "the mean looks fine");
    assert_eq!(mean, 200_980.0 / 1000.0);
    assert_eq!(h.quantile(q(0.5)), Some(1), "half the calls really are fast");
    assert!(
        h.quantile(q(0.99)).unwrap() >= 10_000,
        "p99 must expose the tail"
    );
    assert_eq!(h.max(), Some(10_000));
    assert_eq!(h.sum(), 200_980);
}

#[test]
fn extremes_are_clamped_to_the_real_max() {
    let mut h = Histogram::default();
    h.record(7);
    // q=1.0 selects the last sample, and bucket tops never exceed the truth.
    assert_eq!(h.quantile(q(1.0)), Some(7));
    assert_eq!(h.quantile(q(0.0)), Some(7));
    // Out-of-range quantiles are clamped, not a panic.
    assert_eq!(h.quantile(q(-5.0)), Some(7));
    assert_eq!(h.quantile(q(9.0)), Some(7));
    assert_eq!(h.quantile(q(f64::NAN)), Some(7));
}

#[test]
fn size_stays_fixed_regardless_of_sample_count() {
    let mut h = Histogram::default();
    for i in 0..100_000u64 {
        h.record(i);
    }
    assert_eq!(std::mem::size_of_val(&*h.buckets), BUCKETS * 4);
    assert_eq!(h.count(), 100_000);
}

#[test]
fn percentiles_are_ordered_and_never_exceed_the_maximum() {
    let mut h = Histogram::default();
    for v in [3u64, 1, 4, 1, 5, 9, 2, 6, 5, 3, 5, 89, 79, 3_238_462] {
        h.record(v);
    }
    let mut last = 0;
    for i in 0..=100 {
        let v = h.quantile(Double::from_quotient(i, 100)).unwrap();
        assert!(v >= last, "quantile {i} fell");
        assert!(v <= 3_238_462);
        last = v;
    }
    assert_eq!(h.min(), Some(1));
    assert_eq!(h.quantile(Double::from_quotient(1, 2)), Some(5));
}

#[test]
fn the_sum_saturates_instead_of_wrapping() {
    let mut h = Histogram::default();
    h.record(u64::MAX);
    h.record(5);
    assert_eq!(h.sum(), u64::MAX);
    assert_eq!(h.count(), 2);
}

#[test]
fn a_percentile_covers_its_share_of_the_samples() {
    let mut h = Histogram::default();
    let mut all: Vec<u64> = Vec::new();
    let mut x: u64 = 12345;
    for _ in 0..5_000 {
        x = x.wrapping_mul(6364136223846793005).wrapping_add(1442695040888963407);
        let v = x >> (20 + x % 40);
        h.record(v);
        all.push(v);
    }
    all.sort();
    for i in 1..=100u64 {
        let rank = (5_000 * i + 99) / 100;
        let r = h.quantile(Double::from_quotient(i, 100)).unwrap();
        let v = all[rank as usize - 1];
        assert!(all.iter().filter(|s| **s <= r).count() as u64 >= rank, "share {i}");
        assert!(v <= r && r <= v + v / 16, "share {i}: {v} {r}");
    }
}

#[test]
fn the_order_of_the_samples_does_not_matter() {
    let all: Vec<u64> = (0..500u64).map(|i| i * i * 7919 % 65_537).collect();
    let (mut a, mut b) = (Histogram::default(), Histogram::default());
    for v in &all {
        a.record(*v);
    }
    for v in all.iter().rev() {
        b.record(*v);
    }
    assert_eq!((a.count(), a.sum(), a.min(), a.max()), (b.count(), b.sum(), b.min(), b.max()));
    assert_eq!(a.mean(), b.mean());
    for x in [0.0, 0.25, 0.5, 0.95, 0.99, 1.0] {
        assert_eq!(a.quantile(q(x)), b.quantile(q(x)));
        assert!(a.quantile(q(x)) >= a.min());
    }
}
