use clove4apm::float::double::Double;
use clove4apm::trend::{MemoryTrend, Trend, CAPACITY};

const MIB: u64 = 1 << 20;

fn d(x: f64) -> Double {
    Double { bits: x.to_bits() }
}

fn f(x: Double) -> f64 {
    f64::from_bits(x.bits)
}

fn feed(points: impl IntoIterator<Item = (f64, u64)>) -> Trend {
    let mut t = Trend::default();
    for (s, b) in points {
        t.record(d(s), b);
    }
    t
}

/// The slope computed with the machine's own numbers.
fn reference(ring: &[(f64, u64)]) -> Option<f64> {
    let t0 = ring.iter().map(|p| p.0).fold(f64::MAX, f64::min);
    let t1 = ring.iter().map(|p| p.0).fold(f64::MIN, f64::max);
    let span = (t1 - t0).max(0.0);
    if ring.len() < 8 || span <= 300.0 {
        return None;
    }
    let width = span / 8.0;
    let mut best: Vec<Option<(f64, u64)>> = vec![None; 8];
    for p in ring {
        let k = (((p.0 - t0) / width) as usize).min(7);
        match best[k] {
            Some(cur) if cur.1 <= p.1 => {}
            _ => best[k] = Some(*p),
        }
    }
    let floors: Vec<(f64, u64)> = best.into_iter().flatten().collect();
    if floors.len() < 4 {
        return None;
    }
    let n = floors.len() as f64;
    let mean_t = floors.iter().map(|p| p.0).sum::<f64>() / n;
    let mean_y = floors.iter().map(|p| p.1 as f64).sum::<f64>() / n;
    let (mut num, mut den) = (0.0, 0.0);
    for p in &floors {
        let dt = p.0 - mean_t;
        num += dt * (p.1 as f64 - mean_y);
        den += dt * dt;
    }
    if den <= f64::EPSILON {
        return None;
    }
    Some(num / den * 3600.0 / (1 << 20) as f64)
}

#[test]
fn empty_trend_says_nothing() {
    assert!(Trend::default().summary().is_none());
}

#[test]
fn floor_and_peak_are_the_window_extremes() {
    let t = feed([(0.0, 500 * MIB), (60.0, 900 * MIB), (120.0, 520 * MIB)]);
    let s = t.summary().unwrap();
    assert_eq!(s.floor, 500 * MIB);
    assert_eq!(s.peak, 900 * MIB);
    assert_eq!(s.spike_headroom(), 400 * MIB);
    assert_eq!(s.samples, 3);
    assert_eq!(s.window_secs, 120);
}

#[test]
fn a_short_window_refuses_to_guess_a_slope() {
    // Three points over 2 minutes is not an hourly rate.
    let t = feed([(0.0, 100 * MIB), (60.0, 200 * MIB), (120.0, 300 * MIB)]);
    assert_eq!(t.summary().unwrap().slope_mib_per_hour, None);
}

#[test]
fn steady_sawtooth_is_not_a_leak() {
    // Spikes to 1 GiB every other sample, always returning to 400 MiB.
    let pts: Vec<(f64, u64)> = (0..40)
        .map(|i| {
            let t = i as f64 * 60.0;
            let b = if i % 2 == 0 { 400 * MIB } else { 1024 * MIB };
            (t, b)
        })
        .collect();
    let s = feed(pts).summary().unwrap();
    assert_eq!(s.floor, 400 * MIB);
    assert_eq!(s.peak, 1024 * MIB);
    let slope = f(s.slope_mib_per_hour.expect("long enough window"));
    assert!(slope.abs() < 10.0, "sawtooth read as a trend: {slope}");
    assert!(!s.is_growing(d(10.0)));
}

#[test]
fn a_climbing_floor_is_detected_in_mib_per_hour() {
    // +60 MiB/hour: one MiB per minute, sampled each minute for an hour.
    let pts: Vec<(f64, u64)> = (0..60)
        .map(|i| (i as f64 * 60.0, 400 * MIB + i as u64 * MIB))
        .collect();
    let s = feed(pts).summary().unwrap();
    let slope = f(s.slope_mib_per_hour.expect("slope"));
    assert!(
        (slope - 60.0).abs() < 1.0,
        "expected ~60 MiB/h, got {slope}"
    );
    assert!(s.is_growing(d(10.0)));
    assert!(!s.is_growing(d(100.0)));
}

#[test]
fn falling_memory_gives_a_negative_slope() {
    let pts: Vec<(f64, u64)> = (0..60)
        .map(|i| (i as f64 * 60.0, 1000 * MIB - i as u64 * MIB))
        .collect();
    let s = feed(pts).summary().unwrap();
    assert!(f(s.slope_mib_per_hour.unwrap()) < -50.0);
    assert!(!s.is_growing(d(0.0)));
}

#[test]
fn unknown_slope_never_counts_as_growing() {
    let s = MemoryTrend {
        samples: 2,
        window_secs: 10,
        floor: 0,
        peak: 0,
        slope_mib_per_hour: None,
    };
    assert!(!s.is_growing(d(0.0)), "no evidence is not a leak");
}

#[test]
fn the_ring_is_bounded_and_keeps_the_newest() {
    let mut t = Trend::default();
    for i in 0..(CAPACITY * 3) {
        t.record(d(i as f64), i as u64);
    }
    let s = t.summary().unwrap();
    assert_eq!(s.samples as usize, CAPACITY, "the ring is bounded");
    // Oldest samples were overwritten, so the floor has moved up with them.
    assert_eq!(s.peak, (CAPACITY * 3 - 1) as u64);
    assert_eq!(s.floor, (CAPACITY * 2) as u64);
}

#[test]
fn the_slope_is_the_machines_slope_to_the_last_bit() {
    let mut x: u64 = 88172645463325252;
    for round in 0..60u64 {
        let mut pts: Vec<(f64, u64)> = Vec::new();
        let mut t = (round as f64) / 7.0;
        for _ in 0..(8 + round * 7) {
            x ^= x << 13;
            x ^= x >> 7;
            x ^= x << 17;
            t += (x % 100_000) as f64 / 997.0;
            pts.push((t, x >> (12 + round % 24)));
        }
        let s = feed(pts.clone()).summary().unwrap();
        assert_eq!(
            s.slope_mib_per_hour.map(|v| v.bits),
            reference(&pts).map(|v| v.to_bits()),
            "round {round}"
        );
    }
}

#[test]
fn a_spike_above_the_floor_moves_nothing() {
    let flat: Vec<(f64, u64)> = (0..80).map(|i| (i as f64 * 10.0, 500 * MIB + i as u64)).collect();
    let mut spiked = flat.clone();
    spiked[41].1 = 9_000 * MIB;
    spiked[77].1 = 8_000 * MIB;
    let a = feed(flat).summary().unwrap();
    let b = feed(spiked).summary().unwrap();
    assert_eq!(a.slope_mib_per_hour, b.slope_mib_per_hour);
    assert!(b.peak > a.peak);
}

#[test]
fn five_minutes_are_not_enough() {
    let points = |step: f64| (0..9).map(move |i| (i as f64 * step, (i as u64 + 1) * MIB));
    let s = feed(points(37.5)).summary().unwrap();
    assert_eq!((s.samples, s.window_secs, s.slope_mib_per_hour), (9, 300, None));
    let s = feed(points(37.625)).summary().unwrap();
    assert_eq!(s.window_secs, 301);
    assert!(s.slope_mib_per_hour.is_some());
}

#[test]
fn the_order_in_the_ring_does_not_show() {
    // The window has wrapped round; only the newest readings are left.
    let mut t = Trend::default();
    for i in 0..(CAPACITY + 100) {
        t.record(d(i as f64 * 2.0), (1_000 - i as i64).unsigned_abs());
    }
    let s = t.summary().unwrap();
    assert_eq!((s.floor, s.peak), (389, 900));
    assert_eq!(s.window_secs, (CAPACITY as u64 - 1) * 2);
}

#[test]
fn samples_in_too_few_segments_give_no_slope() {
    // Ten samples at the start and one at the end: two segments saw traffic.
    let mut pts: Vec<(f64, u64)> = (0..10).map(|i| (i as f64 * 0.1, MIB)).collect();
    pts.push((4000.0, 2 * MIB));
    let s = feed(pts).summary().unwrap();
    assert_eq!(s.slope_mib_per_hour, None);
    assert_eq!(s.window_secs, 4000);
}

#[test]
fn a_flat_floor_has_no_growth_at_all() {
    let pts: Vec<(f64, u64)> = (0..64)
        .map(|i| (i as f64 * 37.5, if i % 4 == 0 { 400 * MIB + 1 } else { 3000 * MIB + i as u64 }))
        .collect();
    let s = feed(pts).summary().unwrap();
    assert_eq!(f(s.slope_mib_per_hour.expect("long enough window")), 0.0);
    assert!(!s.is_growing(d(0.0)));
}
