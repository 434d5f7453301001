use clove4apm::float::single::Single;
use clove4apm::triggers::{evaluate, evaluate_readings, Own, Reading, Sample, Thresholds};
use clove4apm::Metric;

fn s(x: f32) -> Single {
    Single { bits: x.to_bits() }
}

fn base() -> Sample {
    Sample {
        ram: 100 << 20,
        cpu: s(10.0),
        disk: 0,
        net: 0,
    }
}

fn trips(d_ram: u64, d_cpu: f32, d_disk: u64, d_net: u64) -> Vec<Metric> {
    let base = base();
    let cur = Sample {
        ram: base.ram + d_ram,
        cpu: s(10.0 + d_cpu),
        disk: base.disk + d_disk,
        net: base.net + d_net,
    };
    evaluate(&Thresholds::default(), &base, &cur)
        .into_iter()
        .map(|t| t.metric)
        .collect()
}

/// The boundary table: RAM is strictly above, the rest `>=`.
#[test]
fn boundaries_match_the_watchdog_selftest() {
    assert!(trips(1024, 0.0, 0, 0).is_empty(), "RAM +1 KiB");
    assert!(
        trips(10 << 20, 0.0, 0, 0).is_empty(),
        "RAM +10 MiB == limit"
    );
    assert_eq!(trips(11 << 20, 0.0, 0, 0), [Metric::Ram], "RAM +11 MiB");
    assert!(trips(0, 14.0, 0, 0).is_empty(), "CPU +14 pp");
    assert_eq!(trips(0, 16.0, 0, 0), [Metric::Cpu], "CPU +16 pp");
    assert!(trips(0, 0.0, 40 << 20, 0).is_empty(), "DISK +40 MiB");
    assert_eq!(trips(0, 0.0, 60 << 20, 0), [Metric::Disk], "DISK +60 MiB");
    assert!(trips(0, 0.0, 0, 15 << 20).is_empty(), "NET +15 MiB");
    assert_eq!(trips(0, 0.0, 0, 25 << 20), [Metric::Net], "NET +25 MiB");
}

#[test]
fn negative_ram_delta_trips() {
    let prev = base();
    let cur = Sample {
        ram: base().ram - (100 << 20),
        ..base()
    };
    let t = evaluate(&Thresholds::default(), &prev, &cur);
    assert_eq!(t.len(), 1);
    assert_eq!(t[0].metric, Metric::Ram);
    assert!(f64::from_bits(t[0].delta.bits) < 0.0);
    assert_eq!(f64::from_bits(t[0].delta.bits), -100.0);
    assert_eq!(t[0].unit, "MiB");
}

#[test]
fn exactly_the_threshold_trips_everything_but_ram() {
    assert_eq!(
        trips(10 << 20, 15.0, 50 << 20, 20 << 20),
        [Metric::Cpu, Metric::Disk, Metric::Net]
    );
}

#[test]
fn deltas_come_in_their_units() {
    let cur = Sample {
        ram: base().ram,
        cpu: s(30.5),
        disk: 75 << 20,
        net: 0,
    };
    let t = evaluate(&Thresholds::default(), &base(), &cur);
    assert_eq!(t.len(), 2);
    assert_eq!((f64::from_bits(t[0].delta.bits), t[0].unit), (20.5, "pp"));
    assert_eq!((f64::from_bits(t[1].delta.bits), t[1].unit), (75.0, "MiB"));
}

#[test]
fn a_sample_against_itself_trips_nothing() {
    assert!(evaluate(&Thresholds::default(), &base(), &base()).is_empty());
}

#[test]
fn what_was_not_measured_cannot_move() {
    let th = Thresholds::default();
    let full = base().as_reading();
    let far = Sample {
        ram: 900 << 20,
        cpu: s(90.0),
        disk: 900 << 20,
        net: 900 << 20,
    }
    .as_reading();
    let metrics = |a: &Reading, b: &Reading| -> Vec<Metric> {
        evaluate_readings(&th, a, b).iter().map(|t| t.metric).collect()
    };
    assert_eq!(
        metrics(&full, &far),
        [Metric::Ram, Metric::Cpu, Metric::Disk, Metric::Net]
    );
    let blind = Reading { own: None, ..far };
    assert_eq!(metrics(&full, &blind), [Metric::Net]);
    assert_eq!(metrics(&blind, &full), [Metric::Net]);
    let deaf = Reading { net: None, ..far };
    assert_eq!(metrics(&deaf, &full), [Metric::Ram, Metric::Cpu, Metric::Disk]);
    let nothing = Reading { own: None, net: None };
    assert!(metrics(&nothing, &far).is_empty());
    // A measured zero is compared like any other value.
    let zero = Reading {
        own: Some(Own {
            ram: 0,
            cpu: s(10.0),
            disk: 0,
        }),
        net: None,
    };
    assert_eq!(metrics(&full, &zero), [Metric::Ram]);
}

#[test]
fn a_change_reads_the_same_both_ways() {
    let th = Thresholds::default();
    let a = base();
    let b = Sample {
        ram: 300 << 20,
        cpu: s(40.25),
        disk: 70 << 20,
        net: 1 << 20,
    };
    let there = evaluate(&th, &a, &b);
    let back = evaluate(&th, &b, &a);
    assert_eq!(there.len(), 3);
    assert_eq!(back.len(), 3);
    for (x, y) in there.iter().zip(&back) {
        assert_eq!((x.metric, x.unit), (y.metric, y.unit));
        assert_eq!(f64::from_bits(x.delta.bits), -f64::from_bits(y.delta.bits));
    }
}

#[test]
fn counters_in_the_upper_half_are_read_as_signed() {
    let prev = Sample { ram: u64::MAX, ..base() };
    let cur = Sample { ram: 20 << 20, ..base() };
    let t = evaluate(&Thresholds::default(), &prev, &cur);
    assert_eq!(t.len(), 1);
    assert_eq!(
        f64::from_bits(t[0].delta.bits),
        ((20 << 20) + 1) as f64 / (1 << 20) as f64
    );
}
