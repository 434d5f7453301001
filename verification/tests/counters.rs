//! Allocator, errors, network and machine.

use clove4apm::allocator::{counts, live_bytes, totals, CountingAlloc};
use clove4apm::errors::{note, summary, ErrorLog};
use clove4apm::float::double::Double;
use clove4apm::float::single::Single;
use clove4apm::net::{collect, totals as net_totals, totals_fit, Interface};
use clove4apm::system::MachineReading;
use clove4apm::SystemMetrics;

fn d(x: f64) -> Double {
    Double { bits: x.to_bits() }
}

fn f(x: Double) -> f64 {
    f64::from_bits(x.bits)
}

#[test]
fn counts_allocations_and_frees() {
    let mut a = CountingAlloc::default();
    a.allocate(1, true);
    let (a0, f0) = totals(&a);
    let (ac0, dc0) = counts(&a);
    a.alloc_zeroed(4096, true);
    let (a1, _) = totals(&a);
    let (ac1, _) = counts(&a);
    assert!(a1 > a0, "allocation bytes not counted");
    assert!(ac1 > ac0, "allocation count not counted");
    a.dealloc(4096);
    let (_, f1) = totals(&a);
    let (_, dc1) = counts(&a);
    assert!(f1 > f0, "free bytes not counted");
    assert!(dc1 > dc0, "free count not counted");
    assert_eq!((a1 - a0, ac1 - ac0, f1 - f0, dc1 - dc0), (4096, 1, 4096, 1));
}

#[test]
fn realloc_counts_only_the_difference() {
    const SMALL: usize = 32 << 20;
    const BIG: usize = 96 << 20;
    const NOISE: u64 = 8 << 20;

    let mut a = CountingAlloc::default();
    a.allocate(12345, true);
    let before = live_bytes(&a);

    a.allocate(SMALL, true);
    let after_alloc = live_bytes(&a).saturating_sub(before);
    assert!(
        after_alloc.abs_diff(SMALL as u64) < NOISE,
        "alloc counted {after_alloc}, expected about {SMALL}"
    );

    a.realloc(SMALL, BIG, true);
    let after_grow = live_bytes(&a).saturating_sub(before);
    assert!(
        after_grow.abs_diff(BIG as u64) < NOISE,
        "after growing to {BIG} the live total moved by {after_grow} \
         — a realloc counted as a fresh allocation would show about {}",
        SMALL + BIG
    );
    a.dealloc(BIG);

    // Freeing the grown block must return live to where it started, or the
    // realloc accounting was asymmetric.
    let leaked = live_bytes(&a).saturating_sub(before);
    assert!(leaked < NOISE, "live stayed {leaked} above the baseline");
    assert_eq!(leaked, 0);
    assert_eq!(counts(&a), (2, 1), "a realloc is not an allocation");

    a.allocate(BIG, true);
    a.realloc(BIG, SMALL, true);
    a.dealloc(SMALL);
    assert_eq!(live_bytes(&a), before, "shrinking is symmetric too");
}

#[test]
fn a_refused_request_moves_nothing() {
    let mut a = CountingAlloc::default();
    a.allocate(100, true);
    let before = a;
    a.allocate(usize::MAX, false);
    a.alloc_zeroed(7, false);
    a.realloc(100, 4096, false);
    a.realloc(100, 1, false);
    assert_eq!(a, before);
    // The block that could not grow is still the old one.
    a.dealloc(100);
    assert_eq!((live_bytes(&a), counts(&a)), (0, (1, 1)));
}

#[test]
fn delta_counts_only_the_interval() {
    let mut log = ErrorLog::default();
    note(&mut log, "t_before", "zero");
    let mut prev = 0;
    let first = summary(&log, &mut prev, None);

    note(&mut log, "t_delta", "one");
    note(&mut log, "t_delta", "two");

    let second = summary(&log, &mut prev, Some(d(2.0)));
    assert_eq!(
        second.delta,
        second.total - first.total,
        "delta must be exactly the growth since the previous summary"
    );
    assert!(second.delta >= 2, "this test alone added two");
    assert_eq!(second.per_sec, Some(d(second.delta as f64 / 2.0)));
    assert!(second.last.is_some());
    assert_eq!(second.last.as_deref(), Some("t_delta: two"));

    let third = summary(&log, &mut prev, Some(d(2.0)));
    assert_eq!(third.delta, third.total - second.total);
    assert_eq!(third.per_sec, Some(d(third.delta as f64 / 2.0)));
    // Lifetime totals never go backwards.
    assert!(third.total >= second.total);
    assert_eq!(first.delta + second.delta + third.delta, third.total);
}

#[test]
fn summary_advances_the_baseline_it_was_given() {
    let mut log = ErrorLog::default();
    note(&mut log, "k", "m");
    let mut prev = 0;
    let s = summary(&log, &mut prev, Some(d(4.0)));
    assert_eq!(prev, s.total);
    assert_eq!(s.per_sec, Some(d(s.delta as f64 / 4.0)));
}

#[test]
fn no_interval_means_no_rate() {
    let log = ErrorLog::default();
    let mut prev = 0;
    assert_eq!(summary(&log, &mut prev, None).per_sec, None);
    // A zero-length interval would divide by zero; it reports nothing too.
    assert_eq!(summary(&log, &mut prev, Some(d(0.0))).per_sec, None);
}

#[test]
fn kinds_are_ordered_stably() {
    let mut log = ErrorLog::default();
    note(&mut log, "t_kind_b", "x");
    for _ in 0..5 {
        note(&mut log, "t_kind_a", "x");
    }
    note(&mut log, "t_kind_0", "x");
    let mut prev = 0;
    let s = summary(&log, &mut prev, None);
    let a = s.per_kind.iter().position(|(k, _)| k == "t_kind_a");
    let b = s.per_kind.iter().position(|(k, _)| k == "t_kind_b");
    assert!(a < b, "more frequent kind must sort first");
    let all: Vec<(&str, u64)> = s.per_kind.iter().map(|(k, n)| (k.as_str(), *n)).collect();
    assert_eq!(all, [("t_kind_a", 5), ("t_kind_0", 1), ("t_kind_b", 1)]);
    assert_eq!(all.iter().map(|k| k.1).sum::<u64>(), s.total, "every error has a kind");
}

fn nets() -> Vec<Interface> {
    let live = sysinfo::Networks::new_with_refreshed_list();
    let mut all: Vec<Interface> = live
        .iter()
        .map(|(_name, n)| Interface {
            received: n.total_received(),
            transmitted: n.total_transmitted(),
        })
        .collect();
    all.push(Interface {
        received: 1_000,
        transmitted: 50,
    });
    all
}

#[test]
fn an_idle_interface_reports_zero_rather_than_nothing() {
    let nets = nets();
    let m = collect(&nets, Some((u64::MAX, u64::MAX)), Some(d(1.0))).expect("interfaces exist");
    // Totals below `prev` saturate to a zero delta instead of underflowing.
    assert_eq!(m.rx_delta, 0);
    assert_eq!(m.rx_per_sec, Some(d(0.0)), "quiet is a measurement");
}

#[test]
fn the_first_sample_has_no_rate() {
    let m = collect(&nets(), None, Some(d(1.0))).unwrap();
    assert_eq!(m.rx_per_sec, None, "nothing to compare against yet");
    assert_eq!(m.rx_delta, 0);
}

#[test]
fn traffic_is_summed_and_rated() {
    let all = vec![
        Interface {
            received: 700,
            transmitted: 1,
        },
        Interface {
            received: 300,
            transmitted: 9,
        },
    ];
    assert_eq!(net_totals(&all), (1_000, 10));
    assert!(totals_fit(&all));
    let m = collect(&all, Some((400, 4)), Some(d(4.0))).unwrap();
    assert_eq!((m.rx_total, m.tx_total, m.rx_delta, m.tx_delta), (1_000, 10, 600, 6));
    assert_eq!(m.rx_per_sec.map(f), Some(150.0));
    assert_eq!(m.tx_per_sec.map(f), Some(1.5));
    assert!(collect(&vec![], Some((0, 0)), Some(d(1.0))).is_none());
    let huge = vec![
        Interface {
            received: u64::MAX,
            transmitted: 0,
        },
        Interface {
            received: 0,
            transmitted: 1,
        },
    ];
    assert!(!totals_fit(&huge));
}

#[test]
fn percentages_derive_from_the_raw_totals() {
    let mut sys = sysinfo::System::new();
    sys.refresh_cpu_all();
    sys.refresh_memory();
    let mut cpus: Vec<Single> = sys
        .cpus()
        .iter()
        .map(|c| Single {
            bits: c.cpu_usage().to_bits(),
        })
        .collect();
    cpus.push(Single { bits: 0 });
    let reading = MachineReading {
        cpus,
        load_avg: None,
        ram_total: sys.total_memory().max(1),
        ram_used: sys.used_memory().min(sys.total_memory()),
        ram_available: sys.available_memory(),
        swap_total: sys.total_swap(),
        swap_used: sys.used_swap(),
    };
    let m = clove4apm::system::collect(&reading).expect("a machine has cpus");
    assert!(m.cores > 0);
    assert_eq!(m.cpu_per_core.len(), m.cores);
    assert!(m.ram_total > 0);
    let used = f(m.ram_used_pct().expect("ram_total > 0"));
    assert!((0.0..=100.0).contains(&used), "ram_used_pct = {used}");
}

#[test]
fn percentages_are_none_when_the_total_is_zero() {
    let m = SystemMetrics {
        cpu_pct: Single { bits: 0 },
        cpu_per_core: vec![],
        cores: 1,
        load_avg: None,
        ram_total: 0,
        ram_used: 0,
        ram_free: 0,
        swap_total: 0,
        swap_used: 0,
    };
    assert_eq!(m.ram_used_pct(), None);
    assert_eq!(m.swap_used_pct(), None, "a box with no swap is not 0% swap");
}

#[test]
fn usage_is_the_mean_of_the_cores() {
    for cores in [
        vec![12.5f32, 99.25, 3.1, 0.7],
        vec![33.3f32; 7],
        vec![-0.0f32],
        vec![0.1f32, 0.2, 0.3],
    ] {
        let reading = MachineReading {
            cpus: cores.iter().map(|c| Single { bits: c.to_bits() }).collect(),
            load_avg: Some((d(0.5), d(0.25), d(0.125))),
            ram_total: 400,
            ram_used: 100,
            ram_available: 290,
            swap_total: 0,
            swap_used: 0,
        };
        let m = clove4apm::system::collect(&reading).unwrap();
        let mean = cores.iter().sum::<f32>() / cores.len() as f32;
        assert_eq!(m.cpu_pct.bits, mean.to_bits(), "{cores:?}");
        assert_eq!(m.cores, cores.len());
        assert_eq!(m.ram_used_pct().map(f), Some(25.0));
        assert_eq!(m.swap_used_pct(), None);
        assert_eq!(m.ram_free, 290);
        assert_eq!(m.load_avg, Some((d(0.5), d(0.25), d(0.125))));
    }
    let none = MachineReading {
        cpus: vec![],
        load_avg: None,
        ram_total: 1,
        ram_used: 1,
        ram_available: 0,
        swap_total: 0,
        swap_used: 0,
    };
    assert!(clove4apm::system::collect(&none).is_none());
}
