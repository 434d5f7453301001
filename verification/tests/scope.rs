use std::cell::Cell;

use clove4apm::float::double::Double;
use clove4apm::scope::{measure, reset, snapshot, PrevRow, Registry, Scope};
use clove4apm::{OpTiming, ScopeMemory};

const MS: u64 = 1_000_000;

fn d(x: f64) -> Double {
    Double { bits: x.to_bits() }
}

fn f(x: Double) -> f64 {
    f64::from_bits(x.bits)
}

fn row(registry: &Registry, name: &str) -> OpTiming {
    let mut prev = Vec::new();
    snapshot(registry, &mut prev, None)
        .into_iter()
        .find(|o| o.name == name)
        .expect("row")
}

/// One run of `us` microseconds.
fn run(registry: &mut Registry, name: &'static str, us: u64) {
    let s = Scope::new(name, registry, 5);
    s.finish(registry, 5 + us * 1_000, (0, 0, 0));
}

#[test]
fn drop_records_one_aggregated_row() {
    let mut registry = Registry::default();
    for _ in 0..2 {
        run(&mut registry, "t_aggregated", 3);
    }
    let r = row(&registry, "t_aggregated");
    assert_eq!(r.count, 2, "two calls, one row");
    assert_eq!(r.errors, 0);
    assert!(r.p50_us.is_some());
    assert_eq!(registry.active, 0);
}

#[test]
fn latency_percentiles_are_populated() {
    let mut registry = Registry::default();
    for i in 0..20 {
        let s = Scope::new("t_latency", &mut registry, i * 10 * MS);
        s.finish(&mut registry, i * 10 * MS + 2 * MS + i * 1_000, (0, 0, 0));
    }
    let r = row(&registry, "t_latency");
    assert_eq!(r.count, 20);
    // 2 ms is at least 2000 us.
    assert!(r.p50_us.unwrap() >= 2_000, "p50 = {:?}", r.p50_us);
    assert!(r.max_us.unwrap() >= r.p50_us.unwrap());
    assert!(r.min_us.unwrap() <= r.p50_us.unwrap());
    assert!(f(r.p99_ms().unwrap()) >= 2.0);
    assert_eq!((r.min_us, r.max_us), (Some(2_000), Some(2_019)));
    assert_eq!(r.mean_us.map(f), Some(2_009.5));
    assert_eq!(f(r.total_ms()), 40.19);
}

#[test]
fn failures_are_counted_but_quiet_ops_have_no_rate() {
    let mut registry = Registry::default();
    {
        let mut s = Scope::new("t_failures", &mut registry, 0);
        s.fail();
        s.finish(&mut registry, 10, (0, 0, 0));
    }
    run(&mut registry, "t_failures", 0);
    let mut prev = Vec::new();
    let first = snapshot(&registry, &mut prev, Some(d(1.0)))
        .into_iter()
        .find(|o| o.name == "t_failures")
        .unwrap();
    assert_eq!(first.count, 2);
    assert_eq!(first.errors, 1);
    assert_eq!(first.error_rate, Some(d(0.5)));
    assert_eq!(first.per_sec, Some(d(2.0)));

    // Nothing ran in the second interval: no rate at all, not a zero.
    let second = snapshot(&registry, &mut prev, Some(d(1.0)))
        .into_iter()
        .find(|o| o.name == "t_failures")
        .unwrap();
    assert_eq!(second.count, 2, "lifetime count is unchanged");
    assert_eq!(second.count_delta, 0);
    assert_eq!(second.error_rate, None, "silence is not success");
    assert_eq!(second.per_sec, Some(d(0.0)));
}

#[test]
fn measure_records_the_error_outcome() {
    let mut registry = Registry::default();
    let ok: Result<u8, u8> = measure("t_measure", &mut registry, || 0, || Ok(1));
    assert!(ok.is_ok());
    let err: Result<u8, u8> = measure("t_measure", &mut registry, || 0, || Err(2));
    assert!(err.is_err());
    let r = row(&registry, "t_measure");
    assert_eq!(r.count, 2);
    assert_eq!(r.errors, 1);
    assert_eq!(registry.active, 0);
}

#[test]
fn measure_reads_the_clock_before_and_after() {
    let mut registry = Registry::default();
    let t = Cell::new(0u64);
    let clock = || {
        t.set(t.get() + 7_000);
        t.get()
    };
    let out: Result<(), ()> = measure("timed", &mut registry, clock, || Ok(()));
    assert!(out.is_ok());
    assert_eq!(t.get(), 14_000);
    assert_eq!(row(&registry, "timed").total_us, 7);
}

#[test]
fn attribution_starts_where_the_counters_were_read() {
    let mut registry = Registry::default();
    let mut s = Scope::new("late", &mut registry, 1_000);
    s.attribute((10, 20, 0), 5_000);
    let inner = Scope::with_memory("inner", &mut registry, (0, 0, 0), 5_000);
    inner.finish(&mut registry, 6_000, (0, 0, 0));
    s.finish(&mut registry, 9_000, (15, 18, 0));
    let r = row(&registry, "late");
    assert_eq!(r.total_us, 4);
    let m = r.last_memory.unwrap();
    assert_eq!((m.d_rss, m.d_private, m.concurrent), (5, -2, 2));
}

#[test]
fn measure_hands_the_value_through() {
    let mut registry = Registry::default();
    let out: Result<u32, &str> = measure("parse", &mut registry, || 0, || "7".parse::<u32>().map_err(|_| "bad"));
    assert_eq!(out, Ok(7));
}

#[test]
fn memory_is_absent_unless_opted_in() {
    let mut registry = Registry::default();
    run(&mut registry, "t_no_mem", 1);
    assert!(row(&registry, "t_no_mem").last_memory.is_none());
}

#[test]
fn is_isolated_is_exactly_the_no_peers_case() {
    let alone = ScopeMemory {
        d_rss: 0,
        d_private: 0,
        concurrent: 1,
    };
    let shared = ScopeMemory {
        d_rss: 0,
        d_private: 0,
        concurrent: 2,
    };
    assert!(alone.is_isolated());
    assert!(!shared.is_isolated());
}

#[test]
fn opting_in_attributes_memory_that_is_still_alive() {
    let mut registry = Registry::default();
    let s = Scope::with_memory("t_mem", &mut registry, (1_000, 500, 2_000), 0);
    s.finish(&mut registry, 10, (1_000 + (32 << 20), 500 + (32 << 20), 0));
    let m = row(&registry, "t_mem").last_memory.expect("memory was requested");
    assert!(m.concurrent >= 1);
    assert!(m.d_private > 0, "32 MiB should show: {}", m.d_private);
    assert_eq!((m.d_rss, m.d_private), (32 << 20, 32 << 20));
    assert!(m.is_isolated());
}

#[test]
fn a_freed_buffer_still_records_a_measurement() {
    let mut registry = Registry::default();
    let s = Scope::with_memory("t_drop_order", &mut registry, (32 << 20, 32 << 20, 0), 0);
    s.finish(&mut registry, 10, (0, 0, 0));
    let m = row(&registry, "t_drop_order").last_memory;
    assert!(m.is_some());
    assert_eq!(m.unwrap().d_rss, -(32 << 20));
    // A later run without memory keeps the last measurement.
    run(&mut registry, "t_drop_order", 1);
    assert_eq!(row(&registry, "t_drop_order").last_memory, m);
}

#[test]
fn nested_scopes_report_that_they_overlapped() {
    let mut registry = Registry::default();
    let outer = Scope::with_memory("t_outer", &mut registry, (0, 0, 0), 0);
    let inner = Scope::with_memory("t_inner", &mut registry, (0, 0, 0), 0);
    inner.finish(&mut registry, 1, (0, 0, 0));
    let m = row(&registry, "t_inner").last_memory.unwrap();
    assert!(m.concurrent >= 2, "inner ran inside outer");
    assert!(!m.is_isolated(), "an overlapping measurement is not clean");
    outer.finish(&mut registry, 2, (0, 0, 0));
    let o = row(&registry, "t_outer").last_memory.unwrap();
    assert_eq!((o.concurrent, m.concurrent), (2, 2), "each overlapped the other");
    assert!(!o.is_isolated());
    assert_eq!(registry.active, 0);
}

#[test]
fn every_scope_that_shared_the_time_counts() {
    let mut registry = Registry::default();
    let before = Scope::new("before", &mut registry, 0);
    let outer = Scope::with_memory("outer", &mut registry, (0, 0, 0), 0);
    before.finish(&mut registry, 1, (0, 0, 0));
    for _ in 0..3 {
        run(&mut registry, "inner", 1);
    }
    outer.finish(&mut registry, 9, (0, 0, 0));
    assert_eq!(row(&registry, "outer").last_memory.unwrap().concurrent, 5);
    // One that follows when all have ended is alone again.
    let alone = Scope::with_memory("alone", &mut registry, (0, 0, 0), 10);
    alone.finish(&mut registry, 11, (0, 0, 0));
    assert!(row(&registry, "alone").last_memory.unwrap().is_isolated());
}

#[test]
fn tail_ratio_exposes_a_bimodal_operation() {
    let mut registry = Registry::default();
    for _ in 0..50 {
        run(&mut registry, "t_bimodal", 0);
    }
    run(&mut registry, "t_bimodal", 30_000);
    let r = row(&registry, "t_bimodal");
    assert!(f(r.tail_ratio().unwrap()) > 2.0, "ratio {:?}", r.tail_ratio());
    assert_eq!(f(r.tail_ratio().unwrap()), 30_000.0, "a p50 of zero is floored at one");
}

#[test]
fn rows_come_heaviest_first() {
    let mut registry = Registry::default();
    run(&mut registry, "light", 10);
    run(&mut registry, "heavy", 500);
    run(&mut registry, "light", 20);
    run(&mut registry, "tie", 30);
    let mut prev = Vec::new();
    let names: Vec<&str> = snapshot(&registry, &mut prev, None).iter().map(|o| o.name).collect();
    assert_eq!(names, ["heavy", "light", "tie"]);
    assert_eq!(prev.len(), 3);
}

#[test]
fn deltas_count_the_runs_between_two_snapshots() {
    let mut registry = Registry::default();
    let mut prev: Vec<PrevRow> = Vec::new();
    run(&mut registry, "op", 1);
    snapshot(&registry, &mut prev, None);
    for i in 0..4u64 {
        let mut s = Scope::new("op", &mut registry, 0);
        s.set_ok(i != 2);
        s.finish(&mut registry, 100, (0, 0, 0));
    }
    let r = snapshot(&registry, &mut prev, Some(d(2.0))).remove(0);
    assert_eq!((r.count, r.count_delta, r.errors, r.errors_delta), (5, 4, 1, 1));
    assert_eq!(r.error_rate, Some(d(0.25)));
    assert_eq!(r.per_sec, Some(d(2.0)));
}

#[test]
fn reset_forgets_every_operation() {
    let mut registry = Registry::default();
    run(&mut registry, "op", 1);
    let mut prev = Vec::new();
    snapshot(&registry, &mut prev, None);
    reset(&mut registry);
    assert!(snapshot(&registry, &mut prev, None).is_empty());
    run(&mut registry, "op", 1);
    let r = snapshot(&registry, &mut prev, Some(d(1.0))).remove(0);
    assert_eq!(r.count, 1);
    assert_eq!(r.count_delta, 1, "nothing from before the reset is compared with");
    assert_eq!(r.error_rate, Some(d(0.0)));
    assert_eq!(r.per_sec, Some(d(1.0)));
}

#[test]
fn a_reset_between_two_snapshots_starts_a_clean_window() {
    let mut registry = Registry::default();
    let mut prev = Vec::new();
    for _ in 0..5 {
        run(&mut registry, "op", 1);
    }
    snapshot(&registry, &mut prev, None);
    reset(&mut registry);
    for _ in 0..7 {
        run(&mut registry, "op", 1);
    }
    let r = snapshot(&registry, &mut prev, Some(d(1.0))).remove(0);
    assert_eq!((r.count, r.count_delta), (7, 7));
}

#[test]
fn elapsed_is_in_whole_microseconds() {
    let mut registry = Registry::default();
    let s = Scope::new("op", &mut registry, 1_000);
    assert_eq!(s.elapsed_us(1_000), 0);
    assert_eq!(s.elapsed_us(2_999), 1);
    assert_eq!(s.elapsed_us(0), 0);
}
