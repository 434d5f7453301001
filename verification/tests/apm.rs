use clove4apm::allocator::CountingAlloc;
use clove4apm::checks::Probed;
use clove4apm::disk::DiskReading;
use clove4apm::errors::ErrorLog;
use clove4apm::float::double::Double;
use clove4apm::float::single::Single;
use clove4apm::net::Interface;
use clove4apm::process::{ProcessReading, Source};
use clove4apm::scope::{Registry, Scope};
use clove4apm::system::MachineReading;
use clove4apm::watch::Seen;
use clove4apm::{
    note_error, Apm, ApmReport, Check, CheckResult, Config, ErrorSummary, Health, Identity, MemoryHealth, MemoryTrend,
    Metric, OpTiming, Readings, Verdict, WatchEvent, WatchedProcess,
};

const SEC: u64 = 1_000_000_000;

fn d(x: f64) -> Double {
    Double { bits: x.to_bits() }
}

fn f(x: Double) -> f64 {
    f64::from_bits(x.bits)
}

fn process(pid: u32, name: &str, memory: u64) -> ProcessReading {
    ProcessReading {
        pid,
        name: name.into(),
        memory,
        cpu_usage: Single { bits: 2.14f32.to_bits() },
        tasks: None,
        start_time: 0,
        disk_read: 4_000,
        disk_written: 1_000,
    }
}

/// A quiet machine `at` seconds into the run.
fn readings(at: u64) -> Readings {
    Readings {
        begun_ns: at * SEC,
        read_ns: at * SEC + 5,
        done_ns: at * SEC + 9,
        unix_ms: 1_700_000_000_000 + at * 1_000,
        unix_secs: 1_700_000_000 + at,
        pid: 42,
        host: Some("box".into()),
        machine: MachineReading {
            cpus: vec![Single { bits: 10.0f32.to_bits() }, Single { bits: 20.0f32.to_bits() }],
            load_avg: None,
            ram_total: 1_000,
            ram_used: 100,
            ram_available: 900,
            swap_total: 0,
            swap_used: 0,
        },
        processes: vec![process(1, "init", 50 << 20), process(42, "me", 793 << 20), process(7, "db", 60 << 20)],
        source: Source::Other,
        interfaces: vec![Interface {
            received: 1_000,
            transmitted: 10,
        }],
        disks: vec![DiskReading {
            name: "root".into(),
            mount: "/".into(),
            mount_len: 1,
            total: 100,
            free: 50,
        }],
        probed: vec![],
        allocator: None,
    }
}

fn snap(apm: &mut Apm, r: &Readings) -> ApmReport {
    assert!(apm.accepts(r));
    apm.snapshot(r, &Registry::default(), &ErrorLog::default())
}

fn fine() -> Probed {
    Probed {
        status: Health::Healthy,
        message: None,
        elapsed_ms: 0,
    }
}

#[test]
fn snapshot_smoke() {
    let mut apm = Apm::new(
        Config::for_service("test")
            .watch("definitely-not-running-xyz.exe")
            .check(Check::DiskFree {
                name: "any".into(),
                mount: "/".into(),
                min_free: 0,
            }),
        0,
    );
    let mut reading = readings(1);
    reading.probed.push(fine());
    let r = snap(&mut apm, &reading);
    assert_eq!(r.identity.service, "test");
    assert_eq!(r.identity.pid, 42);
    assert_eq!(r.identity.host.as_deref(), Some("box"));
    assert!(r.ts_unix_ms > 0);
    assert!(r.system.is_some(), "system metrics");
    let p = r.process.as_ref().expect("self process");
    assert!(p.rss > 0);
    assert!(!r.disks.is_empty());
    assert_eq!(r.checks.len(), 1);
    assert!(
        r.triggers.is_empty(),
        "first snapshot has no prev to compare"
    );
    assert_eq!(r.watched[0].event, None);
    assert_eq!(apm.config().service, "test");
}

#[test]
fn the_first_snapshot_has_no_interval_and_therefore_no_rates() {
    let mut apm = Apm::new(Config::for_service("t"), 0);
    let first = snap(&mut apm, &readings(1));
    assert_eq!(first.interval_ms, None);
    assert!(first.io.as_ref().is_none_or(|io| io.read_per_sec.is_none()));
    assert!(first.net.as_ref().is_none_or(|n| n.rx_per_sec.is_none()));

    let mut later = readings(1);
    later.begun_ns += 60_000_000;
    let second = snap(&mut apm, &later);
    let ms = second.interval_ms.expect("second snapshot has an interval");
    assert!(ms >= 50, "interval {ms}ms");
    assert_eq!(ms, 60);
    assert!(
        second
            .io
            .as_ref()
            .is_none_or(|io| io.read_per_sec.is_some())
    );
}

#[test]
fn memory_trend_accumulates_across_snapshots() {
    let mut apm = Apm::new(Config::for_service("t"), 0);
    for _ in 0..3 {
        snap(&mut apm, &readings(1));
    }
    let r = snap(&mut apm, &readings(1));
    let t = r.memory.rss.expect("trend after several snapshots");
    assert_eq!(t.samples, 4);
    assert!(t.peak >= t.floor);
    // Four samples in a few milliseconds cannot support an hourly rate.
    assert_eq!(t.slope_mib_per_hour, None, "refuses to extrapolate");
}

#[test]
fn a_vanished_watch_target_makes_the_whole_report_unhealthy() {
    let mut apm = Apm::new(Config::for_service("t").watch("ghost-process-xyz.exe"), 0);
    snap(&mut apm, &readings(1));
    // Pretend it was there a moment ago, then confirm it is gone.
    apm.prev_watch = vec![Seen {
        pattern: "ghost-process-xyz.exe".into(),
        pid: Some(4242),
        matched: true,
    }];
    let r = snap(&mut apm, &readings(2));
    assert_eq!(r.watched[0].event, Some(WatchEvent::Gone));
    assert_eq!(r.overall, Health::Unhealthy);
    assert!(r.problems().iter().any(|p| p.contains("process gone")));
    assert_eq!(r.problems(), ["process gone: ghost-process-xyz.exe"]);
}

#[test]
fn a_restarted_watch_target_is_a_problem_and_not_healthy() {
    let mut apm = Apm::new(Config::for_service("t").watch("db*"), 0);
    snap(&mut apm, &readings(1));
    let mut reading = readings(2);
    reading.processes[2].pid = 8;
    let r = snap(&mut apm, &reading);
    assert_eq!(r.watched[0].event, Some(WatchEvent::Switched { old_pid: 7 }));
    assert_eq!(r.overall, Health::Degraded);
    assert_eq!(r.problems(), ["process restarted: db* (was pid 7)"]);
}

#[test]
fn a_healthy_report_lists_no_problems() {
    let mut apm = Apm::new(Config::for_service("t"), 0);
    let r = snap(&mut apm, &readings(1));
    if r.overall.is_healthy() {
        assert!(r.problems().is_empty());
    }
    assert!(r.is_healthy());
    // The summary always renders, healthy or not.
    assert!(r.summary().contains("t"));
    assert_eq!(r.summary(), "t Healthy rss=793MiB cpu=2.1% ops=0 errors=0");
}

#[test]
fn top_processes_are_off_unless_requested() {
    let mut apm = Apm::new(Config::for_service("t"), 0);
    assert!(snap(&mut apm, &readings(1)).top_processes.is_empty());

    let mut apm = Apm::new(Config::for_service("t").top_n(3), 0);
    let r = snap(&mut apm, &readings(1));
    assert!(!r.top_processes.is_empty());
    assert!(r.top_processes.len() <= 3);
    let pids: Vec<u32> = r.top_processes.iter().map(|p| p.pid).collect();
    assert_eq!(pids, [42, 7, 1]);
}

#[test]
fn process_enumeration_only_happens_when_something_needs_it() {
    assert!(!Config::for_service("t").needs_all_processes());
    assert!(Config::for_service("t").watch("x").needs_all_processes());
    assert!(Config::for_service("t").top_n(1).needs_all_processes());
    assert!(
        Config::for_service("t")
            .check(Check::ProcessAlive {
                name: "p".into(),
                pattern: "x".into()
            })
            .needs_all_processes()
    );
    // A disk check does not justify walking every process on the machine.
    assert!(
        !Config::for_service("t")
            .check(Check::DiskFree {
                name: "d".into(),
                mount: "/".into(),
                min_free: 0
            })
            .needs_all_processes()
    );
}

#[test]
fn note_error_accumulates() {
    let mut apm = Apm::new(Config::for_service("t"), 0);
    let mut log = ErrorLog::default();
    apm.snapshot(&readings(1), &Registry::default(), &log);
    note_error(&mut log, "test", "boom");
    let r = apm.snapshot(&readings(2), &Registry::default(), &log);
    assert!(r.errors.delta >= 1);
    assert!(r.errors.last.is_some(), "the last message is recorded");
    assert_eq!(r.errors.last.as_deref(), Some("test: boom"));
    assert!(
        r.errors.per_kind.iter().any(|(k, _)| k == "test"),
        "the kind is what groups reliably; `last` is a shared global slot"
    );
}

#[test]
fn configuration_is_built_up_step_by_step() {
    let plain = Config::default();
    assert_eq!((plain.service.as_str(), plain.version.as_str(), plain.top_n), ("app", "0.1.0", 0));
    let c = Config::for_service("s")
        .version("9.9")
        .watch("a")
        .watch("b")
        .limits(clove4apm::Limits {
            handles: Some(5),
            ..Default::default()
        })
        .thresholds(clove4apm::Thresholds {
            ram: 1,
            ..Default::default()
        });
    assert_eq!(c.version, "9.9");
    assert_eq!(c.watch, ["a", "b"]);
    assert_eq!(c.limits.handles, Some(5));
    assert_eq!(c.thresholds.ram, 1);
    assert_eq!(c.thresholds.disk, 50 << 20);
}

#[test]
fn rates_divide_by_the_interval() {
    let mut apm = Apm::new(Config::for_service("t"), 0);
    snap(&mut apm, &readings(10));
    let mut reading = readings(14);
    reading.processes[1].disk_read += 8_000;
    reading.interfaces[0].received += 400;
    reading.begun_ns += 500_000_000;
    let r = snap(&mut apm, &reading);
    assert_eq!(r.interval_ms, Some(4_500));
    let io = r.io.unwrap();
    assert_eq!((io.read_total, io.read_delta, io.written_delta), (12_000, 8_000, 0));
    assert_eq!(io.read_per_sec.map(f), Some(8_000.0 / 4.5));
    assert_eq!(io.written_per_sec.map(f), Some(0.0));
    let n = r.net.unwrap();
    assert_eq!((n.rx_delta, n.rx_per_sec.map(f)), (400, Some(400.0 / 4.5)));
    assert_eq!(r.uptime_secs, 14);
    assert!(r.triggers.is_empty());
}

#[test]
fn what_moved_far_enough_is_triggered() {
    let mut apm = Apm::new(Config::for_service("t"), 0);
    snap(&mut apm, &readings(1));
    let mut reading = readings(2);
    reading.processes[1].memory += 30 << 20;
    reading.interfaces[0].transmitted += 20 << 20;
    let r = snap(&mut apm, &reading);
    let moved: Vec<Metric> = r.triggers.iter().map(|t| t.metric).collect();
    assert_eq!(moved, [Metric::Ram, Metric::Net]);
    assert_eq!(f(r.triggers[0].delta), 30.0);
}

#[test]
fn a_reading_that_was_missed_trips_nothing() {
    let mut apm = Apm::new(Config::for_service("t"), 0);
    snap(&mut apm, &readings(1));
    // Neither the process nor the net could be read: that is no drop to zero.
    let mut blind = readings(2);
    blind.processes.clear();
    blind.interfaces.clear();
    assert!(snap(&mut apm, &blind).triggers.is_empty());
    // And reading them again is no rise from zero.
    assert!(snap(&mut apm, &readings(3)).triggers.is_empty());
    let mut reading = readings(4);
    reading.processes[1].memory -= 300 << 20;
    let r = snap(&mut apm, &reading);
    let moved: Vec<Metric> = r.triggers.iter().map(|t| t.metric).collect();
    assert_eq!(moved, [Metric::Ram]);
    assert_eq!(f(r.triggers[0].delta), -300.0);
}

#[test]
fn the_first_report_rates_no_operation() {
    let mut apm = Apm::new(Config::for_service("t"), 0);
    let mut ops = Registry::default();
    let mut run = |ops: &mut Registry, ok: bool| {
        let mut s = Scope::new("op", ops, 0);
        s.set_ok(ok);
        s.finish(ops, 1_000, (0, 0, 0));
    };
    run(&mut ops, false);
    let r = apm.snapshot(&readings(1), &ops, &ErrorLog::default());
    assert_eq!((r.ops[0].count, r.ops[0].errors), (1, 1));
    assert_eq!((r.ops[0].per_sec, r.ops[0].error_rate), (None, None));
    assert!(r.is_healthy(), "nothing to judge by yet");
    run(&mut ops, false);
    run(&mut ops, true);
    let r = apm.snapshot(&readings(3), &ops, &ErrorLog::default());
    assert_eq!((r.ops[0].count_delta, r.ops[0].errors_delta), (2, 1));
    assert_eq!(r.ops[0].error_rate.map(f), Some(0.5));
    assert_eq!(r.ops[0].per_sec.map(f), Some(1.0));
}

#[test]
fn readings_that_cannot_be_summed_are_refused() {
    let apm = Apm::new(Config::for_service("t"), 0);
    assert!(apm.accepts(&readings(1)));
    let mut reading = readings(1);
    reading.processes[1].disk_read = u64::MAX;
    assert!(!apm.accepts(&reading));
    let mut reading = readings(1);
    reading.interfaces[0].received = u64::MAX;
    assert!(!apm.accepts(&reading));
    let mut reading = readings(1);
    reading.probed.push(fine());
    assert!(!apm.accepts(&reading), "one probe per configured check");
}

#[test]
fn retention_is_what_is_committed_but_not_live() {
    let mut apm = Apm::new(Config::for_service("t"), 0);
    let mut a = CountingAlloc::default();
    a.allocate(90 << 20, true);
    let mut reading = readings(1);
    reading.allocator = Some(a);
    let r = snap(&mut apm, &reading);
    assert_eq!(r.memory.retention_bytes, Some((793 << 20) - (90 << 20)));
    assert_eq!(r.alloc.unwrap().allocs_per_sec, None, "nothing to compare with");
    a.allocate(1, true);
    a.allocate(1, true);
    let mut reading = readings(3);
    reading.allocator = Some(a);
    let r = snap(&mut apm, &reading);
    let stats = r.alloc.unwrap();
    assert_eq!((stats.alloc_count, stats.live_bytes), (3, (90 << 20) + 2));
    assert_eq!(stats.allocs_per_sec.map(f), Some(1.0));
    let r = snap(&mut apm, &readings(4));
    assert!(r.alloc.is_none());
    assert_eq!(r.memory.retention_bytes, None);
}

#[test]
fn operations_and_their_errors_reach_the_verdicts() {
    let mut apm = Apm::new(Config::for_service("t"), 0);
    let mut ops = Registry::default();
    apm.snapshot(&readings(1), &ops, &ErrorLog::default());
    for i in 0..50u64 {
        let mut s = Scope::new("catalog_reconcile", &mut ops, 0);
        s.set_ok(i % 25 != 0);
        s.finish(&mut ops, 2_000_000, (0, 0, 0));
    }
    let r = apm.snapshot(&readings(2), &ops, &ErrorLog::default());
    assert_eq!(r.overall, Health::Degraded);
    assert_eq!(r.problems(), ["op_errors [catalog_reconcile]: 4.0% (limit 1.0%)"]);
    assert_eq!(
        r.summary(),
        "t Degraded rss=793MiB cpu=2.1% ops=1 errors=0 problems=1"
    );
    assert_eq!(r.slowest_op().map(|o| o.name), Some("catalog_reconcile"));
}

#[test]
fn a_failed_check_names_itself_and_its_latency() {
    let mut apm = Apm::new(
        Config::for_service("t").check(Check::Tcp {
            name: "db".into(),
            addr: "db:1".into(),
            timeout_ms: 5,
        }),
        0,
    );
    let mut reading = readings(1);
    reading.probed.push(Probed {
        status: Health::Unhealthy,
        message: Some("refused".into()),
        elapsed_ms: 17,
    });
    let r = snap(&mut apm, &reading);
    assert_eq!(r.overall, Health::Unhealthy);
    assert_eq!(r.problems(), ["check db: refused (17ms)"]);
    let mut reading = readings(2);
    reading.probed.push(Probed {
        status: Health::Unhealthy,
        message: None,
        elapsed_ms: 0,
    });
    assert_eq!(snap(&mut apm, &reading).problems(), ["check db: failed (0ms)"]);
}

#[test]
fn a_machine_that_tells_nothing_is_reported_as_such() {
    let mut apm = Apm::new(Config::for_service("t"), 0);
    let mut reading = readings(1);
    reading.machine.cpus.clear();
    reading.processes.clear();
    reading.interfaces.clear();
    reading.disks.clear();
    reading.host = None;
    let r = snap(&mut apm, &reading);
    assert!(r.system.is_none() && r.process.is_none() && r.net.is_none() && r.io.is_none());
    assert!(r.memory.rss.is_none() && r.memory.private.is_none());
    assert_eq!(r.summary(), "t Healthy rss=? cpu=? ops=0 errors=0");
}

fn report() -> ApmReport {
    ApmReport {
        identity: Identity {
            service: "admin".into(),
            version: "1".into(),
            host: None,
            pid: 1,
        },
        ts_unix_ms: 0,
        uptime_secs: 0,
        interval_ms: None,
        system: None,
        process: None,
        memory: MemoryHealth {
            rss: None,
            private: None,
            retention_bytes: None,
        },
        io: None,
        watched: vec![],
        top_processes: vec![],
        disks: vec![],
        net: None,
        checks: vec![],
        ops: vec![],
        errors: ErrorSummary::default(),
        alloc: None,
        triggers: vec![],
        verdicts: vec![],
        overall: Health::Healthy,
    }
}

fn verdict(rule: &'static str, level: Health, actual: f64, threshold: f64) -> Verdict {
    Verdict {
        rule,
        level,
        actual: d(actual),
        threshold: d(threshold),
        unit: "%",
        subject: None,
    }
}

#[test]
fn problems_come_worst_first_and_keep_their_order() {
    let mut r = report();
    r.verdicts = vec![
        verdict("a", Health::Degraded, 1.25, 1.0),
        verdict("b", Health::Unhealthy, 2.0, 1.0),
        verdict("c", Health::Degraded, 3.0, 1.0),
    ];
    r.verdicts[2].subject = Some("s".into());
    r.checks = vec![CheckResult {
        name: "k".into(),
        status: Health::Unhealthy,
        latency_ms: 4,
        message: Some("m".into()),
    }];
    r.watched = vec![
        WatchedProcess {
            pattern: "p".into(),
            metrics: None,
            event: Some(WatchEvent::Switched { old_pid: 3 }),
        },
        WatchedProcess {
            pattern: "q".into(),
            metrics: None,
            event: Some(WatchEvent::Found),
        },
    ];
    assert_eq!(
        r.problems(),
        [
            "b: 2.0% (limit 1.0%)",
            "check k: m (4ms)",
            "a: 1.2% (limit 1.0%)",
            "c [s]: 3.0% (limit 1.0%)",
            "process restarted: p (was pid 3)",
        ]
    );
}

#[test]
fn the_summary_shows_growth_with_its_sign() {
    let trend = |slope: Option<f64>| MemoryTrend {
        samples: 1,
        window_secs: 1,
        floor: 1,
        peak: 1,
        slope_mib_per_hour: slope.map(d),
    };
    let mut r = report();
    r.overall = Health::Degraded;
    r.memory.private = Some(trend(Some(18.4)));
    r.memory.rss = Some(trend(Some(-3.0)));
    assert_eq!(r.summary(), "admin Degraded rss=? cpu=? growth=+18.4MiB/h ops=0 errors=0");
    r.memory.private = Some(trend(None));
    assert_eq!(r.summary(), "admin Degraded rss=? cpu=? ops=0 errors=0");
    r.memory.private = None;
    assert_eq!(r.summary(), "admin Degraded rss=? cpu=? growth=-3.0MiB/h ops=0 errors=0");
}

#[test]
fn the_slowest_operation_is_the_last_of_the_heaviest() {
    let op = |name: &'static str, total_us: u64| OpTiming {
        name,
        count: 0,
        errors: 0,
        total_us,
        min_us: None,
        mean_us: None,
        p50_us: Some(1_500),
        p95_us: Some(2_000),
        p99_us: Some(3_000),
        max_us: Some(4_000),
        count_delta: 0,
        errors_delta: 0,
        per_sec: None,
        error_rate: None,
        last_memory: None,
    };
    let mut r = report();
    assert!(r.slowest_op().is_none());
    r.ops = vec![op("a", 5), op("b", 9), op("c", 9), op("d", 1)];
    let slow = r.slowest_op().unwrap();
    assert_eq!(slow.name, "c");
    assert_eq!(slow.p50_ms().map(f), Some(1.5));
    assert_eq!(slow.p95_ms().map(f), Some(2.0));
    assert_eq!(slow.p99_ms().map(f), Some(3.0));
    assert_eq!(slow.max_ms().map(f), Some(4.0));
    assert_eq!(slow.tail_ratio().map(f), Some(2.0));
}

#[test]
fn the_worse_of_two_is_the_higher_rung() {
    let all = [Health::Healthy, Health::Degraded, Health::Unhealthy];
    for a in all {
        for b in all {
            assert_eq!(a.worse(b), a.max(b));
        }
    }
    assert!(all[0].is_healthy() && !all[1].is_healthy() && !all[2].is_healthy());
}
