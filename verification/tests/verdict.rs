use clove4apm::float::double::Double;
use clove4apm::float::single::Single;
use clove4apm::verdict::{evaluate, falling, rising, Inputs, Limits};
use clove4apm::{DiskMetrics, Health, MemoryTrend, OpTiming, ProcessMetrics, SystemMetrics};

fn d(x: f64) -> Double {
    Double { bits: x.to_bits() }
}

fn f(x: Double) -> f64 {
    f64::from_bits(x.bits)
}

fn sys(cpu: f32, ram_used: u64, ram_total: u64, swap_used: u64, swap_total: u64) -> SystemMetrics {
    SystemMetrics {
        cpu_pct: Single { bits: cpu.to_bits() },
        cpu_per_core: vec![],
        cores: 1,
        load_avg: None,
        ram_total,
        ram_used,
        ram_free: ram_total - ram_used,
        swap_total,
        swap_used,
    }
}

fn inputs<'a>(system: Option<&'a SystemMetrics>, disks: &'a [DiskMetrics]) -> Inputs<'a> {
    Inputs {
        system,
        process: None,
        disks,
        memory_trend: None,
        ops: &[],
    }
}

fn op(name: &'static str, error_rate: Option<f64>, p99_us: Option<u64>) -> OpTiming {
    OpTiming {
        name,
        count: 100,
        errors: 0,
        total_us: 0,
        min_us: None,
        mean_us: None,
        p50_us: None,
        p95_us: None,
        p99_us,
        max_us: None,
        count_delta: 100,
        errors_delta: 0,
        per_sec: None,
        error_rate: error_rate.map(d),
        last_memory: None,
    }
}

#[test]
fn quiet_system_has_no_verdicts() {
    let s = sys(10.0, 1, 100, 0, 100);
    assert!(evaluate(&Limits::default(), &inputs(Some(&s), &[])).is_empty());
}

#[test]
fn warn_and_critical_are_distinct_levels() {
    // Between the two lines: degraded.
    let warm = sys(90.0, 1, 100, 0, 100);
    let v = evaluate(&Limits::default(), &inputs(Some(&warm), &[]));
    assert_eq!(v.len(), 1);
    assert_eq!(v[0].rule, "cpu_high");
    assert_eq!(v[0].level, Health::Degraded);

    // Past the critical line: unhealthy. Without this tier `overall` could
    // never be worse than Degraded from a resource limit.
    let hot = sys(99.0, 1, 100, 0, 100);
    let v = evaluate(&Limits::default(), &inputs(Some(&hot), &[]));
    assert_eq!(v[0].level, Health::Unhealthy);
    assert_eq!(v[0].threshold, Limits::default().cpu_pct_critical);
}

#[test]
fn each_rule_fires() {
    let hot = sys(95.0, 95, 100, 50, 100);
    let v = evaluate(&Limits::default(), &inputs(Some(&hot), &[]));
    let rules: Vec<_> = v.iter().map(|x| x.rule).collect();
    assert!(rules.contains(&"cpu_high"));
    assert!(rules.contains(&"ram_pressure"));
    assert!(rules.contains(&"swap_in_use"));
}

#[test]
fn disk_verdicts_name_the_mount_that_is_full() {
    let disks = vec![
        DiskMetrics {
            name: "C:".into(),
            mount: "C:\\".into(),
            total: 100,
            free: 50,
        },
        DiskMetrics {
            name: "D:".into(),
            mount: "D:\\".into(),
            total: 100,
            free: 2,
        },
    ];
    let v = evaluate(&Limits::default(), &inputs(None, &disks));
    assert_eq!(v.len(), 1, "only the full one");
    assert_eq!(v[0].rule, "disk_low");
    assert_eq!(v[0].subject.as_deref(), Some("D:\\"));
    assert_eq!(v[0].level, Health::Degraded);
}

#[test]
fn a_rising_floor_is_a_leak_but_a_spike_is_not() {
    let leaking = MemoryTrend {
        samples: 60,
        window_secs: 3600,
        floor: 900 << 20,
        peak: 950 << 20,
        slope_mib_per_hour: Some(d(60.0)),
    };
    let v = evaluate(
        &Limits::default(),
        &Inputs {
            system: None,
            process: None,
            disks: &[],
            memory_trend: Some(&leaking),
            ops: &[],
        },
    );
    assert_eq!(v.len(), 1);
    assert_eq!(v[0].rule, "memory_growth");

    // Huge peak, flat floor: that is work, not a leak.
    let spiky = MemoryTrend {
        samples: 60,
        window_secs: 3600,
        floor: 400 << 20,
        peak: 4096 << 20,
        slope_mib_per_hour: Some(d(0.5)),
    };
    let v = evaluate(
        &Limits::default(),
        &Inputs {
            system: None,
            process: None,
            disks: &[],
            memory_trend: Some(&spiky),
            ops: &[],
        },
    );
    assert!(v.is_empty(), "a spike is not a leak: {v:?}");
}

#[test]
fn an_unknown_slope_never_produces_a_leak_verdict() {
    let unknown = MemoryTrend {
        samples: 3,
        window_secs: 60,
        floor: 0,
        peak: u64::MAX,
        slope_mib_per_hour: None,
    };
    let v = evaluate(
        &Limits::default(),
        &Inputs {
            system: None,
            process: None,
            disks: &[],
            memory_trend: Some(&unknown),
            ops: &[],
        },
    );
    assert!(v.is_empty());
}

#[test]
fn op_error_rate_escalates_and_silence_is_exempt() {
    let ops = [
        op("quiet", None, None),
        op("flaky", Some(0.05), None),
        op("broken", Some(0.50), None),
    ];
    let v = evaluate(
        &Limits::default(),
        &Inputs {
            system: None,
            process: None,
            disks: &[],
            memory_trend: None,
            ops: &ops,
        },
    );
    assert_eq!(v.len(), 2, "the quiet op has no error rate to judge");

    let flaky = v
        .iter()
        .find(|x| x.subject.as_deref() == Some("flaky"))
        .unwrap();
    assert_eq!(flaky.level, Health::Degraded);
    assert!((f(flaky.actual) - 5.0).abs() < 1e-9, "reported as a percent");

    let broken = v
        .iter()
        .find(|x| x.subject.as_deref() == Some("broken"))
        .unwrap();
    assert_eq!(broken.level, Health::Unhealthy);
}

#[test]
fn the_latency_budget_is_off_until_asked_for() {
    let ops = [op("slow", None, Some(5_000_000))]; // 5 s
    let base = Inputs {
        system: None,
        process: None,
        disks: &[],
        memory_trend: None,
        ops: &ops,
    };
    assert!(
        evaluate(&Limits::default(), &base).is_empty(),
        "no budget set"
    );

    let limits = Limits {
        op_p99_ms: Some(d(100.0)),
        ..Default::default()
    };
    let v = evaluate(&limits, &base);
    assert_eq!(v.len(), 1);
    assert_eq!(v[0].rule, "op_slow");
    assert_eq!(v[0].subject.as_deref(), Some("slow"));
    assert_eq!(f(v[0].actual), 5000.0);
    assert_eq!(v[0].unit, "ms");
}

#[test]
fn the_default_limits_are_what_they_say() {
    let l = Limits::default();
    assert_eq!(f(l.cpu_pct), 85.0);
    assert_eq!(f(l.cpu_pct_critical), 95.0);
    assert_eq!(f(l.ram_used_pct), 90.0);
    assert_eq!(f(l.ram_used_pct_critical), 97.0);
    assert_eq!(f(l.disk_free_pct), 5.0);
    assert_eq!(f(l.disk_free_pct_critical), 1.0);
    assert_eq!(f(l.swap_used_pct), 25.0);
    assert_eq!(f(l.mem_growth_mib_per_hour), 20.0);
    assert_eq!(f(l.op_error_rate), 0.01);
    assert_eq!(f(l.op_error_rate_critical), 0.10);
    assert_eq!(l.op_p99_ms, None);
    assert_eq!(l.handles, None);
}

#[test]
fn a_value_on_the_line_has_not_crossed_it() {
    assert_eq!(rising(d(85.0), d(85.0), d(95.0)), None);
    assert_eq!(rising(d(85.5), d(85.0), d(95.0)), Some((Health::Degraded, d(85.0))));
    assert_eq!(rising(d(95.5), d(85.0), d(95.0)), Some((Health::Unhealthy, d(95.0))));
    assert_eq!(falling(d(5.0), d(5.0), d(1.0)), None);
    assert_eq!(falling(d(4.0), d(5.0), d(1.0)), Some((Health::Degraded, d(5.0))));
    assert_eq!(falling(d(0.5), d(5.0), d(1.0)), Some((Health::Unhealthy, d(1.0))));
    assert_eq!(rising(d(f64::NAN), d(85.0), d(95.0)), None);
}

#[test]
fn open_handles_are_judged_only_against_a_limit() {
    let p = ProcessMetrics {
        pid: 1,
        name: "p".into(),
        rss: 0,
        private_bytes: None,
        peak_rss: None,
        cpu_pct: Single { bits: 0 },
        cpu_time_ms: None,
        threads: None,
        handles: Some(1001),
        page_faults: None,
        uptime_secs: 0,
        disk_read: 0,
        disk_written: 0,
        disk_read_ops: None,
        disk_write_ops: None,
    };
    let base = Inputs {
        system: None,
        process: Some(&p),
        disks: &[],
        memory_trend: None,
        ops: &[],
    };
    assert!(evaluate(&Limits::default(), &base).is_empty());
    let limits = Limits {
        handles: Some(1000),
        ..Default::default()
    };
    let v = evaluate(&limits, &base);
    assert_eq!(v.len(), 1);
    assert_eq!((v[0].rule, v[0].unit), ("handle_leak", "handles"));
    assert_eq!((f(v[0].actual), f(v[0].threshold)), (1001.0, 1000.0));
    let limits = Limits {
        handles: Some(1001),
        ..Default::default()
    };
    assert!(evaluate(&limits, &base).is_empty(), "on the line is fine");
}

#[test]
fn findings_come_in_the_order_of_the_rules() {
    let s = sys(99.0, 99, 100, 99, 100);
    let disks = vec![DiskMetrics {
        name: "n".into(),
        mount: "/".into(),
        total: 1000,
        free: 1,
    }];
    let t = MemoryTrend {
        samples: 60,
        window_secs: 3600,
        floor: 0,
        peak: 0,
        slope_mib_per_hour: Some(d(21.0)),
    };
    let ops = [op("o", Some(0.5), None)];
    let v = evaluate(
        &Limits::default(),
        &Inputs {
            system: Some(&s),
            process: None,
            disks: &disks,
            memory_trend: Some(&t),
            ops: &ops,
        },
    );
    let rules: Vec<_> = v.iter().map(|x| x.rule).collect();
    assert_eq!(
        rules,
        ["cpu_high", "ram_pressure", "swap_in_use", "disk_low", "memory_growth", "op_errors"]
    );
    assert_eq!(v[3].level, Health::Unhealthy);
    assert_eq!(f(v[3].actual), 1.0 / 1000.0 * 100.0);
    assert_eq!(f(v[5].threshold), 0.10 * 100.0);
}
