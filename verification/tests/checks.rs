use clove4apm::checks::{disk_free, process_alive, run, Probed, TcpAction, TcpProbe};
use clove4apm::disk::{collect, DiskReading};
use clove4apm::float::single::Single;
use clove4apm::process::ProcessReading;
use clove4apm::{Check, Health};

fn disk(mount: &str, free: u64) -> DiskReading {
    DiskReading {
        name: format!("disk of {mount}"),
        mount: mount.into(),
        mount_len: mount.len(),
        total: 1_000,
        free,
    }
}

fn probed() -> Probed {
    Probed {
        status: Health::Healthy,
        message: None,
        elapsed_ms: 3,
    }
}

#[test]
fn disk_free_zero_requirement_is_healthy() {
    let disks = sysinfo::Disks::new_with_refreshed_list();
    let mut readings: Vec<DiskReading> = disks
        .iter()
        .map(|d| DiskReading {
            name: d.name().to_string_lossy().into_owned(),
            mount: d.mount_point().to_string_lossy().into_owned(),
            mount_len: d.mount_point().as_os_str().len(),
            total: d.total_space(),
            free: d.available_space(),
        })
        .collect();
    readings.push(disk("/", 17));
    let mount = readings
        .iter()
        .map(|d| d.mount.clone())
        .next()
        .expect("at least one disk");
    let c = Check::DiskFree {
        name: "t".into(),
        mount,
        min_free: 0,
    };
    let r = run(&c, &probed(), &vec![], &readings);
    assert_eq!(r.status, Health::Healthy);
}

#[test]
fn current_exe_is_alive() {
    let processes = vec![ProcessReading {
        pid: 99,
        name: "me.exe".into(),
        memory: 1,
        cpu_usage: Single { bits: 0 },
        tasks: None,
        start_time: 0,
        disk_read: 0,
        disk_written: 0,
    }];
    let c = Check::ProcessAlive {
        name: "t".into(),
        pattern: "me.exe".into(),
    };
    let r = run(&c, &probed(), &processes, &vec![]);
    assert_eq!(r.status, Health::Healthy);
    assert_eq!(r.message.as_deref(), Some("pid 99"));
    assert_eq!(
        process_alive(&processes, "ghost"),
        (Health::Unhealthy, Some("no process matches ghost".to_string()))
    );
}

#[test]
fn closed_port_is_unhealthy_not_a_hang() {
    let c = Check::Tcp {
        name: "t".into(),
        addr: "127.0.0.1:1".into(),
        timeout_ms: 200,
    };
    let (mut probe, action) = TcpProbe::start(Ok(1), 200);
    assert!(matches!(
        action,
        TcpAction::Connect {
            address: 0,
            timeout_ns: 200_000_000
        }
    ));
    let probed = match probe.step(Err("Connection refused (os error 111)".into()), 40_000) {
        TcpAction::Report(status, message) => Probed {
            status,
            message,
            elapsed_ms: 1,
        },
        TcpAction::Connect { .. } => panic!("no address is left"),
    };
    let r = run(&c, &probed, &vec![], &vec![]);
    assert_eq!(r.status, Health::Unhealthy);
    assert!(r.latency_ms < 5_000, "took {}ms", r.latency_ms);
    assert_eq!(r.message.as_deref(), Some("Connection refused (os error 111)"));
    assert_eq!(r.name, "t");
}

#[test]
fn a_check_goes_by_its_name() {
    let tcp = Check::Tcp {
        name: "db".into(),
        addr: "db:5432".into(),
        timeout_ms: 1,
    };
    let space = Check::DiskFree {
        name: "root".into(),
        mount: "/".into(),
        min_free: 1,
    };
    let alive = Check::ProcessAlive {
        name: "worker".into(),
        pattern: "w*".into(),
    };
    assert_eq!((tcp.name(), space.name(), alive.name()), ("db", "root", "worker"));
}

#[test]
fn the_longest_mount_point_decides() {
    let disks = vec![disk("/", 100), disk("/data", 5), disk("/dat", 900), disk("/other", 1)];
    assert_eq!(disk_free(&disks, "/data/x", 5), (Health::Healthy, None));
    assert_eq!(
        disk_free(&disks, "/data/x", 6),
        (Health::Unhealthy, Some("5 free on /data, need 6".to_string()))
    );
    assert_eq!(disk_free(&disks, "/srv", 100), (Health::Healthy, None));
    let windows = vec![disk("C:\\", 10)];
    assert_eq!(disk_free(&windows, "C:\\data", 10), (Health::Healthy, None));
    assert_eq!(
        disk_free(&windows, "D:\\data", 0),
        (Health::Degraded, Some("no mount matches D:\\data".to_string()))
    );
    // Of two that are as long, the later one counts.
    let twice = vec![disk("/a", 1), disk("/a", 2)];
    assert_eq!(disk_free(&twice, "/a", 2), (Health::Healthy, None));
}

#[test]
fn one_address_that_answers_is_enough() {
    let (mut probe, action) = TcpProbe::start(Ok(3), 1);
    assert!(matches!(action, TcpAction::Connect { address: 0, .. }));
    assert!(matches!(
        probe.step(Err("refused".into()), 999_999),
        TcpAction::Connect {
            address: 1,
            timeout_ns: 1
        }
    ));
    assert!(matches!(
        probe.step(Ok(()), 1),
        TcpAction::Report(Health::Healthy, None)
    ));
}

#[test]
fn the_last_error_is_the_one_reported() {
    let (mut probe, _) = TcpProbe::start(Ok(2), 10);
    assert!(matches!(
        probe.step(Err("first".into()), 0),
        TcpAction::Connect { address: 1, .. }
    ));
    match probe.step(Err("second".into()), 0) {
        TcpAction::Report(h, m) => assert_eq!((h, m.as_deref()), (Health::Unhealthy, Some("second"))),
        TcpAction::Connect { .. } => panic!("no address is left"),
    }
}

#[test]
fn all_attempts_share_one_timeout() {
    // Five addresses that swallow every packet: the first uses the time up.
    let (mut probe, _) = TcpProbe::start(Ok(5), 200);
    match probe.step(Err("timed out".into()), 200_000_000) {
        TcpAction::Report(h, m) => assert_eq!((h, m.as_deref()), (Health::Unhealthy, Some("timed out"))),
        TcpAction::Connect { .. } => panic!("no time is left"),
    }
    // What one leaves, the next one gets; an overrun leaves nothing.
    let (mut probe, _) = TcpProbe::start(Ok(5), 200);
    match probe.step(Err("slow".into()), 150_000_000) {
        TcpAction::Connect { address, timeout_ns } => assert_eq!((address, timeout_ns), (1, 50_000_000)),
        TcpAction::Report(..) => panic!("there is time left"),
    }
    match probe.step(Err("slower".into()), 60_000_000) {
        TcpAction::Report(h, m) => assert_eq!((h, m.as_deref()), (Health::Unhealthy, Some("slower"))),
        TcpAction::Connect { .. } => panic!("no time is left"),
    }
    // The first address is tried whatever the time.
    assert!(matches!(
        TcpProbe::start(Ok(1), 0).1,
        TcpAction::Connect {
            address: 0,
            timeout_ns: 0
        }
    ));
}

#[test]
fn a_mount_point_covers_whole_names_only() {
    let disks = vec![disk("/data", 0), disk("/", 10)];
    assert_eq!(disk_free(&disks, "/database", 1), (Health::Healthy, None));
    assert_eq!(disk_free(&disks, "/data", 0), (Health::Healthy, None));
    assert_eq!(
        disk_free(&disks, "/data/base", 1),
        (Health::Unhealthy, Some("0 free on /data, need 1".to_string()))
    );
    // A backslash is part of a name where paths start with a slash.
    assert_eq!(disk_free(&disks, "/data\\base", 10), (Health::Healthy, None));
    let windows = vec![disk("C:\\", 10), disk("C:\\mnt", 3)];
    assert_eq!(disk_free(&windows, "C:\\mnt\\x", 4).0, Health::Unhealthy);
    assert_eq!(disk_free(&windows, "C:\\mnt2", 4), (Health::Healthy, None));
    assert_eq!(
        disk_free(&vec![disk("/srv", 9)], "/srv2", 1),
        (Health::Degraded, Some("no mount matches /srv2".to_string()))
    );
}

#[test]
fn a_name_that_resolves_to_nothing_is_unhealthy() {
    match TcpProbe::start(Err("unknown host".into()), 10).1 {
        TcpAction::Report(h, m) => {
            assert_eq!((h, m.as_deref()), (Health::Unhealthy, Some("resolve: unknown host")))
        }
        TcpAction::Connect { .. } => panic!("nothing to connect to"),
    }
    match TcpProbe::start(Ok(0), 10).1 {
        TcpAction::Report(h, m) => assert_eq!((h, m), (Health::Unhealthy, None)),
        TcpAction::Connect { .. } => panic!("nothing to connect to"),
    }
}

#[test]
fn disks_are_listed_as_they_were_read() {
    let all = collect(&vec![disk("/", 7), disk("/data", 250)]);
    assert_eq!(all.len(), 2);
    assert_eq!((all[1].mount.as_str(), all[1].total, all[1].free), ("/data", 1_000, 250));
    assert_eq!(all[1].name, "disk of /data");
    assert_eq!(all[1].free_pct().map(|p| f64::from_bits(p.bits)), Some(25.0));
    let mut none = all[0].clone();
    none.total = 0;
    assert_eq!(none.free_pct(), None);
}
