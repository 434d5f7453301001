use clove4apm::float::single::Single;
use clove4apm::process::{
    base_metrics, find, fits_pattern, linux, mem_counters, memory_probe_available, native, self_metrics,
    top_by_rss, unsupported, windows, ProcessReading, Source,
};

fn process(pid: u32, name: &str, memory: u64) -> ProcessReading {
    ProcessReading {
        pid,
        name: name.into(),
        memory,
        cpu_usage: Single { bits: 1.5f32.to_bits() },
        tasks: None,
        start_time: 1_000,
        disk_read: 11,
        disk_written: 22,
    }
}

/// `/proc` of a small process, as Linux prints it.
fn live() -> linux::Raw {
    linux::Raw {
        status: Some(
            "Name:\tserver\nUmask:\t0022\nState:\tR (running)\nVmPeak:\t    9000 kB\nVmSize:\t    8800 kB\n\
             VmHWM:\t    5120 kB\nVmRSS:\t    4096 kB\nRssAnon:\t    1024 kB\nRssFile:\t    3000 kB\n\
             RssShmem:\t       0 kB\nThreads:\t7\nvoluntary_ctxt_switches:\t3\n"
                .into(),
        ),
        stat: Some(
            "4242 (my server) x) S 1 4242 4242 0 -1 4194304 321 0 5 0 120 34 0 0 20 0 7 0 55 9011200 1024 \
             18446744073709551615\n"
                .into(),
        ),
        io: Some(
            "rchar: 3000\nwchar: 200\nsyscr: 17\nsyscw: 9\nread_bytes: 40960\nwrite_bytes: 8192\n\
             cancelled_write_bytes: 0\n"
                .into(),
        ),
        descriptors: Some(12),
    }
}

#[test]
fn process_pattern_matching() {
    assert!(clove4apm::process::matches("server-abc.exe", "server-*.exe"));
    assert!(clove4apm::process::matches("SERVER-ABC.EXE", "server-*.exe"));
    assert!(!clove4apm::process::matches("myserver-x.exe", "server-*.exe"));
    assert!(clove4apm::process::matches("explorer.exe", "explorer.exe"));
    assert!(!clove4apm::process::matches("explorer.exe", "other.exe"));
    assert!(clove4apm::process::matches("anything", "*"));
    assert!(!clove4apm::process::matches("server-.exe", "server-*x.exe"));
}

#[test]
fn watch_pattern_matching() {
    assert!(clove4apm::process::matches("server-abc.exe", "server-*.exe"));
    assert!(clove4apm::process::matches("SERVER-ABC.EXE", "server-*.exe"));
    assert!(!clove4apm::process::matches("myserver-x.exe", "server-*.exe"));
    assert!(clove4apm::process::matches("explorer.exe", "explorer.exe"));
    assert!(!clove4apm::process::matches("explorer.exe", "other.exe"));
    assert!(clove4apm::process::matches("anything", "*"));
    assert!(!clove4apm::process::matches("server-.exe", "server-*x.exe"));
}

#[test]
fn prefix_and_suffix_of_a_pattern_do_not_overlap() {
    assert!(!clove4apm::process::matches("aba", "ab*ba"));
    assert!(clove4apm::process::matches("abba", "ab*ba"));
    assert!(clove4apm::process::matches("", "*"));
    assert!(!clove4apm::process::matches("", "a*"));
    // Only the first wildcard is one.
    assert!(clove4apm::process::matches("a-x*c", "a-*x*c"));
    assert!(!clove4apm::process::matches("a-xyc", "a-*x*c"));
    assert!(clove4apm::process::matches("GRÖSSE.exe", "größe*") == false);
    assert!(clove4apm::process::matches("GRÖẞE.exe", "größe*"));
}

#[test]
fn without_folding_the_case_counts() {
    assert!(fits_pattern("server-1", "server-*"));
    assert!(!fits_pattern("SERVER-1", "server-*"));
    assert!(fits_pattern("x", "x"));
    assert!(!fits_pattern("x", "xy"));
}

#[test]
fn native_counters_are_self_consistent() {
    for source in [Source::Linux(live()), Source::Other] {
        let (rss, private, peak) = mem_counters(&source);
        if rss == 0 {
            // Unsupported platform: it must claim nothing rather than zero.
            assert_eq!(private, 0);
            assert_eq!(peak, 0);
            continue;
        }
        assert!(peak >= rss, "peak {peak} below current {rss}");
        assert!(private > 0);
    }
}

#[test]
fn leak_signals_are_available_on_supported_platforms() {
    let raw = live();
    assert!(linux::page_faults(&raw).is_some(), "page faults");
    assert!(linux::handle_count(&raw).is_some(), "handles");
    assert!(linux::cpu_time_ms(&raw).is_some(), "cpu time");
    let n = native(&Source::Linux(raw));
    assert!(n.page_faults.is_some(), "page faults");
    assert!(n.handles.is_some(), "handles");
    assert!(n.cpu_time_ms.is_some(), "cpu time");
}

#[test]
fn proc_files_are_read_field_by_field() {
    let raw = live();
    assert_eq!(
        linux::mem_counters(&raw),
        (4096 * 1024, (4096 - 3000) * 1024, 5120 * 1024)
    );
    assert_eq!(linux::page_faults(&raw), Some(321 + 5));
    assert_eq!(linux::cpu_time_ms(&raw), Some((120 + 34) * 10));
    assert_eq!(linux::thread_count(&raw), Some(7));
    assert_eq!(linux::handle_count(&raw), Some(12));
    assert_eq!(linux::io_counters(&raw), Some((40960, 8192, 17, 9)));
    assert!(memory_probe_available(&Source::Linux(raw)));
}

#[test]
fn unreadable_proc_files_measure_nothing() {
    let raw = linux::Raw {
        status: None,
        stat: None,
        io: None,
        descriptors: None,
    };
    assert_eq!(linux::mem_counters(&raw), (0, 0, 0));
    assert_eq!(linux::page_faults(&raw), None);
    assert_eq!(linux::cpu_time_ms(&raw), None);
    assert_eq!(linux::thread_count(&raw), None);
    assert_eq!(linux::handle_count(&raw), None);
    assert_eq!(linux::io_counters(&raw), None);
    assert!(!memory_probe_available(&Source::Linux(raw)));
    assert!(!memory_probe_available(&Source::Other));
}

#[test]
fn odd_proc_files_are_read_like_the_format_says() {
    let field = |s: &str, k: &str| linux::status_field(&Some(s.to_string()), k);
    assert_eq!(field("VmRSS:\t12 kB\r\n", "VmRSS"), Some(12 * 1024));
    assert_eq!(field("VmRSS::: 12", "VmRSS"), Some(12));
    assert_eq!(field("VmRSS: 12 MB", "VmRSS"), Some(12));
    assert_eq!(field("VmRSS: x\nVmRSS: 12", "VmRSS"), None, "the first line decides");
    assert_eq!(field("VmRSS: +12", "VmRSS"), None, "digits only");
    assert_eq!(field("VmRSS: 18446744073709551615", "VmRSS"), Some(u64::MAX));
    assert_eq!(field("VmRSS: 18446744073709551616", "VmRSS"), None);
    assert_eq!(field("VmRSS: 18446744073709551615 kB", "VmRSS"), None);
    assert_eq!(field("", "VmRSS"), None);
    assert_eq!(field("xVmRSS: 1", "VmRSS"), None);
    assert_eq!(field("VmRSS:\u{2003}5\u{a0}", "VmRSS"), Some(5), "any white space");

    let io = |s: &str| {
        linux::io_counters(&linux::Raw {
            io: Some(s.to_string()),
            ..live()
        })
    };
    assert_eq!(
        io("read_bytes: x\nread_bytes: +1\nwrite_bytes: 2\nsyscr: 3\nsyscw: 0"),
        Some((1, 2, 3, 0)),
        "the first line that gives a number"
    );
    assert_eq!(io("write_bytes: 2\nsyscr: 3\nsyscw: 4"), None);
    assert_eq!(io("read_bytes: 1\nwrite_bytes: 2"), None, "operations that nobody counted are not zero");
    assert_eq!(io("read_bytes: 1\nwrite_bytes: 2\nsyscr: 3"), None);
    assert_eq!(io("read_bytes: 1\nwrite_bytes: 2\nsyscw: 3"), None);

    let stat = |s: &str| {
        linux::page_faults(&linux::Raw {
            stat: Some(s.to_string()),
            ..live()
        })
    };
    assert_eq!(stat("1 (a) S 1 2 3 4 5 6 10 8 20"), Some(30));
    assert_eq!(stat("1 (a) b) S 1 2 3 4 5 6 10 8 20"), Some(30));
    assert_eq!(stat("1 (a)S 1 2 3 4 5 6 10 8 20"), None);
    assert_eq!(stat("1 (a) S 1 2 3 4 5 6 10 8"), None);
    assert_eq!(stat("1 (a) S 1 2 3 4 5 6 18446744073709551615 8 1"), None);
}

#[test]
fn windows_counters_are_read_at_their_offsets() {
    let mut buf = [0u8; 80];
    buf[0..4].copy_from_slice(&80u32.to_le_bytes());
    buf[4..8].copy_from_slice(&0xdead_beefu32.to_le_bytes());
    buf[8..16].copy_from_slice(&3_000_000u64.to_le_bytes());
    buf[16..24].copy_from_slice(&0x0102_0304_0506_0708u64.to_le_bytes());
    buf[72..80].copy_from_slice(&u64::MAX.to_le_bytes());
    let raw = windows::Raw {
        memory_info: Some(buf),
        handles: Some(321),
        io: Some((1, 2, 3, 4)),
        times: Some(((1, 5), (0, 20_000))),
    };
    assert_eq!(windows::mem_counters(&raw), (0x0102_0304_0506_0708, u64::MAX, 3_000_000));
    assert_eq!(windows::page_faults(&raw), Some(0xdead_beef));
    assert_eq!(windows::handle_count(&raw), Some(321));
    assert_eq!(windows::io_counters(&raw), Some((1, 2, 3, 4)));
    assert_eq!(windows::cpu_time_ms(&raw), Some(((1u64 << 32) + 5 + 20_000) / 10_000));
    assert_eq!(windows::thread_count(&raw), None);

    let failed = windows::Raw {
        memory_info: None,
        handles: None,
        io: None,
        times: Some(((u32::MAX, 0), (u32::MAX, 0))),
    };
    assert_eq!(windows::mem_counters(&failed), (0, 0, 0));
    assert_eq!(windows::page_faults(&failed), None);
    assert_eq!(windows::cpu_time_ms(&failed), None);
    assert!(!memory_probe_available(&Source::Windows(failed)));
}

#[test]
fn memory_without_a_working_set_was_not_measured() {
    let raw = linux::Raw {
        status: Some("VmHWM: 5120 kB\nRssFile: 10 kB\n".into()),
        ..live()
    };
    assert_eq!(linux::mem_counters(&raw), (0, 0, 0));
    let raw = linux::Raw {
        status: Some("VmHWM: 5120 kB\nVmRSS: 0 kB\n".into()),
        ..live()
    };
    assert_eq!(linux::mem_counters(&raw), (0, 0, 0));
    assert!(!memory_probe_available(&Source::Linux(raw)));
    let mut buf = [0u8; 80];
    buf[8..16].copy_from_slice(&3_000_000u64.to_le_bytes());
    buf[72..80].copy_from_slice(&7u64.to_le_bytes());
    let raw = windows::Raw {
        memory_info: Some(buf),
        handles: None,
        io: None,
        times: None,
    };
    assert_eq!(windows::mem_counters(&raw), (0, 0, 0));
}

#[test]
fn a_peak_that_was_not_measured_is_none() {
    let raw = linux::Raw {
        status: Some("VmRSS: 4096 kB\n".into()),
        ..live()
    };
    assert_eq!(linux::mem_counters(&raw), (4096 * 1024, 4096 * 1024, 0));
    let m = self_metrics(&vec![process(3, "me", 1)], 3, &Source::Linux(raw), 0).expect("listed");
    assert_eq!((m.rss, m.private_bytes, m.peak_rss), (4096 * 1024, Some(4096 * 1024), None));
}

#[test]
fn an_unsupported_platform_measures_nothing() {
    assert_eq!(unsupported::mem_counters(), (0, 0, 0));
    assert_eq!(unsupported::page_faults(), None);
    assert_eq!(unsupported::handle_count(), None);
    assert_eq!(unsupported::io_counters(), None);
    assert_eq!(unsupported::cpu_time_ms(), None);
    assert_eq!(unsupported::thread_count(), None);
}

#[test]
fn top_by_rss_is_sorted_and_bounded() {
    let mut sys = sysinfo::System::new();
    sys.refresh_processes(sysinfo::ProcessesToUpdate::All, true);
    let mut processes: Vec<ProcessReading> = sys
        .processes()
        .values()
        .map(|p| process(p.pid().as_u32(), &p.name().to_string_lossy(), p.memory()))
        .collect();
    for (i, m) in [5u64, 900, 20, 900, 1].into_iter().enumerate() {
        processes.push(process(i as u32, "synthetic", m));
    }
    assert!(top_by_rss(&processes, 0, 0).is_empty(), "zero means off");
    let top = top_by_rss(&processes, 5, 0);
    assert!(top.len() <= 5);
    for w in top.windows(2) {
        assert!(w[0].rss >= w[1].rss, "not sorted by rss");
    }
}

#[test]
fn the_heaviest_are_listed_in_order() {
    let all: Vec<ProcessReading> = [5u64, 900, 20, 900, 1]
        .into_iter()
        .enumerate()
        .map(|(i, m)| process(i as u32, "p", m))
        .collect();
    let pids: Vec<u32> = top_by_rss(&all, 3, 0).iter().map(|p| p.pid).collect();
    assert_eq!(pids, [1, 3, 2]);
    assert!(all.iter().all(|p| pids.contains(&p.pid) || p.memory <= 20), "none left out is heavier");
    assert_eq!(top_by_rss(&all, 99, 0).len(), 5);
}

#[test]
fn the_heaviest_match_is_found() {
    let all = vec![
        process(1, "other.exe", 9_999),
        process(2, "Server-a.exe", 10),
        process(3, "server-b.exe", 30),
        process(4, "SERVER-c.exe", 30),
        process(5, "server-d.exe", 20),
    ];
    assert_eq!(find(&all, "server-*.exe", 0).map(|m| m.pid), Some(4));
    assert_eq!(find(&all, "server-a.exe", 0).map(|m| m.pid), Some(2));
    assert!(find(&all, "ghost", 0).is_none());
}

#[test]
fn a_listed_process_claims_only_what_the_list_knows() {
    let mut p = process(7, "p", 4096);
    p.tasks = Some(3);
    let m = base_metrics(&p, 1_060);
    assert_eq!((m.pid, m.name.as_str(), m.rss), (7, "p", 4096));
    assert_eq!(m.uptime_secs, 60);
    assert_eq!(m.threads, Some(3));
    assert_eq!((m.disk_read, m.disk_written), (11, 22));
    assert_eq!(m.private_bytes, None);
    assert_eq!(m.handles, None);
    assert_eq!(base_metrics(&p, 10).uptime_secs, 0, "a clock set back is not an underflow");
}

#[test]
fn this_process_is_enriched_with_native_counters() {
    let all = vec![process(1, "init", 5), process(42, "me", 100)];
    let m = self_metrics(&all, 42, &Source::Linux(live()), 2_000).expect("listed");
    assert_eq!(m.rss, 4096 * 1024);
    assert_eq!(m.private_bytes, Some(1096 * 1024));
    assert_eq!(m.peak_rss, Some(5120 * 1024));
    assert_eq!((m.disk_read, m.disk_written), (40960, 8192));
    assert_eq!((m.disk_read_ops, m.disk_write_ops), (Some(17), Some(9)));
    assert_eq!(m.threads, Some(7), "tasks were not listed");
    assert_eq!(m.trimmed_bytes(), Some(0));

    let m = self_metrics(&all, 42, &Source::Other, 2_000).expect("listed");
    assert_eq!(m.rss, 100, "the list's own number stands");
    assert_eq!(m.private_bytes, None);
    assert_eq!(m.peak_rss, None);
    assert_eq!(m.trimmed_bytes(), None);
    assert!(self_metrics(&all, 43, &Source::Other, 2_000).is_none());
}
