use clove4apm::float::single::Single;
use clove4apm::process::ProcessReading;
use clove4apm::watch::{scan, Seen};
use clove4apm::WatchEvent;

fn process(pid: u32, name: &str) -> ProcessReading {
    ProcessReading {
        pid,
        name: name.into(),
        memory: 1,
        cpu_usage: Single { bits: 0 },
        tasks: None,
        start_time: 0,
        disk_read: 0,
        disk_written: 0,
    }
}

#[test]
fn events_found_steady_gone() {
    let processes = vec![process(77, "me.exe"), process(78, "other")];
    let mut prev = Vec::new();
    let pats = vec!["me.exe".to_string()];

    let r = scan(&pats, &processes, 0, &mut prev);
    assert_eq!(r[0].event, Some(WatchEvent::Found));
    assert_eq!(r[0].metrics.as_ref().map(|m| m.pid), Some(77));

    let r = scan(&pats, &processes, 0, &mut prev);
    assert_eq!(r[0].event, None, "steady state has no event");

    // A fresh pattern that matches nothing is not an event...
    let pats = vec!["definitely-not-running-xyz.exe".to_string()];
    let r = scan(&pats, &processes, 0, &mut prev);
    assert_eq!(r[0].event, None);
    // ...but a pattern that was seen and now matches nothing is `Gone`.
    let mut prev2 = vec![Seen {
        pattern: pats[0].clone(),
        pid: Some(123u32),
        matched: true,
    }];
    let r = scan(&pats, &processes, 0, &mut prev2);
    assert_eq!(r[0].event, Some(WatchEvent::Gone));
    // Once reported, it stays quiet.
    let r = scan(&pats, &processes, 0, &mut prev2);
    assert_eq!(r[0].event, None);
}

#[test]
fn a_restart_names_the_pid_that_went_away() {
    let pats = vec!["me*".to_string()];
    let mut prev = Vec::new();
    scan(&pats, &vec![process(5, "me")], 0, &mut prev);
    let r = scan(&pats, &vec![process(6, "me")], 0, &mut prev);
    assert_eq!(r[0].event, Some(WatchEvent::Switched { old_pid: 5 }));
    let r = scan(&pats, &vec![process(6, "me")], 0, &mut prev);
    assert_eq!(r[0].event, None);
}

#[test]
fn a_return_is_not_found_again() {
    let pats = vec!["me".to_string()];
    let mut prev = Vec::new();
    let there = vec![process(5, "me")];
    let away = vec![];
    let events: Vec<_> = [&away, &there, &away, &there, &away, &there]
        .into_iter()
        .map(|p| scan(&pats, p, 0, &mut prev)[0].event)
        .collect();
    assert_eq!(
        events,
        [
            None,
            Some(WatchEvent::Found),
            Some(WatchEvent::Gone),
            None,
            Some(WatchEvent::Gone),
            None
        ]
    );
}

#[test]
fn a_pattern_listed_twice_is_found_once() {
    let pats = vec!["me".to_string(), "me".to_string(), "you".to_string()];
    let mut prev = Vec::new();
    let r = scan(&pats, &vec![process(5, "me")], 0, &mut prev);
    let events: Vec<_> = r.iter().map(|w| w.event).collect();
    assert_eq!(events, [Some(WatchEvent::Found), None, None]);
    assert_eq!(prev.len(), 2, "each pattern is remembered once");
}
