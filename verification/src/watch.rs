//! Watch processes by name pattern (`server-*.exe`). `Gone` and `Switched` are
//! events in their own right — a restart or a death is exactly what a watcher
//! exists to notice.

use crate::process;
use crate::process::{find, ProcessReading};
use crate::report::{ProcessMetrics, WatchEvent, WatchedProcess};
use crate::rows;
use crate::rows::{find_named, Named, Row};
use crate::text::same;
use vstd::prelude::*;

verus! {

/// What is remembered of a pattern.
#[derive(Debug, Clone)]
pub struct Seen {
    pub pattern: String,
    /// The process that it matched last time, if any.
    pub pid: Option<u32>,
    /// Whether it ever matched.
    pub matched: bool,
}

/// What is remembered under the name of a pattern.
pub struct Trace {
    pub pid: Option<u32>,
    pub matched: bool,
}

impl Named for Seen {
    open spec fn title(&self) -> Seq<char> {
        self.pattern@
    }

    fn is_called(&self, name: &str) -> bool {
        same(self.pattern.as_str(), name)
    }
}

impl Row for Seen {
    type Value = Trace;

    open spec fn value(&self) -> Trace {
        Trace { pid: self.pid, matched: self.matched }
    }
}

/// What is remembered of each pattern.
pub open spec fn memory(seen: Seq<Seen>) -> Map<Seq<char>, Trace> {
    rows::table(seen)
}

/// What is remembered of a pattern; nothing of one never looked for.
pub open spec fn trace_of(m: Map<Seq<char>, Trace>, pattern: Seq<char>) -> Trace {
    if m.dom().contains(pattern) {
        m[pattern]
    } else {
        Trace { pid: None, matched: false }
    }
}

/// What it means that a pattern with this memory now matches `new`.
pub open spec fn event_after(old: Trace, new: Option<u32>) -> Option<WatchEvent> {
    match (old.pid, new) {
        (None, Some(_)) => if old.matched {
            None
        } else {
            Some(WatchEvent::Found)
        },
        (Some(o), Some(n)) => if o != n {
            Some(WatchEvent::Switched { old_pid: o })
        } else {
            None
        },
        (Some(_), None) => Some(WatchEvent::Gone),
        (None, None) => None,
    }
}

/// What is remembered of a pattern that now matches `new`.
pub open spec fn retraced(old: Trace, new: Option<u32>) -> Trace {
    Trace { pid: new, matched: old.matched || old.pid is Some || new is Some }
}

pub open spec fn pid_of(m: Option<ProcessMetrics>) -> Option<u32> {
    match m {
        Some(m) => Some(m.pid),
        None => None,
    }
}

/// What is remembered after the first `n` results.
pub open spec fn memory_after(
    m: Map<Seq<char>, Trace>,
    r: Seq<WatchedProcess>,
    n: int,
) -> Map<Seq<char>, Trace>
    decreases n,
{
    if n <= 0 {
        m
    } else {
        let before = memory_after(m, r, n - 1);
        let p = r[n - 1].pattern@;
        before.insert(p, retraced(trace_of(before, p), pid_of(r[n - 1].metrics)))
    }
}

/// `r` is what a scan finds that remembers `m`.
pub open spec fn found(
    patterns: Seq<String>,
    processes: Seq<ProcessReading>,
    now: u64,
    m: Map<Seq<char>, Trace>,
    r: Seq<WatchedProcess>,
) -> bool {
    &&& r.len() == patterns.len()
    &&& forall|i: int|
        0 <= i < r.len() ==> {
            &&& (#[trigger] r[i]).pattern == patterns[i]
            &&& process::is_heaviest(processes, patterns[i]@, now, r[i].metrics)
            &&& r[i].event == event_after(
                trace_of(memory_after(m, r, i), patterns[i]@),
                pid_of(r[i].metrics),
            )
        }
}

fn event(pid: Option<u32>, matched: bool, new: Option<u32>) -> (r: Option<WatchEvent>)
    ensures
        r == event_after(Trace { pid, matched }, new),
{
    match (pid, new) {
        (None, Some(_)) => if matched {
            None
        } else {
            Some(WatchEvent::Found)
        },
        (Some(o), Some(n)) => if o != n {
            Some(WatchEvent::Switched { old_pid: o })
        } else {
            None
        },
        (Some(_), None) => Some(WatchEvent::Gone),
        (None, None) => None,
    }
}

/// Remembers what a pattern matches, and says what happened to it.
fn remember(prev: &mut Vec<Seen>, pattern: &String, pid: Option<u32>) -> (r: Option<WatchEvent>)
    requires
        rows::distinct(old(prev)@),
    ensures
        rows::distinct(final(prev)@),
        r == event_after(trace_of(memory(old(prev)@), pattern@), pid),
        memory(final(prev)@) == memory(old(prev)@).insert(
            pattern@,
            retraced(trace_of(memory(old(prev)@), pattern@), pid),
        ),
{
    let ghost was = prev@;
    match find_named(prev, pattern.as_str()) {
        Some(i) => {
            let (before, ever): (Option<u32>, bool) = (prev[i].pid, prev[i].matched);
            let matched: bool = ever || before.is_some() || pid.is_some();
            let row = Seen { pattern: pattern.clone(), pid, matched };
            proof {
                rows::lemma_table_at(was, i as int);
                rows::lemma_table_update(was, i as int, row);
            }
            prev.set(i, row);
            event(before, ever, pid)
        },
        None => {
            let row = Seen { pattern: pattern.clone(), pid, matched: pid.is_some() };
            proof {
                rows::lemma_table_push(was, row);
            }
            prev.push(row);
            event(None, false, pid)
        },
    }
}

/// `prev` remembers each pattern, kept between snapshots.
pub fn scan(
    patterns: &Vec<String>,
    processes: &Vec<ProcessReading>,
    now: u64,
    prev: &mut Vec<Seen>,
) -> (r: Vec<WatchedProcess>)
    requires
        rows::distinct(old(prev)@),
    ensures
        rows::distinct(final(prev)@),
        found(patterns@, processes@, now, memory(old(prev)@), r@),
        memory(final(prev)@) == memory_after(memory(old(prev)@), r@, r@.len() as int),
{
    let mut r: Vec<WatchedProcess> = Vec::new();
    let mut i: usize = 0;
    let ghost m = memory(prev@);
    while i < patterns.len()
        invariant
            i <= patterns@.len(),
            r@.len() == i,
            rows::distinct(prev@),
            found(patterns@.take(i as int), processes@, now, m, r@),
            memory(prev@) == memory_after(m, r@, i as int),
        decreases patterns@.len() - i,
    {
        let pattern: &String = &patterns[i];
        let metrics: Option<ProcessMetrics> = find(processes, pattern.as_str(), now);
        let pid: Option<u32> = match &metrics {
            Some(m) => Some(m.pid),
            None => None,
        };
        let event: Option<WatchEvent> = remember(prev, pattern, pid);
        let ghost was = r@;
        r.push(WatchedProcess { pattern: pattern.clone(), metrics, event });
        proof {
            lemma_memory_of_prefix(m, was, r@, i as int);
            assert forall|j: int| 0 <= j < r@.len() implies {
                &&& (#[trigger] r@[j]).pattern == patterns@.take(i + 1)[j]
                &&& process::is_heaviest(processes@, patterns@.take(i + 1)[j]@, now, r@[j].metrics)
                &&& r@[j].event == event_after(
                    trace_of(memory_after(m, r@, j), patterns@.take(i + 1)[j]@),
                    pid_of(r@[j].metrics),
                )
            } by {
                if j < i {
                    assert(was[j] == r@[j]);
                    assert(patterns@.take(i as int)[j] == patterns@.take(i + 1)[j]);
                    lemma_memory_of_prefix(m, was, r@, j);
                }
            }
        }
        i = i + 1;
    }
    assert(patterns@.take(i as int) =~= patterns@);
    r
}

proof fn lemma_memory_of_prefix(
    m: Map<Seq<char>, Trace>,
    a: Seq<WatchedProcess>,
    b: Seq<WatchedProcess>,
    n: int,
)
    requires
        0 <= n <= a.len() <= b.len(),
        forall|i: int| 0 <= i < a.len() ==> #[trigger] a[i] == b[i],
    ensures
        memory_after(m, a, n) == memory_after(m, b, n),
    decreases n,
{
    if n > 0 {
        lemma_memory_of_prefix(m, a, b, n - 1);
        assert(a[n - 1] == b[n - 1]);
    }
}

/// What a pattern matches is settled by the process list.
proof fn lemma_one_heaviest(
    processes: Seq<ProcessReading>,
    pattern: Seq<char>,
    now: u64,
    a: Option<ProcessMetrics>,
    b: Option<ProcessMetrics>,
)
    requires
        process::is_heaviest(processes, pattern, now, a),
        process::is_heaviest(processes, pattern, now, b),
    ensures
        a == b,
{
    match (a, b) {
        (Some(x), Some(y)) => {
            let i = choose|i: int|
                #![trigger processes[i]]
                0 <= i < processes.len() && process::hit(processes[i], pattern) && x
                    == process::listed(processes[i], now) && (forall|j: int|
                    0 <= j < processes.len() && process::hit(#[trigger] processes[j], pattern)
                        ==> processes[j].memory <= processes[i].memory && (j > i
                        ==> processes[j].memory < processes[i].memory));
            let k = choose|i: int|
                #![trigger processes[i]]
                0 <= i < processes.len() && process::hit(processes[i], pattern) && y
                    == process::listed(processes[i], now) && (forall|j: int|
                    0 <= j < processes.len() && process::hit(#[trigger] processes[j], pattern)
                        ==> processes[j].memory <= processes[i].memory && (j > i
                        ==> processes[j].memory < processes[i].memory));
            assert(processes[i].memory == processes[k].memory);
            assert(i == k);
        },
        _ => {},
    }
}

/// What is remembered of a pattern settles on what it matches.
proof fn lemma_memory_is_current(
    patterns: Seq<String>,
    processes: Seq<ProcessReading>,
    now: u64,
    m: Map<Seq<char>, Trace>,
    m0: Map<Seq<char>, Trace>,
    r: Seq<WatchedProcess>,
    n: int,
    p: Seq<char>,
    x: Option<ProcessMetrics>,
)
    requires
        found(patterns, processes, now, m0, r),
        0 <= n <= r.len(),
        process::is_heaviest(processes, p, now, x),
        trace_of(m, p).pid == pid_of(x),
        x is Some ==> trace_of(m, p).matched,
    ensures
        trace_of(memory_after(m, r, n), p).pid == pid_of(x),
        x is Some ==> trace_of(memory_after(m, r, n), p).matched,
    decreases n,
{
    if n > 0 {
        lemma_memory_is_current(patterns, processes, now, m, m0, r, n - 1, p, x);
        assert(r[n - 1].pattern == patterns[n - 1]);
        if patterns[n - 1]@ == p {
            lemma_one_heaviest(processes, p, now, r[n - 1].metrics, x);
        }
    }
}

proof fn lemma_memory_after_scan(
    patterns: Seq<String>,
    processes: Seq<ProcessReading>,
    now: u64,
    m: Map<Seq<char>, Trace>,
    r: Seq<WatchedProcess>,
    n: int,
    i: int,
)
    requires
        found(patterns, processes, now, m, r),
        0 <= i < n <= r.len(),
    ensures
        trace_of(memory_after(m, r, n), patterns[i]@).pid == pid_of(r[i].metrics),
        r[i].metrics is Some ==> trace_of(memory_after(m, r, n), patterns[i]@).matched,
    decreases n,
{
    let p = patterns[i]@;
    assert(r[n - 1].pattern == patterns[n - 1]);
    if i < n - 1 {
        lemma_memory_after_scan(patterns, processes, now, m, r, n - 1, i);
        if patterns[n - 1]@ == p {
            assert(r[i].pattern == patterns[i]);
            lemma_one_heaviest(processes, p, now, r[i].metrics, r[n - 1].metrics);
        }
    }
}

/// Steady state has no event: a second scan of an unchanged machine reports
/// nothing, whatever was remembered before the first.
pub proof fn a_steady_machine_raises_no_event(
    patterns: Seq<String>,
    processes: Seq<ProcessReading>,
    now: u64,
    m: Map<Seq<char>, Trace>,
    first: Seq<WatchedProcess>,
    second: Seq<WatchedProcess>,
)
    requires
        found(patterns, processes, now, m, first),
        found(patterns, processes, now, memory_after(m, first, first.len() as int), second),
    ensures
        forall|i: int| 0 <= i < second.len() ==> (#[trigger] second[i]).event is None,
{
    let m1 = memory_after(m, first, first.len() as int);
    assert forall|i: int| 0 <= i < second.len() implies (#[trigger] second[i]).event is None by {
        let p = patterns[i]@;
        assert(first[i].pattern == patterns[i]);
        lemma_one_heaviest(processes, p, now, first[i].metrics, second[i].metrics);
        lemma_memory_after_scan(patterns, processes, now, m, first, first.len() as int, i);
        lemma_memory_is_current(patterns, processes, now, m1, m1, second, i, p, first[i].metrics);
    }
}

/// Every change is an event: a pattern that was seen and now matches nothing is
/// `Gone`; one that matches another process was `Switched`; one that matches and
/// never did before is `Found`.
pub proof fn every_change_is_an_event(old: Trace, new: Option<u32>)
    ensures
        event_after(old, new) == Some(WatchEvent::Gone) <==> old.pid is Some && new is None,
        event_after(old, new) == Some(WatchEvent::Found) <==> old.pid is None && !old.matched
            && new is Some,
        (exists|o: u32| event_after(old, new) == Some(WatchEvent::Switched { old_pid: o }))
            <==> old.pid is Some && new is Some && old.pid != new,
        retraced(old, new).pid == new,
{
    if old.pid is Some && new is Some && old.pid != new {
        assert(event_after(old, new) == Some(WatchEvent::Switched { old_pid: old.pid->0 }));
    }
}

/// One scan, and what it reported.
pub struct Scan {
    pub patterns: Seq<String>,
    pub processes: Seq<ProcessReading>,
    pub now: u64,
    pub result: Seq<WatchedProcess>,
}

/// What is remembered after the first `n` scans, nothing before the first.
pub open spec fn memory_through(scans: Seq<Scan>, n: int) -> Map<Seq<char>, Trace>
    decreases n,
{
    if n <= 0 {
        Map::empty()
    } else {
        let r = scans[n - 1].result;
        memory_after(memory_through(scans, n - 1), r, r.len() as int)
    }
}

/// Each scan starts from what the one before it remembered.
pub open spec fn chained(scans: Seq<Scan>) -> bool {
    forall|i: int|
        0 <= i < scans.len() ==> found(
            (#[trigger] scans[i]).patterns,
            scans[i].processes,
            scans[i].now,
            memory_through(scans, i),
            scans[i].result,
        )
}

/// The pattern matched in one of the first `n` places of a scan.
pub open spec fn spotted(r: Seq<WatchedProcess>, n: int, pattern: Seq<char>) -> bool {
    exists|a: int|
        0 <= a < n && (#[trigger] r[a]).pattern@ == pattern && r[a].metrics is Some
}

/// The pattern matched in one of the first `n` scans.
pub open spec fn spotted_before(scans: Seq<Scan>, n: int, pattern: Seq<char>) -> bool {
    exists|i: int|
        0 <= i < n && spotted(
            (#[trigger] scans[i]).result,
            scans[i].result.len() as int,
            pattern,
        )
}

/// Within a scan, what is remembered as matched is what was before and what
/// matched since.
proof fn lemma_matched_in_scan(
    m: Map<Seq<char>, Trace>,
    r: Seq<WatchedProcess>,
    n: int,
    p: Seq<char>,
)
    requires
        0 <= n <= r.len(),
        trace_of(m, p).pid is Some ==> trace_of(m, p).matched,
    ensures
        ({
            let t = trace_of(memory_after(m, r, n), p);
            &&& t.matched <==> trace_of(m, p).matched || spotted(r, n, p)
            &&& t.pid is Some ==> t.matched
        }),
    decreases n,
{
    if n > 0 {
        lemma_matched_in_scan(m, r, n - 1, p);
        if spotted(r, n - 1, p) {
            let a = choose|a: int|
                0 <= a < n - 1 && (#[trigger] r[a]).pattern@ == p && r[a].metrics is Some;
            assert(r[a].pattern@ == p);
        }
        if spotted(r, n, p) {
            let a = choose|a: int|
                0 <= a < n && (#[trigger] r[a]).pattern@ == p && r[a].metrics is Some;
            if a < n - 1 {
                assert(r[a].pattern@ == p);
                assert(spotted(r, n - 1, p));
            }
        }
        if r[n - 1].pattern@ == p && r[n - 1].metrics is Some {
            assert(spotted(r, n, p));
        }
    }
}

proof fn lemma_matched_through(scans: Seq<Scan>, n: int, p: Seq<char>)
    requires
        0 <= n <= scans.len(),
    ensures
        ({
            let t = trace_of(memory_through(scans, n), p);
            &&& t.matched <==> spotted_before(scans, n, p)
            &&& t.pid is Some ==> t.matched
        }),
    decreases n,
{
    if n > 0 {
        lemma_matched_through(scans, n - 1, p);
        let r = scans[n - 1].result;
        lemma_matched_in_scan(memory_through(scans, n - 1), r, r.len() as int, p);
        if spotted_before(scans, n - 1, p) {
            let i = choose|i: int|
                0 <= i < n - 1 && spotted(
                    (#[trigger] scans[i]).result,
                    scans[i].result.len() as int,
                    p,
                );
            assert(spotted(scans[i].result, scans[i].result.len() as int, p));
        }
        if spotted_before(scans, n, p) {
            let i = choose|i: int|
                0 <= i < n && spotted(
                    (#[trigger] scans[i]).result,
                    scans[i].result.len() as int,
                    p,
                );
            if i < n - 1 {
                assert(spotted_before(scans, n - 1, p));
            }
        }
    }
}

/// `Found` comes once: a pattern is found exactly when it matches for the first
/// time, counting all scans so far and the places before it in this one. One that
/// went away and came back is not found again.
pub proof fn found_means_the_first_time(scans: Seq<Scan>, j: int, b: int)
    requires
        chained(scans),
        0 <= j < scans.len(),
        0 <= b < scans[j].result.len(),
    ensures
        ({
            let r = scans[j].result;
            let p = r[b].pattern@;
            r[b].event == Some(WatchEvent::Found) <==> r[b].metrics is Some && !spotted_before(
                scans,
                j,
                p,
            ) && !spotted(r, b, p)
        }),
{
    let r = scans[j].result;
    let p = r[b].pattern@;
    let m = memory_through(scans, j);
    lemma_matched_through(scans, j, p);
    lemma_matched_in_scan(m, r, b, p);
    assert(found(scans[j].patterns, scans[j].processes, scans[j].now, m, r));
    assert(r[b].pattern == scans[j].patterns[b]);
}

/// What is remembered of a pattern that was not scanned stays.
proof fn lemma_unscanned(m: Map<Seq<char>, Trace>, r: Seq<WatchedProcess>, n: int, p: Seq<char>)
    requires
        0 <= n <= r.len(),
        forall|a: int| 0 <= a < n ==> (#[trigger] r[a]).pattern@ != p,
    ensures
        trace_of(memory_after(m, r, n), p) == trace_of(m, p),
    decreases n,
{
    if n > 0 {
        lemma_unscanned(m, r, n - 1, p);
        assert(r[n - 1].pattern@ != p);
    }
}

/// Between two scans, a pattern that matched and now matches nothing is `Gone`,
/// one that matches another process is `Switched`, with the process that went
/// away, and one that matches the same process has no event.
pub proof fn events_compare_with_the_last_scan(scans: Seq<Scan>, j: int, a: int, b: int)
    requires
        chained(scans),
        0 < j < scans.len(),
        0 <= a < scans[j - 1].result.len(),
        0 <= b < scans[j].result.len(),
        scans[j - 1].result[a].pattern@ == scans[j].result[b].pattern@,
        forall|c: int|
            0 <= c < b ==> (#[trigger] scans[j].result[c]).pattern@
                != scans[j].result[b].pattern@,
    ensures
        ({
            let was = scans[j - 1].result[a].metrics;
            let now = scans[j].result[b].metrics;
            let event = scans[j].result[b].event;
            &&& event == Some(WatchEvent::Gone) <==> was is Some && now is None
            &&& event matches Some(WatchEvent::Switched { old_pid }) ==> was is Some && now is Some
                && was->0.pid == old_pid && now->0.pid != old_pid
            &&& was is Some && now is Some && was->0.pid != now->0.pid ==> event == Some(
                WatchEvent::Switched { old_pid: was->0.pid },
            )
            &&& was is Some && now is Some && was->0.pid == now->0.pid ==> event is None
            &&& was is None && now is None ==> event is None
        }),
{
    let (x, y) = (scans[j - 1], scans[j]);
    let m = memory_through(scans, j - 1);
    assert(found(x.patterns, x.processes, x.now, m, x.result));
    assert(x.result[a].pattern == x.patterns[a]);
    lemma_memory_after_scan(
        x.patterns,
        x.processes,
        x.now,
        m,
        x.result,
        x.result.len() as int,
        a,
    );
    let n = memory_through(scans, j);
    assert(found(y.patterns, y.processes, y.now, n, y.result));
    assert(y.result[b].pattern == y.patterns[b]);
    lemma_unscanned(n, y.result, b, y.result[b].pattern@);
}

/// Every pattern is looked for, in order, and what it matches is reported.
pub proof fn every_pattern_is_looked_for(
    patterns: Seq<String>,
    processes: Seq<ProcessReading>,
    now: u64,
    m: Map<Seq<char>, Trace>,
    r: Seq<WatchedProcess>,
    i: int,
)
    requires
        found(patterns, processes, now, m, r),
        0 <= i < patterns.len(),
    ensures
        r.len() == patterns.len(),
        r[i].pattern == patterns[i],
        r[i].metrics is Some <==> exists|j: int|
            0 <= j < processes.len() && process::hit(#[trigger] processes[j], patterns[i]@),
{
    assert(r[i].pattern == patterns[i]);
    process::the_heaviest_match_is_found(processes, patterns[i]@, now, r[i].metrics);
}

} // verus!
