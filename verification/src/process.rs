//! Process metrics: this process (enriched with native counters) and processes
//! found by name.
//!
//! Two numbers that disagree on purpose: working set (`rss`) shrinks when the
//! OS trims pages and reads as a fake improvement; `private_bytes` is what the
//! process actually still owns. Both are reported.
//!
//! Every platform-specific probe returns `None`, not zero, where it cannot
//! measure. A silent zero is indistinguishable from a real measurement and is
//! how a monitoring tool ends up lying.

pub mod linux;
pub mod unsupported;
pub mod windows;

use crate::float::single::Single;
use crate::report::ProcessMetrics;
use crate::rows;
use crate::rows::Ranked;
use crate::text::{letters, same};
use vstd::prelude::*;

verus! {

/// What the process list says of one process.
#[derive(Debug, Clone)]
pub struct ProcessReading {
    pub pid: u32,
    pub name: String,
    /// Resident memory, bytes.
    pub memory: u64,
    pub cpu_usage: Single,
    /// Number of tasks, where the platform lists them.
    pub tasks: Option<usize>,
    /// Start, in seconds since the epoch.
    pub start_time: u64,
    /// Bytes read from disk since start.
    pub disk_read: u64,
    /// Bytes written to disk since start.
    pub disk_written: u64,
}

/// The raw material for the native counters of this process.
#[derive(Debug, Clone)]
pub enum Source {
    Windows(windows::Raw),
    Linux(linux::Raw),
    Other,
}

/// The native counters that a source gives.
pub struct Counters {
    pub memory: (u64, u64, u64),
    pub io: Option<(u64, u64, u64, u64)>,
    pub cpu_time_ms: Option<u64>,
    pub page_faults: Option<u64>,
    pub handles: Option<u32>,
    pub threads: Option<u32>,
}

impl Source {
    /// What the counters of this source are.
    pub open spec fn counters(&self) -> Counters {
        match self {
            Source::Windows(raw) => Counters {
                memory: windows::memory_of(*raw),
                io: raw.io,
                cpu_time_ms: windows::cpu_time_of(*raw),
                page_faults: windows::faults_of(*raw),
                handles: raw.handles,
                threads: None,
            },
            Source::Linux(raw) => Counters {
                memory: linux::memory_of(*raw),
                io: linux::io_of(*raw),
                cpu_time_ms: linux::cpu_time_of(*raw),
                page_faults: linux::faults_of(*raw),
                handles: linux::handles_of(*raw),
                threads: linux::threads_of(*raw),
            },
            Source::Other => Counters {
                memory: (0, 0, 0),
                io: None,
                cpu_time_ms: None,
                page_faults: None,
                handles: None,
                threads: None,
            },
        }
    }
}

/// `(working set, private bytes, peak working set)` for this process. Zeros
/// where unavailable — [`self_metrics`] is what maps those to `None`.
pub fn mem_counters(source: &Source) -> (r: (u64, u64, u64))
    ensures
        r == source.counters().memory,
{
    match source {
        Source::Windows(raw) => windows::mem_counters(raw),
        Source::Linux(raw) => linux::mem_counters(raw),
        Source::Other => unsupported::mem_counters(),
    }
}

/// Whether this platform can attribute memory to a scope at all.
pub fn memory_probe_available(source: &Source) -> (r: bool)
    ensures
        r == (source.counters().memory.0 != 0),
{
    mem_counters(source).0 != 0
}

/// The native counters of this process.
pub fn native(source: &Source) -> (r: Counters)
    ensures
        r == source.counters(),
{
    let memory = mem_counters(source);
    match source {
        Source::Windows(raw) => Counters {
            memory,
            io: windows::io_counters(raw),
            cpu_time_ms: windows::cpu_time_ms(raw),
            page_faults: windows::page_faults(raw),
            handles: windows::handle_count(raw),
            threads: windows::thread_count(raw),
        },
        Source::Linux(raw) => Counters {
            memory,
            io: linux::io_counters(raw),
            cpu_time_ms: linux::cpu_time_ms(raw),
            page_faults: linux::page_faults(raw),
            handles: linux::handle_count(raw),
            threads: linux::thread_count(raw),
        },
        Source::Other => Counters {
            memory,
            io: unsupported::io_counters(),
            cpu_time_ms: unsupported::cpu_time_ms(),
            page_faults: unsupported::page_faults(),
            handles: unsupported::handle_count(),
            threads: unsupported::thread_count(),
        },
    }
}

/// Seconds since the process started, at `now` seconds since the epoch.
pub fn uptime_secs_of(p: &ProcessReading, now: u64) -> (r: u64)
    ensures
        r == now.saturating_sub(p.start_time),
{
    now.saturating_sub(p.start_time)
}

/// What the process list alone tells of a process. What it cannot know is
/// `None`.
pub open spec fn listed(p: ProcessReading, now: u64) -> ProcessMetrics {
    ProcessMetrics {
        pid: p.pid,
        name: p.name,
        rss: p.memory,
        private_bytes: None,
        peak_rss: None,
        cpu_pct: p.cpu_usage,
        cpu_time_ms: None,
        threads: match p.tasks {
            Some(n) => Some(n as u32),
            None => None,
        },
        handles: None,
        page_faults: None,
        uptime_secs: now.saturating_sub(p.start_time),
        disk_read: p.disk_read,
        disk_written: p.disk_written,
        disk_read_ops: None,
        disk_write_ops: None,
    }
}

/// The metrics of a process as far as the process list tells them.
pub fn base_metrics(p: &ProcessReading, now: u64) -> (r: ProcessMetrics)
    ensures
        r == listed(*p, now),
{
    ProcessMetrics {
        pid: p.pid,
        name: p.name.clone(),
        rss: p.memory,
        private_bytes: None,
        peak_rss: None,
        cpu_pct: p.cpu_usage,
        cpu_time_ms: None,
        threads: match p.tasks {
            Some(n) => Some(n as u32),
            None => None,
        },
        handles: None,
        page_faults: None,
        uptime_secs: uptime_secs_of(p, now),
        disk_read: p.disk_read,
        disk_written: p.disk_written,
        disk_read_ops: None,
        disk_write_ops: None,
    }
}

/// A listed process, enriched with what the native counters know better. A peak
/// of zero was not measured.
pub open spec fn enriched(m: ProcessMetrics, c: Counters) -> ProcessMetrics {
    let memory = c.memory.0 != 0;
    ProcessMetrics {
        pid: m.pid,
        name: m.name,
        rss: if memory {
            c.memory.0
        } else {
            m.rss
        },
        private_bytes: if memory {
            Some(c.memory.1)
        } else {
            m.private_bytes
        },
        peak_rss: if memory && c.memory.2 != 0 {
            Some(c.memory.2)
        } else {
            m.peak_rss
        },
        cpu_pct: m.cpu_pct,
        cpu_time_ms: c.cpu_time_ms,
        threads: match m.threads {
            Some(n) => Some(n),
            None => c.threads,
        },
        handles: c.handles,
        page_faults: c.page_faults,
        uptime_secs: m.uptime_secs,
        disk_read: match c.io {
            Some(io) => io.0,
            None => m.disk_read,
        },
        disk_written: match c.io {
            Some(io) => io.1,
            None => m.disk_written,
        },
        disk_read_ops: match c.io {
            Some(io) => Some(io.2),
            None => m.disk_read_ops,
        },
        disk_write_ops: match c.io {
            Some(io) => Some(io.3),
            None => m.disk_write_ops,
        },
    }
}

/// The process `pid` of the list, enriched. The first entry counts where the
/// list has several.
pub open spec fn self_of(
    processes: Seq<ProcessReading>,
    pid: u32,
    source: Source,
    now: u64,
) -> Option<ProcessMetrics>
    decreases processes.len(),
{
    if processes.len() == 0 {
        None
    } else if processes[0].pid == pid {
        Some(enriched(listed(processes[0], now), source.counters()))
    } else {
        self_of(processes.drop_first(), pid, source, now)
    }
}

/// This process, enriched with the native counters.
pub fn self_metrics(
    processes: &Vec<ProcessReading>,
    pid: u32,
    source: &Source,
    now: u64,
) -> (r: Option<ProcessMetrics>)
    ensures
        r == self_of(processes@, pid, *source, now),
{
    let mut i: usize = 0;
    assert(processes@.skip(0) =~= processes@);
    while i < processes.len() && processes[i].pid != pid
        invariant
            i <= processes@.len(),
            self_of(processes@, pid, *source, now) == self_of(
                processes@.skip(i as int),
                pid,
                *source,
                now,
            ),
        decreases processes@.len() - i,
    {
        assert(processes@.skip(i as int)[0] == processes@[i as int]);
        assert(processes@.skip(i as int).drop_first() =~= processes@.skip(i + 1));
        i = i + 1;
    }
    if i == processes.len() {
        return None;
    }
    assert(processes@.skip(i as int)[0] == processes@[i as int]);
    let mut m: ProcessMetrics = base_metrics(&processes[i], now);
    let c: Counters = native(source);
    let (rss, private, peak) = c.memory;
    if rss != 0 {
        m.rss = rss;
        m.private_bytes = Some(private);
        if peak != 0 {
            m.peak_rss = Some(peak);
        }
    }
    if let Some((rb, wb, rops, wops)) = c.io {
        m.disk_read = rb;
        m.disk_written = wb;
        m.disk_read_ops = Some(rops);
        m.disk_write_ops = Some(wops);
    }
    m.cpu_time_ms = c.cpu_time_ms;
    m.page_faults = c.page_faults;
    m.handles = c.handles;
    if m.threads.is_none() {
        m.threads = c.threads;
    }
    Some(m)
}

/// The lower-case form of a text, as `str::to_lowercase` gives it.
pub uninterp spec fn lowercase(s: Seq<char>) -> Seq<char>;

/// `str::to_lowercase`: the lower-case form of a text is a function of its
/// characters alone, here named [`lowercase`]. Which character becomes which is
/// left to the Unicode tables of the standard library.
#[verifier::external_body]
fn to_lowercase(s: &str) -> (r: String)
    ensures
        r@ == lowercase(s@),
{
    s.to_lowercase()
}

/// Where the first wildcard of a pattern stands.
pub open spec fn first_star(p: Seq<char>, k: int) -> bool {
    &&& 0 <= k < p.len()
    &&& p[k] == '*'
    &&& forall|j: int| 0 <= j < k ==> #[trigger] p[j] != '*'
}

/// Whether a name fits a pattern, letter by letter: the first `*` stands for
/// any span, and without one the name is the pattern.
pub open spec fn fits(n: Seq<char>, p: Seq<char>) -> bool {
    if p.contains('*') {
        exists|k: int, span: Seq<char>| #[trigger]
            first_star(p, k) && n == #[trigger] (p.take(k) + span) + p.skip(k + 1)
    } else {
        n == p
    }
}

/// Whether a name fits a pattern, letter by letter.
pub fn fits_pattern(name: &str, pattern: &str) -> (r: bool)
    ensures
        r == fits(name@, pattern@),
{
    let n: Vec<char> = letters(name);
    let p: Vec<char> = letters(pattern);
    let mut k: usize = 0;
    while k < p.len() && p[k] != '*'
        invariant
            k <= p@.len(),
            forall|j: int| 0 <= j < k ==> #[trigger] p@[j] != '*',
        decreases p@.len() - k,
    {
        k = k + 1;
    }
    if k == p.len() {
        return same(name, pattern);
    }
    assert(first_star(p@, k as int));
    assert(p@.contains('*'));
    let rest: usize = p.len() - 1 - k;
    proof {
        if fits(n@, p@) {
            let (j, span) = choose|j: int, span: Seq<char>| #[trigger]
                first_star(p@, j) && n@ == #[trigger] (p@.take(j) + span) + p@.skip(j + 1);
            assert(j == k);
            assert(n@.len() == k + span.len() + rest);
            assert forall|i: int| 0 <= i < k implies n@[i] == p@[i] by {
                assert(p@.take(j)[i] == p@[i]);
            }
            assert forall|i: int| n@.len() - rest <= i < n@.len() implies #[trigger] n@[i] == p@[i - (
            n@.len() - rest) + k + 1] by {
                assert(p@.skip(j + 1)[i - (n@.len() - rest)] == p@[i - (n@.len() - rest) + k + 1]);
            }
        }
    }
    if n.len() < p.len() - 1 {
        return false;
    }
    let mut i: usize = 0;
    while i < k
        invariant
            i <= k < p@.len(),
            k <= n@.len(),
            forall|j: int| 0 <= j < i ==> n@[j] == p@[j],
            n@ == name@,
            p@ == pattern@,
            fits(n@, p@) ==> forall|j: int| 0 <= j < k ==> n@[j] == p@[j],
        decreases k - i,
    {
        if n[i] != p[i] {
            return false;
        }
        i = i + 1;
    }
    let whole: usize = n.len();
    let last: usize = p.len() - 1;
    let from: usize = whole - rest;
    let mut i: usize = 0;
    while i < rest
        invariant
            i <= rest,
            whole == n@.len(),
            last == p@.len() - 1,
            rest == last - k,
            k <= last,
            from == whole - rest,
            n@.len() >= p@.len() - 1,
            forall|j: int| from <= j < from + i ==> #[trigger] n@[j] == p@[j - from + k + 1],
            n@ == name@,
            p@ == pattern@,
            fits(n@, p@) ==> forall|j: int|
                from <= j < n@.len() ==> #[trigger] n@[j] == p@[j - from + k + 1],
        decreases rest - i,
    {
        if n[from + i] != p[k + i + 1] {
            return false;
        }
        i = i + 1;
    }
    proof {
        let span = n@.subrange(k as int, from as int);
        assert(n@ =~= (p@.take(k as int) + span) + p@.skip(k + 1));
    }
    true
}

/// Case-insensitive match. `*` matches any span (one wildcard is enough for
/// `server-*.exe`); without it the whole name must equal the pattern.
pub fn matches(name: &str, pattern: &str) -> (r: bool)
    ensures
        r == fits(lowercase(name@), lowercase(pattern@)),
{
    let n: String = to_lowercase(name);
    let p: String = to_lowercase(pattern);
    fits_pattern(n.as_str(), p.as_str())
}

/// A process that a pattern matches.
pub open spec fn hit(p: ProcessReading, pattern: Seq<char>) -> bool {
    fits(lowercase(p.name@), lowercase(pattern))
}

/// `m` is the heaviest process that the pattern matches, the last in the list
/// where several are as heavy; `None` where it matches none.
pub open spec fn is_heaviest(
    processes: Seq<ProcessReading>,
    pattern: Seq<char>,
    now: u64,
    m: Option<ProcessMetrics>,
) -> bool {
    match m {
        Some(m) => exists|i: int|
            #![trigger processes[i]]
            0 <= i < processes.len() && hit(processes[i], pattern) && m == listed(processes[i], now)
                && (forall|j: int|
                0 <= j < processes.len() && hit(#[trigger] processes[j], pattern)
                    ==> processes[j].memory <= processes[i].memory && (j > i ==> processes[j].memory
                    < processes[i].memory)),
        None => forall|i: int| 0 <= i < processes.len() ==> !hit(#[trigger] processes[i], pattern),
    }
}

/// Biggest-RAM process matching `pattern` — the heaviest instance is the one
/// that matters when several share a name.
pub fn find(processes: &Vec<ProcessReading>, pattern: &str, now: u64) -> (r: Option<ProcessMetrics>)
    ensures
        is_heaviest(processes@, pattern@, now, r),
{
    let mut best: Option<usize> = None;
    let mut i: usize = 0;
    while i < processes.len()
        invariant
            i <= processes@.len(),
            match best {
                Some(b) => b < i && hit(processes@[b as int], pattern@) && (forall|j: int|
                    0 <= j < i && hit(#[trigger] processes@[j], pattern@) ==> processes@[j].memory
                        <= processes@[b as int].memory && (j > b ==> processes@[j].memory
                        < processes@[b as int].memory)),
                None => forall|j: int| 0 <= j < i ==> !hit(#[trigger] processes@[j], pattern@),
            },
        decreases processes@.len() - i,
    {
        if matches(processes[i].name.as_str(), pattern) {
            let better: bool = match best {
                Some(b) => processes[i].memory >= processes[b].memory,
                None => true,
            };
            if better {
                best = Some(i);
            }
        }
        i = i + 1;
    }
    match best {
        Some(b) => Some(base_metrics(&processes[b], now)),
        None => None,
    }
}

impl Ranked for ProcessReading {
    open spec fn ahead(&self, other: &Self) -> bool {
        self.memory > other.memory
    }

    proof fn asymmetric(a: &Self, b: &Self) {
    }

    proof fn layered(a: &Self, b: &Self, c: &Self) {
    }

    fn is_ahead(&self, other: &Self) -> bool {
        self.memory > other.memory
    }
}

/// `top` holds the `n` heaviest processes, heaviest first; all of them where
/// there are fewer.
pub open spec fn are_heaviest(
    processes: Seq<ProcessReading>,
    n: usize,
    now: u64,
    top: Seq<ProcessMetrics>,
) -> bool {
    &&& top.len() == if n < processes.len() {
        n as nat
    } else {
        processes.len()
    }
    &&& exists|p: Seq<usize>| #[trigger]
        rows::in_order(processes, p) && forall|i: int|
            0 <= i < top.len() ==> #[trigger] top[i] == listed(processes[p[i] as int], now)
}

/// The `n` heaviest processes on the machine by resident memory.
///
/// For the question a monitor is usually asked at 3am: not "is my process big"
/// but "what on this machine is eating the RAM".
pub fn top_by_rss(processes: &Vec<ProcessReading>, n: usize, now: u64) -> (r: Vec<ProcessMetrics>)
    ensures
        are_heaviest(processes@, n, now, r@),
{
    let p: Vec<usize> = rows::order(processes);
    let mut r: Vec<ProcessMetrics> = Vec::new();
    let mut i: usize = 0;
    while i < n && i < p.len()
        invariant
            i <= n,
            i <= p@.len(),
            r@.len() == i,
            rows::in_order(processes@, p@),
            forall|j: int| 0 <= j < i ==> #[trigger] r@[j] == listed(processes@[p@[j] as int], now),
        decreases p@.len() - i,
    {
        r.push(base_metrics(&processes[p[i]], now));
        i = i + 1;
    }
    r
}

/// The heaviest processes come sorted, and no process left out is heavier than
/// one of them.
pub proof fn the_heaviest_come_first(
    processes: Seq<ProcessReading>,
    n: usize,
    now: u64,
    top: Seq<ProcessMetrics>,
)
    requires
        are_heaviest(processes, n, now, top),
    ensures
        top.len() <= n,
        top.len() == n || top.len() == processes.len(),
        top.len() <= processes.len(),
        forall|i: int, j: int| 0 <= i < j < top.len() ==> #[trigger] top[i].rss >= #[trigger] top[j].rss,
        forall|k: int|
            0 <= k < processes.len() ==> top.contains(listed(#[trigger] processes[k], now))
                || forall|i: int|
                0 <= i < top.len() ==> (#[trigger] top[i]).rss >= processes[k].memory,
{
    let p = choose|p: Seq<usize>| #[trigger]
        rows::in_order(processes, p) && forall|i: int|
            0 <= i < top.len() ==> #[trigger] top[i] == listed(processes[p[i] as int], now);
    assert forall|i: int, j: int| 0 <= i < j < top.len() implies #[trigger] top[i].rss
        >= #[trigger] top[j].rss by {
        assert(top[i] == listed(processes[p[i] as int], now));
        assert(top[j] == listed(processes[p[j] as int], now));
    }
    assert forall|k: int| 0 <= k < processes.len() implies top.contains(
        listed(#[trigger] processes[k], now),
    ) || forall|i: int| 0 <= i < top.len() ==> (#[trigger] top[i]).rss >= processes[k].memory by {
        rows::lemma_permutes_all(p, processes.len(), k);
        let at = choose|at: int| 0 <= at < p.len() && #[trigger] p[at] == k;
        if at < top.len() {
            assert(top[at] == listed(processes[k], now));
        } else {
            assert forall|i: int| 0 <= i < top.len() implies (#[trigger] top[i]).rss
                >= processes[k].memory by {
                assert(!processes[p[at] as int].ahead(&processes[p[i] as int]));
            }
        }
    }
}

/// A lone `*` matches every name.
pub proof fn a_lone_star_matches_everything(n: Seq<char>)
    ensures
        fits(n, seq!['*']),
{
    let p = seq!['*'];
    assert(p[0] == '*');
    assert(first_star(p, 0));
    assert(n =~= (p.take(0) + n) + p.skip(1));
}

/// Matching looks at no letter's case: names with the same lower-case form are
/// matched alike.
pub proof fn matching_ignores_case(a: ProcessReading, b: ProcessReading, p: Seq<char>, q: Seq<char>)
    requires
        lowercase(a.name@) == lowercase(b.name@),
        lowercase(p) == lowercase(q),
    ensures
        hit(a, p) == hit(b, q),
{
}

/// Memory is measured whole or not at all: without a working set there are no
/// private bytes and no peak either, whatever the platform. What is counted as
/// private out of `/proc` is part of the working set.
pub proof fn memory_is_measured_whole_or_not_at_all(source: Source)
    ensures
        source.counters().memory.0 == 0 ==> source.counters().memory == (0u64, 0u64, 0u64),
        source is Linux ==> source.counters().memory.1 <= source.counters().memory.0,
        source is Other ==> source.counters().memory.0 == 0,
{
}

/// A native counter is never claimed to be zero where it was not measured: a
/// peak is not zero, and there are operation counts only where both the bytes
/// and the operations were counted.
pub proof fn a_missing_counter_is_not_zero(m: ProcessMetrics, c: Counters)
    requires
        m.private_bytes is None,
        m.peak_rss is None,
        m.disk_read_ops is None,
        m.disk_write_ops is None,
    ensures
        c.memory.0 == 0 ==> enriched(m, c).private_bytes is None && enriched(m, c).rss == m.rss,
        enriched(m, c).peak_rss matches Some(peak) ==> peak != 0,
        enriched(m, c).disk_read_ops is Some <==> c.io is Some,
        enriched(m, c).disk_write_ops is Some <==> c.io is Some,
{
}

/// A platform without probes claims nothing: no private bytes, no peak, no
/// counters, and the working set as the process list has it.
pub proof fn an_unsupported_platform_claims_nothing(p: ProcessReading, now: u64)
    ensures
        ({
            let m = enriched(listed(p, now), Source::Other.counters());
            &&& m.rss == p.memory
            &&& m.private_bytes is None
            &&& m.peak_rss is None
            &&& m.cpu_time_ms is None
            &&& m.handles is None
            &&& m.page_faults is None
            &&& m.disk_read_ops is None
            &&& m.disk_write_ops is None
        }),
{
}

/// This process is the one that goes by its id, and missing where none does.
pub proof fn this_process_is_found_by_its_id(
    processes: Seq<ProcessReading>,
    pid: u32,
    source: Source,
    now: u64,
)
    ensures
        self_of(processes, pid, source, now) is None <==> forall|i: int|
            0 <= i < processes.len() ==> (#[trigger] processes[i]).pid != pid,
        self_of(processes, pid, source, now) matches Some(m) ==> exists|i: int|
            0 <= i < processes.len() && (#[trigger] processes[i]).pid == pid && m == enriched(
                listed(processes[i], now),
                source.counters(),
            ) && forall|j: int| 0 <= j < i ==> (#[trigger] processes[j]).pid != pid,
    decreases processes.len(),
{
    if processes.len() > 0 && processes[0].pid != pid {
        let rest = processes.drop_first();
        this_process_is_found_by_its_id(rest, pid, source, now);
        if self_of(rest, pid, source, now) is Some {
            let m = self_of(rest, pid, source, now)->0;
            let i = choose|i: int|
                0 <= i < rest.len() && (#[trigger] rest[i]).pid == pid && m == enriched(
                    listed(rest[i], now),
                    source.counters(),
                ) && forall|j: int| 0 <= j < i ==> (#[trigger] rest[j]).pid != pid;
            assert(processes[i + 1] == rest[i]);
            assert forall|j: int| 0 <= j < i + 1 implies (#[trigger] processes[j]).pid != pid by {
                if j > 0 {
                    assert(rest[j - 1] == processes[j]);
                }
            }
        } else {
            assert forall|i: int| 0 <= i < processes.len() implies (#[trigger] processes[i]).pid
                != pid by {
                if i > 0 {
                    assert(rest[i - 1] == processes[i]);
                }
            }
        }
    } else if processes.len() > 0 {
        assert(processes[0].pid == pid);
    }
}

/// What the process list says of a process is reported as it stands, and its
/// uptime is the time since its start.
pub proof fn the_list_is_reported_as_it_stands(p: ProcessReading, now: u64)
    ensures
        ({
            let m = listed(p, now);
            &&& m.pid == p.pid
            &&& m.name == p.name
            &&& m.rss == p.memory
            &&& m.cpu_pct == p.cpu_usage
            &&& m.disk_read == p.disk_read
            &&& m.disk_written == p.disk_written
            &&& p.start_time <= now ==> p.start_time + m.uptime_secs == now
            &&& p.start_time > now ==> m.uptime_secs == 0
            &&& p.tasks matches Some(n) ==> (n <= u32::MAX ==> (m.threads matches Some(t) && t
                == n))
            &&& p.tasks is None ==> m.threads is None
        }),
{
}

/// The native counters win wherever they were measured, each in its own place, and
/// nothing else is touched.
pub proof fn native_counters_win(m: ProcessMetrics, c: Counters)
    ensures
        ({
            let e = enriched(m, c);
            let (rss, private, peak) = c.memory;
            &&& e.pid == m.pid && e.name == m.name && e.cpu_pct == m.cpu_pct && e.uptime_secs
                == m.uptime_secs
            &&& rss != 0 ==> e.rss == rss && e.private_bytes == Some(private)
            &&& rss != 0 && peak != 0 ==> e.peak_rss == Some(peak)
            &&& c.io matches Some((read, written, reads, writes)) ==> e.disk_read == read
                && e.disk_written == written && e.disk_read_ops == Some(reads) && e.disk_write_ops
                == Some(writes)
            &&& c.io is None ==> e.disk_read == m.disk_read && e.disk_written == m.disk_written
            &&& e.cpu_time_ms == c.cpu_time_ms
            &&& e.page_faults == c.page_faults
            &&& e.handles == c.handles
            &&& m.threads is Some ==> e.threads == m.threads
            &&& m.threads is None ==> e.threads == c.threads
        }),
{
}

/// A star stands for any span: a pattern that starts with `a`, has its first star
/// there and ends in `b` fits exactly the names that start with `a` and end in
/// `b`, one behind the other.
pub proof fn a_star_stands_for_any_span(a: Seq<char>, b: Seq<char>, n: Seq<char>)
    requires
        !a.contains('*'),
    ensures
        fits(n, a.push('*') + b) <==> n.len() >= a.len() + b.len() && n.take(a.len() as int) == a
            && n.skip(n.len() - b.len()) == b,
{
    let p = a.push('*') + b;
    let k = a.len() as int;
    assert(p[k] == '*');
    assert(p.contains('*'));
    assert(first_star(p, k)) by {
        assert forall|j: int| 0 <= j < k implies #[trigger] p[j] != '*' by {
            assert(p[j] == a[j]);
            assert(a.contains(a[j]));
        }
    }
    assert(p.take(k) =~= a);
    assert(p.skip(k + 1) =~= b);
    if fits(n, p) {
        let (j, span) = choose|j: int, span: Seq<char>| #[trigger]
            first_star(p, j) && n == #[trigger] (p.take(j) + span) + p.skip(j + 1);
        assert(j == k) by {
            if j < k {
                assert(p[j] != '*');
            }
            if k < j {
                assert(p[k] != '*');
            }
        }
        assert(n.take(k) =~= a);
        assert(n.skip(n.len() - b.len()) =~= b);
    }
    if n.len() >= a.len() + b.len() && n.take(k) == a && n.skip(n.len() - b.len()) == b {
        let span = n.subrange(k, n.len() - b.len());
        assert forall|i: int| 0 <= i < n.len() implies n[i] == #[trigger] ((a + span) + b)[i] by {
            if i < k {
                assert(n.take(k)[i] == n[i]);
            } else if i >= n.len() - b.len() {
                assert(n.skip(n.len() - b.len())[i - (n.len() - b.len())] == n[i]);
            }
        }
        assert(n =~= (p.take(k) + span) + p.skip(k + 1));
    }
}

/// Without a star a name fits only the pattern itself.
pub proof fn without_a_star_the_name_is_the_pattern(n: Seq<char>, p: Seq<char>)
    requires
        !p.contains('*'),
    ensures
        fits(n, p) <==> n == p,
{
}

/// Of several processes that match, the heaviest is found, and none where none
/// matches.
pub proof fn the_heaviest_match_is_found(
    processes: Seq<ProcessReading>,
    pattern: Seq<char>,
    now: u64,
    m: Option<ProcessMetrics>,
)
    requires
        is_heaviest(processes, pattern, now, m),
    ensures
        m is Some <==> exists|i: int| 0 <= i < processes.len() && hit(#[trigger] processes[i], pattern),
        m is Some ==> forall|i: int|
            0 <= i < processes.len() && hit(#[trigger] processes[i], pattern) ==> processes[i].memory
                <= m->0.rss,
        m is Some ==> exists|i: int|
            0 <= i < processes.len() && hit(#[trigger] processes[i], pattern) && processes[i].pid
                == m->0.pid && processes[i].name == m->0.name && processes[i].memory == m->0.rss,
{
    if m is Some {
        let i = choose|i: int|
            #![trigger processes[i]]
            0 <= i < processes.len() && hit(processes[i], pattern) && m->0 == listed(
                processes[i],
                now,
            ) && (forall|j: int|
                0 <= j < processes.len() && hit(#[trigger] processes[j], pattern)
                    ==> processes[j].memory <= processes[i].memory && (j > i ==> processes[j].memory
                    < processes[i].memory));
        assert(hit(processes[i], pattern));
    }
}

} // verus!
