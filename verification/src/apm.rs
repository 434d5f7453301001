//! The monitor itself: what is configured, what is kept between snapshots, and
//! how one snapshot turns readings into a report.

use crate::allocator;
use crate::allocator::CountingAlloc;
use crate::checks;
use crate::checks::Probed;
use crate::disk;
use crate::disk::DiskReading;
use crate::errors;
use crate::errors::ErrorLog;
use crate::float::accuracy;
use crate::float::double;
use crate::float::double::Double;
use crate::net;
use crate::net::Interface;
use crate::process;
use crate::process::{ProcessReading, Source};
use crate::report;
use crate::report::{
    per_second, AllocStats, ApmReport, Check, CheckResult, DiskMetrics, ErrorSummary, Health,
    Identity, IoRates, MemoryHealth, Metric, NetMetrics, OpTiming, ProcessMetrics, SystemMetrics, Trigger,
    Verdict, WatchedProcess,
};
use crate::rows;
use crate::scope;
use crate::scope::{PrevRow, Registry, Scope};
use crate::system;
use crate::system::MachineReading;
use crate::trend;
use crate::trend::{MemoryTrend, Point, Trend};
use crate::triggers;
use crate::triggers::{Own, Reading, Thresholds};
use crate::verdict;
use crate::verdict::{Inputs, Limits};
use crate::watch;
use crate::watch::Seen;
use vstd::prelude::*;

verus! {

/// Count one error into the next report's [`ErrorSummary`].
pub fn note_error(log: &mut ErrorLog, kind: &str, msg: &str)
    requires
        old(log).wf(),
        old(log).count_of(kind@) < u64::MAX,
    ensures
        final(log).wf(),
        final(log).total == old(log).total.wrapping_add(1),
        final(log).counts() == old(log).counts().insert(
            kind@,
            (old(log).count_of(kind@) + 1) as u64,
        ),
        report::maybe_text(final(log).last) == Some(kind@ + ": "@ + msg@),
        forall|h: Seq<Seq<char>>|
            old(log).follows(h) ==> #[trigger] final(log).follows(h.push(kind@)),
        old(log).balanced() && old(log).total < u64::MAX ==> final(log).balanced(),
{
    errors::note(log, kind, msg);
}

/// Whether this platform can attribute memory to a scope at all.
///
/// `false` means that scopes still work but report zero deltas — worth checking
/// once at startup rather than wondering later.
pub fn memory_probe_available(source: &Source) -> (r: bool)
    ensures
        r == (source.counters().memory.0 != 0),
{
    process::memory_probe_available(source)
}

/// Where the platform cannot attribute memory, a scope reports zero deltas.
pub proof fn without_a_probe_scopes_report_zero_deltas(
    s: Scope,
    opened: u64,
    entry: Source,
    end: Source,
)
    requires
        entry.counters().memory.0 == 0,
        end.counters().memory.0 == 0,
        s.mem0 == Some((entry.counters().memory.0, entry.counters().memory.1)),
    ensures
        s.measurable(end.counters().memory),
        s.memory_cost(opened, end.counters().memory) matches Some(m) && m.d_rss == 0
            && m.d_private == 0,
{
    process::memory_is_measured_whole_or_not_at_all(entry);
    process::memory_is_measured_whole_or_not_at_all(end);
}

#[derive(Debug, Clone)]
pub struct Config {
    pub service: String,
    pub version: String,
    /// Process name patterns to watch (`"server-*.exe"` style, one `*`
    /// wildcard; without one the match is exact, case-insensitive).
    pub watch: Vec<String>,
    pub checks: Vec<Check>,
    pub thresholds: Thresholds,
    pub limits: Limits,
    /// Report the `n` heaviest processes on the machine. `0` disables it, which
    /// is the default: it requires enumerating every process (see
    /// [`Apm::snapshot`]).
    pub top_n: usize,
}

/// Nothing is configured but the name.
pub open spec fn is_plain(c: Config) -> bool {
    &&& c.version@ == "0.1.0"@
    &&& c.watch@.len() == 0
    &&& c.checks@.len() == 0
    &&& c.top_n == 0
}

impl Default for Config {
    fn default() -> (r: Self)
        ensures
            r.service@ == "app"@,
            is_plain(r),
            r.thresholds == triggers::standard(),
            r.limits == verdict::standard(),
    {
        Config {
            service: "app".to_owned(),
            version: "0.1.0".to_owned(),
            watch: Vec::new(),
            checks: Vec::new(),
            thresholds: Thresholds::default(),
            limits: Limits::default(),
            top_n: 0,
        }
    }
}

impl Config {
    pub fn for_service(name: &str) -> (r: Config)
        ensures
            r.service@ == name@,
            is_plain(r),
            r.thresholds == triggers::standard(),
            r.limits == verdict::standard(),
    {
        Config {
            service: name.to_owned(),
            version: "0.1.0".to_owned(),
            watch: Vec::new(),
            checks: Vec::new(),
            thresholds: Thresholds::default(),
            limits: Limits::default(),
            top_n: 0,
        }
    }

    pub fn version(self, v: &str) -> (r: Config)
        ensures
            r.version@ == v@,
            r == (Config { version: r.version, ..self }),
    {
        Config { version: v.to_owned(), ..self }
    }

    pub fn watch(self, pattern: &str) -> (r: Config)
        ensures
            r.watch@.len() == self.watch@.len() + 1,
            r.watch@.drop_last() == self.watch@,
            r.watch@.last()@ == pattern@,
            r == (Config { watch: r.watch, ..self }),
    {
        let mut r = self;
        r.watch.push(pattern.to_owned());
        assert(r.watch@.drop_last() =~= self.watch@);
        r
    }

    pub fn check(self, c: Check) -> (r: Config)
        ensures
            r.checks@ == self.checks@.push(c),
            r == (Config { checks: r.checks, ..self }),
    {
        let mut r = self;
        r.checks.push(c);
        r
    }

    pub fn limits(self, l: Limits) -> (r: Config)
        ensures
            r == (Config { limits: l, ..self }),
    {
        Config { limits: l, ..self }
    }

    pub fn thresholds(self, t: Thresholds) -> (r: Config)
        ensures
            r == (Config { thresholds: t, ..self }),
    {
        Config { thresholds: t, ..self }
    }

    pub fn top_n(self, n: usize) -> (r: Config)
        ensures
            r == (Config { top_n: n, ..self }),
    {
        Config { top_n: n, ..self }
    }

    /// Whether anything configured needs the full process list.
    pub fn needs_all_processes(&self) -> (r: bool)
        ensures
            r == (self.watch@.len() > 0 || self.top_n > 0 || exists|i: int|
                0 <= i < self.checks@.len() && #[trigger] self.checks@[i] is ProcessAlive),
    {
        if self.watch.len() > 0 || self.top_n > 0 {
            return true;
        }
        let mut i: usize = 0;
        while i < self.checks.len()
            invariant
                i <= self.checks@.len(),
                forall|j: int| 0 <= j < i ==> !(#[trigger] self.checks@[j] is ProcessAlive),
            decreases self.checks@.len() - i,
        {
            match &self.checks[i] {
                Check::ProcessAlive { .. } => {
                    assert(self.checks@[i as int] is ProcessAlive);
                    return true;
                },
                _ => {},
            }
            i = i + 1;
        }
        false
    }
}

/// Everything a snapshot looks at. Times are nanoseconds of one monotonic
/// clock, unless they say otherwise.
#[derive(Debug, Clone)]
pub struct Readings {
    /// When the snapshot began.
    pub begun_ns: u64,
    /// When the memory was read.
    pub read_ns: u64,
    /// When the report is put together.
    pub done_ns: u64,
    /// Milliseconds since the epoch.
    pub unix_ms: u64,
    /// Seconds since the epoch.
    pub unix_secs: u64,
    pub pid: u32,
    pub host: Option<String>,
    pub machine: MachineReading,
    pub processes: Vec<ProcessReading>,
    pub source: Source,
    pub interfaces: Vec<Interface>,
    pub disks: Vec<DiskReading>,
    /// What was found out about each configured check.
    pub probed: Vec<Probed>,
    /// The counting allocator, where it is installed.
    pub allocator: Option<CountingAlloc>,
}

/// Nanoseconds in seconds: the whole seconds, plus the rest divided by a
/// billion.
pub open spec fn seconds(ns: u64) -> Double {
    double::sum(
        double::of_quotient((ns / 1_000_000_000) as nat, 1),
        double::quotient(
            double::of_quotient((ns % 1_000_000_000) as nat, 1),
            double::of_quotient(1_000_000_000, 1),
        ),
    )
}

fn in_seconds(ns: u64) -> (r: Double)
    ensures
        r == seconds(ns),
{
    Double::from_u64(ns / 1_000_000_000).plus(
        Double::from_u64(ns % 1_000_000_000).over(Double::from_u64(1_000_000_000)),
    )
}

/// The disk I/O of this process against the previous snapshot. On the first one
/// there is nothing to compare with: no delta, and no rate.
pub open spec fn io_of(
    p: Option<ProcessMetrics>,
    prev: Option<(u64, u64)>,
    interval: Option<Double>,
) -> Option<IoRates> {
    match p {
        Some(p) => {
            let was = match prev {
                Some(w) => w,
                None => (p.disk_read, p.disk_written),
            };
            let read_delta = p.disk_read.saturating_sub(was.0);
            let written_delta = p.disk_written.saturating_sub(was.1);
            Some(
                IoRates {
                    read_total: p.disk_read,
                    written_total: p.disk_written,
                    read_delta,
                    written_delta,
                    read_per_sec: net::rate_since(prev, read_delta, interval),
                    written_per_sec: net::rate_since(prev, written_delta, interval),
                },
            )
        },
        None => None,
    }
}

fn io_rates(
    p: &Option<ProcessMetrics>,
    prev: Option<(u64, u64)>,
    interval_secs: Option<Double>,
) -> (r: Option<IoRates>)
    ensures
        r == io_of(*p, prev, interval_secs),
{
    match p {
        Some(p) => {
            let (pr, pw) = match prev {
                Some(w) => w,
                None => (p.disk_read, p.disk_written),
            };
            let read_delta: u64 = p.disk_read.saturating_sub(pr);
            let written_delta: u64 = p.disk_written.saturating_sub(pw);
            let interval: Option<Double> = match prev {
                Some(_) => interval_secs,
                None => None,
            };
            Some(
                IoRates {
                    read_total: p.disk_read,
                    written_total: p.disk_written,
                    read_delta,
                    written_delta,
                    read_per_sec: per_second(read_delta, interval),
                    written_per_sec: per_second(written_delta, interval),
                },
            )
        },
        None => None,
    }
}

/// Committed memory that holds no live data. Against private bytes, not the
/// working set: a trimmed working set would make it look as though retention
/// had improved. `None` without the counting allocator.
pub open spec fn retention_of(a: Option<CountingAlloc>, p: Option<ProcessMetrics>) -> Option<u64> {
    match (a, p) {
        (Some(a), Some(p)) => {
            let committed = match p.private_bytes {
                Some(b) => b,
                None => p.rss,
            };
            Some(committed.saturating_sub(a.live()))
        },
        _ => None,
    }
}

/// Committed memory that holds no live data.
pub fn retention_bytes(a: &Option<CountingAlloc>, p: &Option<ProcessMetrics>) -> (r: Option<u64>)
    ensures
        r == retention_of(*a, *p),
{
    match (a, p) {
        (Some(a), Some(p)) => {
            let committed: u64 = match p.private_bytes {
                Some(b) => b,
                None => p.rss,
            };
            Some(committed.saturating_sub(allocator::live_bytes(a)))
        },
        _ => None,
    }
}

/// The allocator's counters, with the churn since `prev` allocations. A first
/// look has no churn.
pub open spec fn alloc_of(
    a: Option<CountingAlloc>,
    prev: u64,
    interval: Option<Double>,
) -> Option<AllocStats> {
    match a {
        Some(a) => Some(
            AllocStats {
                live_bytes: a.live(),
                allocated_total: a.allocated,
                freed_total: a.freed,
                alloc_count: a.alloc_count,
                dealloc_count: a.dealloc_count,
                allocs_per_sec: if prev > 0 {
                    report::rate(a.alloc_count.saturating_sub(prev), interval)
                } else {
                    None
                },
            },
        ),
        None => None,
    }
}

/// The allocator's counters, with the churn since `prev` allocations; `prev` is
/// updated in place.
pub fn alloc_stats(
    a: &Option<CountingAlloc>,
    prev: &mut u64,
    interval_secs: Option<Double>,
) -> (r: Option<AllocStats>)
    ensures
        r == alloc_of(*a, *old(prev), interval_secs),
        *final(prev) == match *a {
            Some(a) => a.alloc_count,
            None => *old(prev),
        },
{
    match a {
        Some(a) => {
            let (allocated_total, freed_total) = allocator::totals(a);
            let (alloc_count, dealloc_count) = allocator::counts(a);
            let delta: u64 = alloc_count.saturating_sub(*prev);
            let had_prev: bool = *prev > 0;
            *prev = alloc_count;
            Some(
                AllocStats {
                    live_bytes: allocator::live_bytes(a),
                    allocated_total,
                    freed_total,
                    alloc_count,
                    dealloc_count,
                    allocs_per_sec: if had_prev {
                        per_second(delta, interval_secs)
                    } else {
                        None
                    },
                },
            )
        },
        None => None,
    }
}

/// The comparable slice of a snapshot: what was measured, and nothing in place
/// of what was not.
pub open spec fn reading_of(p: Option<ProcessMetrics>, n: Option<NetMetrics>) -> Reading {
    Reading {
        own: match p {
            Some(p) => Some(
                Own { ram: p.rss, cpu: p.cpu_pct, disk: (p.disk_read + p.disk_written) as u64 },
            ),
            None => None,
        },
        net: match n {
            Some(n) => Some((n.rx_total + n.tx_total) as u64),
            None => None,
        },
    }
}

/// The sums of a reading fit their counters.
pub open spec fn sums_fit(p: Option<ProcessMetrics>, nets: Seq<Interface>) -> bool {
    &&& p matches Some(p) ==> p.disk_read + p.disk_written <= u64::MAX
    &&& net::received(nets) + net::transmitted(nets) <= u64::MAX
}

fn reading(p: &Option<ProcessMetrics>, n: &Option<NetMetrics>) -> (r: Reading)
    requires
        p matches Some(p) ==> p.disk_read + p.disk_written <= u64::MAX,
        n matches Some(n) ==> n.rx_total + n.tx_total <= u64::MAX,
    ensures
        r == reading_of(*p, *n),
{
    Reading {
        own: match p {
            Some(p) => Some(
                Own { ram: p.rss, cpu: p.cpu_pct, disk: p.disk_read + p.disk_written },
            ),
            None => None,
        },
        net: match n {
            Some(n) => Some(n.rx_total + n.tx_total),
            None => None,
        },
    }
}

/// A series after one snapshot: one reading more, if there was one to take.
pub open spec fn stepped(before: Trend, after: Trend, t: Double, bytes: Option<u64>) -> bool {
    match bytes {
        Some(bytes) => {
            &&& after.window() == (if before.ring@.len() < trend::CAPACITY {
                before.window()
            } else {
                before.window().drop_first()
            }).push(Point { t_secs: t, bytes })
            &&& forall|h: Seq<Point>|
                before.keeps(h) ==> #[trigger] after.keeps(h.push(Point { t_secs: t, bytes }))
        },
        None => after == before,
    }
}

fn step(series: &mut Trend, t: Double, bytes: Option<u64>) -> (r: Option<MemoryTrend>)
    requires
        old(series).wf(),
    ensures
        final(series).wf(),
        stepped(*old(series), *final(series), t, bytes),
        is_summary(*final(series), r),
{
    if let Some(b) = bytes {
        series.record(t, b);
    }
    series.summary()
}

/// `r` is what a series says, nothing while it is empty.
pub open spec fn is_summary(series: Trend, r: Option<MemoryTrend>) -> bool {
    &&& r is None <==> series.ring@.len() == 0
    &&& r matches Some(t) ==> trend::describes(series.ring@, t)
}

pub open spec fn rss_of(p: Option<ProcessMetrics>) -> Option<u64> {
    match p {
        Some(p) => Some(p.rss),
        None => None,
    }
}

pub open spec fn private_of(p: Option<ProcessMetrics>) -> Option<u64> {
    match p {
        Some(p) => p.private_bytes,
        None => None,
    }
}

pub open spec fn handles_of(p: Option<ProcessMetrics>) -> Option<u32> {
    match p {
        Some(p) => p.handles,
        None => None,
    }
}

pub open spec fn slope_of(m: MemoryHealth) -> Option<Double> {
    match m.honest() {
        Some(t) => t.slope_mib_per_hour,
        None => None,
    }
}

/// The monitor. The only state kept between calls is what a *rate* needs: the
/// previous reading, a bounded ring of memory readings, and the counters of the
/// previous snapshot. All of it dies with the process.
pub struct Apm {
    pub cfg: Config,
    pub started_ns: u64,
    pub last_snapshot_ns: Option<u64>,
    pub prev_reading: Reading,
    pub prev_net: Option<(u64, u64)>,
    pub prev_io: Option<(u64, u64)>,
    pub prev_watch: Vec<Seen>,
    pub prev_ops: Vec<PrevRow>,
    pub prev_errors: u64,
    pub prev_allocs: u64,
    pub rss_trend: Trend,
    pub private_trend: Trend,
}

impl Apm {
    /// Each pattern and each operation is remembered once, the series are rings,
    /// and nothing is remembered of a snapshot that was not taken.
    pub open spec fn wf(&self) -> bool {
        &&& rows::distinct(self.prev_watch@)
        &&& rows::distinct(self.prev_ops@)
        &&& self.rss_trend.wf()
        &&& self.private_trend.wf()
        &&& self.last_snapshot_ns is None ==> self.prev_reading.own is None
            && self.prev_reading.net is None && self.prev_net is None && self.prev_io is None
    }

    pub fn new(cfg: Config, now_ns: u64) -> (r: Apm)
        ensures
            r.wf(),
            r.cfg == cfg,
            r.started_ns == now_ns,
            r.last_snapshot_ns is None,
            r.prev_watch@.len() == 0,
            r.prev_ops@.len() == 0,
            r.prev_errors == 0,
            r.prev_allocs == 0,
            r.rss_trend.ring@.len() == 0,
            r.private_trend.ring@.len() == 0,
            r.rss_trend.keeps(Seq::empty()),
            r.private_trend.keeps(Seq::empty()),
    {
        Apm {
            cfg,
            started_ns: now_ns,
            last_snapshot_ns: None,
            prev_reading: Reading { own: None, net: None },
            prev_net: None,
            prev_io: None,
            prev_watch: Vec::new(),
            prev_ops: Vec::new(),
            prev_errors: 0,
            prev_allocs: 0,
            rss_trend: Trend::default(),
            private_trend: Trend::default(),
        }
    }

    pub fn config(&self) -> (r: &Config)
        ensures
            *r == self.cfg,
    {
        &self.cfg
    }

    /// Nanoseconds since the previous snapshot, `None` on the first.
    pub open spec fn gap(&self, now_ns: u64) -> Option<u64> {
        match self.last_snapshot_ns {
            Some(t) => Some(now_ns.saturating_sub(t)),
            None => None,
        }
    }

    /// Seconds since the previous snapshot, `None` on the first.
    pub open spec fn interval(&self, now_ns: u64) -> Option<Double> {
        match self.gap(now_ns) {
            Some(ns) => Some(seconds(ns)),
            None => None,
        }
    }

    /// This process, as the readings have it.
    pub open spec fn own(r: Readings) -> Option<ProcessMetrics> {
        process::self_of(r.processes@, r.pid, r.source, r.unix_secs)
    }

    /// The network, as the readings have it against the previous snapshot.
    pub open spec fn network(&self, r: Readings) -> Option<NetMetrics> {
        net::traffic_of(r.interfaces@, self.prev_net, self.interval(r.begun_ns))
    }

    /// The comparable slice of the readings.
    pub open spec fn slice(&self, r: Readings) -> Reading {
        reading_of(Self::own(r), self.network(r))
    }

    /// The readings can be taken: every configured check was probed, the sums
    /// fit their counters, and what was measured can be compared with the
    /// previous snapshot.
    pub open spec fn can_take(&self, r: Readings) -> bool {
        &&& r.probed@.len() == self.cfg.checks@.len()
        &&& sums_fit(Self::own(r), r.interfaces@)
        &&& triggers::comparable_readings(self.prev_reading, self.slice(r))
    }

    /// Whether the readings can be taken.
    pub fn accepts(&self, r: &Readings) -> (ok: bool)
        requires
            self.wf(),
        ensures
            ok == self.can_take(*r),
    {
        if r.probed.len() != self.cfg.checks.len() {
            return false;
        }
        let own: Option<ProcessMetrics> = process::self_metrics(
            &r.processes,
            r.pid,
            &r.source,
            r.unix_secs,
        );
        if let Some(p) = &own {
            if p.disk_read.checked_add(p.disk_written).is_none() {
                return false;
            }
        }
        if !net::totals_fit(&r.interfaces) {
            return false;
        }
        let interval: Option<Double> = self.interval_secs(r.begun_ns);
        let n: Option<NetMetrics> = net::collect(&r.interfaces, self.prev_net, interval);
        triggers::readings_in_range(&self.prev_reading, &reading(&own, &n))
    }

    fn interval_secs(&self, now_ns: u64) -> (r: Option<Double>)
        ensures
            r == self.interval(now_ns),
    {
        match self.last_snapshot_ns {
            Some(t) => Some(in_seconds(now_ns.saturating_sub(t))),
            None => None,
        }
    }

    /// Everything that holds of a report, the monitor before it and the monitor
    /// after it.
    pub open spec fn reports(
        &self,
        r: Readings,
        ops: Registry,
        log: ErrorLog,
        out: ApmReport,
        after: Apm,
    ) -> bool {
        let interval = self.interval(r.begun_ns);
        let own = Self::own(r);
        let t = seconds(r.read_ns.saturating_sub(self.started_ns));
        &&& out.identity.service == self.cfg.service
        &&& out.identity.version == self.cfg.version
        &&& out.identity.host == r.host
        &&& out.identity.pid == r.pid
        &&& out.ts_unix_ms == r.unix_ms
        &&& out.uptime_secs == r.done_ns.saturating_sub(self.started_ns) / 1_000_000_000
        &&& out.interval_ms == match self.gap(r.begun_ns) {
            Some(ns) => Some(ns / 1_000_000),
            None => None,
        }
        &&& system::describes(r.machine, out.system)
        &&& out.process == own
        &&& stepped(self.rss_trend, after.rss_trend, t, rss_of(own))
        &&& stepped(self.private_trend, after.private_trend, t, private_of(own))
        &&& is_summary(after.rss_trend, out.memory.rss)
        &&& is_summary(after.private_trend, out.memory.private)
        &&& out.memory.retention_bytes == retention_of(r.allocator, own)
        &&& out.io == io_of(own, self.prev_io, interval)
        &&& watch::found(
            self.cfg.watch@,
            r.processes@,
            r.unix_secs,
            watch::memory(self.prev_watch@),
            out.watched@,
        )
        &&& watch::memory(after.prev_watch@) == watch::memory_after(
            watch::memory(self.prev_watch@),
            out.watched@,
            out.watched@.len() as int,
        )
        &&& process::are_heaviest(
            r.processes@,
            self.cfg.top_n,
            r.unix_secs,
            out.top_processes@,
        )
        &&& out.disks@.len() == r.disks@.len()
        &&& forall|i: int|
            0 <= i < out.disks@.len() ==> #[trigger] out.disks@[i] == disk::listed(r.disks@[i])
        &&& out.net == self.network(r)
        &&& out.checks@.len() == self.cfg.checks@.len()
        &&& forall|i: int|
            0 <= i < out.checks@.len() ==> checks::is_result(
                self.cfg.checks@[i],
                r.probed@[i],
                r.processes@,
                r.disks@,
                #[trigger] out.checks@[i],
            )
        &&& scope::shows(ops, scope::baseline(self.prev_ops@), interval, out.ops@)
        &&& scope::baseline(after.prev_ops@) == scope::standing(ops)
        &&& errors::summarises(log, self.prev_errors, interval, out.errors)
        &&& after.prev_errors == log.total
        &&& out.alloc == alloc_of(r.allocator, self.prev_allocs, interval)
        &&& after.prev_allocs == match r.allocator {
            Some(a) => a.alloc_count,
            None => self.prev_allocs,
        }
        &&& triggers::said(out.triggers@) == triggers::crossings_between(
            self.cfg.thresholds,
            self.prev_reading,
            self.slice(r),
        )
        &&& report::said(out.verdicts@) == verdict::findings(
            self.cfg.limits,
            out.system,
            out.disks@,
            slope_of(out.memory),
            handles_of(own),
            out.ops@,
        )
        &&& out.overall == report::worst(out.collected())
        &&& after.cfg == self.cfg
        &&& after.started_ns == self.started_ns
        &&& after.last_snapshot_ns == Some(r.begun_ns)
        &&& after.prev_reading == self.slice(r)
        &&& after.prev_net == match out.net {
            Some(n) => Some((n.rx_total, n.tx_total)),
            None => None,
        }
        &&& after.prev_io == match own {
            Some(p) => Some((p.disk_read, p.disk_written)),
            None => None,
        }
    }

    fn run_checks(&self, r: &Readings) -> (out: Vec<CheckResult>)
        requires
            r.probed@.len() == self.cfg.checks@.len(),
        ensures
            out@.len() == self.cfg.checks@.len(),
            forall|i: int|
                0 <= i < out@.len() ==> checks::is_result(
                    self.cfg.checks@[i],
                    r.probed@[i],
                    r.processes@,
                    r.disks@,
                    #[trigger] out@[i],
                ),
    {
        let mut out: Vec<CheckResult> = Vec::new();
        let mut i: usize = 0;
        while i < self.cfg.checks.len()
            invariant
                i <= self.cfg.checks@.len(),
                out@.len() == i,
                r.probed@.len() == self.cfg.checks@.len(),
                forall|j: int|
                    0 <= j < i ==> checks::is_result(
                        self.cfg.checks@[j],
                        r.probed@[j],
                        r.processes@,
                        r.disks@,
                        #[trigger] out@[j],
                    ),
            decreases self.cfg.checks@.len() - i,
        {
            out.push(checks::run(&self.cfg.checks[i], &r.probed[i], &r.processes, &r.disks));
            i = i + 1;
        }
        out
    }

    /// Put everything that was measured into one report.
    ///
    /// Fail-open: a reading that is missing leaves its field as `None`; it never
    /// fails the report, because a monitor that refuses to answer during an
    /// incident is worse than one that answers partially.
    ///
    /// # Cost
    ///
    /// The expensive part is enumerating processes, which is why the readings
    /// need the full list only when [`Config::needs_all_processes`] says so: for
    /// a watch pattern, a `ProcessAlive` check, or `top_n`. With none of those,
    /// this process alone is enough.
    pub fn snapshot(&mut self, r: &Readings, ops: &Registry, log: &ErrorLog) -> (out: ApmReport)
        requires
            old(self).wf(),
            old(self).can_take(*r),
            ops.wf(),
        ensures
            final(self).wf(),
            old(self).reports(*r, *ops, *log, out, *final(self)),
    {
        let interval_ms: Option<u64> = match self.last_snapshot_ns {
            Some(t) => Some(r.begun_ns.saturating_sub(t) / 1_000_000),
            None => None,
        };
        let interval_secs: Option<Double> = self.interval_secs(r.begun_ns);
        self.last_snapshot_ns = Some(r.begun_ns);

        let system: Option<SystemMetrics> = system::collect(&r.machine);
        let own: Option<ProcessMetrics> = process::self_metrics(
            &r.processes,
            r.pid,
            &r.source,
            r.unix_secs,
        );
        let net: Option<NetMetrics> = net::collect(&r.interfaces, self.prev_net, interval_secs);
        let disks: Vec<DiskMetrics> = disk::collect(&r.disks);
        let watched: Vec<WatchedProcess> = watch::scan(
            &self.cfg.watch,
            &r.processes,
            r.unix_secs,
            &mut self.prev_watch,
        );
        let top_processes: Vec<ProcessMetrics> = process::top_by_rss(
            &r.processes,
            self.cfg.top_n,
            r.unix_secs,
        );
        let check_results: Vec<CheckResult> = self.run_checks(r);

        // --- memory over time -------------------------------------------------
        let t: Double = in_seconds(r.read_ns.saturating_sub(self.started_ns));
        let (rss, private): (Option<u64>, Option<u64>) = match &own {
            Some(p) => (Some(p.rss), p.private_bytes),
            None => (None, None),
        };
        let memory = MemoryHealth {
            rss: step(&mut self.rss_trend, t, rss),
            private: step(&mut self.private_trend, t, private),
            retention_bytes: retention_bytes(&r.allocator, &own),
        };

        // --- rates ------------------------------------------------------------
        let io: Option<IoRates> = io_rates(&own, self.prev_io, interval_secs);
        let op_rows: Vec<OpTiming> = scope::snapshot(ops, &mut self.prev_ops, interval_secs);
        let error_summary: ErrorSummary = errors::summary(log, &mut self.prev_errors, interval_secs);
        let alloc: Option<AllocStats> = alloc_stats(
            &r.allocator,
            &mut self.prev_allocs,
            interval_secs,
        );

        // --- findings ---------------------------------------------------------
        let current: Reading = reading(&own, &net);
        let trig: Vec<Trigger> = triggers::evaluate_readings(
            &self.cfg.thresholds,
            &self.prev_reading,
            &current,
        );

        // Private bytes is the honest series where it exists: the working set
        // falls when the OS trims pages, which would read as a leak curing
        // itself.
        let leak: Option<MemoryTrend> = memory.leak_series();
        let verd: Vec<Verdict> = verdict::evaluate(
            &self.cfg.limits,
            &Inputs {
                system: system.as_ref(),
                process: own.as_ref(),
                disks: disks.as_slice(),
                memory_trend: leak.as_ref(),
                ops: op_rows.as_slice(),
            },
        );
        let overall: Health = report::roll_up(&verd, &check_results, &watched);

        self.prev_net = match &net {
            Some(n) => Some((n.rx_total, n.tx_total)),
            None => None,
        };
        self.prev_io = match &own {
            Some(p) => Some((p.disk_read, p.disk_written)),
            None => None,
        };
        self.prev_reading = current;

        ApmReport {
            identity: Identity {
                service: self.cfg.service.clone(),
                version: self.cfg.version.clone(),
                host: r.host.clone(),
                pid: r.pid,
            },
            ts_unix_ms: r.unix_ms,
            uptime_secs: r.done_ns.saturating_sub(self.started_ns) / 1_000_000_000,
            interval_ms,
            system,
            process: own,
            memory,
            io,
            watched,
            top_processes,
            disks,
            net,
            checks: check_results,
            ops: op_rows,
            errors: error_summary,
            alloc,
            triggers: trig,
            verdicts: verd,
            overall,
        }
    }
}

/// Every rate is missing from the first report: there is no interval to divide
/// by yet, and nothing to compare with.
pub proof fn the_first_report_has_no_rates(
    before: Apm,
    r: Readings,
    ops: Registry,
    log: ErrorLog,
    out: ApmReport,
    after: Apm,
)
    requires
        before.wf(),
        before.last_snapshot_ns is None,
        before.reports(r, ops, log, out, after),
    ensures
        out.interval_ms is None,
        out.io matches Some(io) ==> io.read_per_sec is None && io.written_per_sec is None
            && io.read_delta == 0 && io.written_delta == 0,
        out.net matches Some(n) ==> n.rx_per_sec is None && n.tx_per_sec is None,
        out.errors.per_sec is None,
        out.alloc matches Some(a) ==> a.allocs_per_sec is None,
        forall|i: int|
            0 <= i < out.ops@.len() ==> (#[trigger] out.ops@[i]).per_sec is None
                && out.ops@[i].error_rate is None,
        out.triggers@.len() == 0,
{
    assert(triggers::said(out.triggers@).len() == out.triggers@.len());
    let m = scope::baseline(before.prev_ops@);
    let p = choose|p: Seq<usize>| #[trigger] scope::shows_in(ops, m, None, out.ops@, p);
    assert(scope::shows_in(ops, m, None, out.ops@, p));
}

/// A report that follows another has an interval, the time between the two in
/// whole milliseconds, and its deltas are what the totals grew by since. An
/// operation that the first report does not list grew from zero, and so did all
/// of them where they were forgotten in between.
pub proof fn a_later_report_has_an_interval(
    first: Apm,
    r1: Readings,
    ops1: Registry,
    log1: ErrorLog,
    out1: ApmReport,
    second: Apm,
    r2: Readings,
    ops2: Registry,
    log2: ErrorLog,
    out2: ApmReport,
    after: Apm,
)
    requires
        ops1.wf(),
        first.reports(r1, ops1, log1, out1, second),
        second.reports(r2, ops2, log2, out2, after),
    ensures
        out2.interval_ms == Some((r2.begun_ns.saturating_sub(r1.begun_ns) / 1_000_000) as u64),
        out2.errors.delta == out2.errors.total.saturating_sub(out1.errors.total),
        out1.net matches Some(n1) ==> (out2.net matches Some(n2) ==> n2.rx_delta
            == n2.rx_total.saturating_sub(n1.rx_total) && n2.tx_delta == n2.tx_total.saturating_sub(
            n1.tx_total,
        )),
        out1.io matches Some(i1) ==> (out2.io matches Some(i2) ==> i2.read_delta
            == i2.read_total.saturating_sub(i1.read_total) && i2.written_delta
            == i2.written_total.saturating_sub(i1.written_total)),
        ops1.era == ops2.era ==> forall|i: int, j: int|
            #![trigger out2.ops@[i], out1.ops@[j]]
            0 <= i < out2.ops@.len() && 0 <= j < out1.ops@.len() && out2.ops@[i].name@
                == out1.ops@[j].name@ ==> out2.ops@[i].count_delta
                == out2.ops@[i].count.saturating_sub(out1.ops@[j].count)
                && out2.ops@[i].errors_delta == out2.ops@[i].errors.saturating_sub(
                out1.ops@[j].errors,
            ),
        forall|i: int|
            0 <= i < out2.ops@.len() && (ops1.era != ops2.era || !lists(
                out1.ops@,
                (#[trigger] out2.ops@[i]).name@,
            )) ==> out2.ops@[i].count_delta == out2.ops@[i].count && out2.ops@[i].errors_delta
                == out2.ops@[i].errors,
{
    let (m1, m2) = (scope::baseline(first.prev_ops@), scope::standing(ops1));
    let (s1, s2) = (first.interval(r1.begun_ns), second.interval(r2.begun_ns));
    let p1 = choose|p: Seq<usize>| #[trigger] scope::shows_in(ops1, m1, s1, out1.ops@, p);
    let p2 = choose|p: Seq<usize>| #[trigger] scope::shows_in(ops2, m2, s2, out2.ops@, p);
    assert(scope::shows_in(ops1, m1, s1, out1.ops@, p1));
    assert(scope::shows_in(ops2, m2, s2, out2.ops@, p2));
    if ops1.era == ops2.era {
        assert forall|i: int, j: int|
            #![trigger out2.ops@[i], out1.ops@[j]]
            0 <= i < out2.ops@.len() && 0 <= j < out1.ops@.len() && out2.ops@[i].name@
                == out1.ops@[j].name@ implies out2.ops@[i].count_delta
            == out2.ops@[i].count.saturating_sub(out1.ops@[j].count) && out2.ops@[i].errors_delta
            == out2.ops@[i].errors.saturating_sub(out1.ops@[j].errors) by {
            let a = p1[j] as int;
            rows::lemma_index_named(ops1.ops@, a);
            assert(ops1.ops@[a].name@ == out1.ops@[j].name@);
        }
    }
    assert forall|i: int|
        0 <= i < out2.ops@.len() && (ops1.era != ops2.era || !lists(
            out1.ops@,
            (#[trigger] out2.ops@[i]).name@,
        )) implies out2.ops@[i].count_delta == out2.ops@[i].count && out2.ops@[i].errors_delta
        == out2.ops@[i].errors by {
        let n = out2.ops@[i].name@;
        if rows::has_name(ops1.ops@, n) && !lists(out1.ops@, n) {
            let a = rows::index_named(ops1.ops@, n);
            rows::lemma_permutes_all(p1, ops1.ops@.len(), a);
            let j = choose|j: int| 0 <= j < p1.len() && #[trigger] p1[j] == a;
            assert(out1.ops@[j].name == ops1.ops@[a].name);
            assert(ops1.ops@[a].name@ == n);
        }
    }
}

/// Whether an operation is listed.
pub open spec fn lists(ops: Seq<OpTiming>, name: Seq<char>) -> bool {
    exists|j: int| 0 <= j < ops.len() && (#[trigger] ops[j]).name@ == name
}

/// What was not measured trips nothing: between two reports, a metric of this
/// process is reported only where both measured the process, and the net only
/// where both measured the net.
pub proof fn unmeasured_trips_nothing(
    first: Apm,
    r1: Readings,
    ops1: Registry,
    log1: ErrorLog,
    out1: ApmReport,
    second: Apm,
    r2: Readings,
    ops2: Registry,
    log2: ErrorLog,
    out2: ApmReport,
    after: Apm,
)
    requires
        first.reports(r1, ops1, log1, out1, second),
        second.reports(r2, ops2, log2, out2, after),
    ensures
        forall|i: int|
            0 <= i < out2.triggers@.len() ==> if (#[trigger] out2.triggers@[i]).metric
                == Metric::Net {
                out1.net is Some && out2.net is Some
            } else {
                out1.process is Some && out2.process is Some
            },
{
    let th = second.cfg.thresholds;
    let c = triggers::said(out2.triggers@);
    triggers::only_what_was_measured_twice_trips(th, second.prev_reading, second.slice(r2));
    assert forall|i: int| 0 <= i < out2.triggers@.len() implies if (
    #[trigger] out2.triggers@[i]).metric == Metric::Net {
        out1.net is Some && out2.net is Some
    } else {
        out1.process is Some && out2.process is Some
    } by {
        assert(c[i].metric == out2.triggers@[i].metric);
        assert(triggers::reports(c, c[i].metric));
    }
}

/// An empty list of problems is itself the answer: a report is healthy exactly
/// when it lists none.
pub proof fn healthy_reports_list_no_problems(
    before: Apm,
    r: Readings,
    ops: Registry,
    log: ErrorLog,
    out: ApmReport,
    after: Apm,
)
    requires
        before.reports(r, ops, log, out, after),
    ensures
        out.overall == Health::Healthy <==> out.problem_lines().len() == 0,
{
    verdict::verdicts_are_bad_news(
        before.cfg.limits,
        out.system,
        out.disks@,
        slope_of(out.memory),
        handles_of(Apm::own(r)),
        out.ops@,
    );
    let f = report::said(out.verdicts@);
    assert forall|i: int| 0 <= i < out.verdicts@.len() implies (#[trigger] out.verdicts@[i]).level
        != Health::Healthy by {
        assert(f[i] == out.verdicts@[i]@);
        assert(f[i].level != Health::Healthy);
    }
    report::healthy_means_no_problems(out);
}

/// The heaviest processes are off unless requested.
pub proof fn top_processes_are_off_unless_requested(
    before: Apm,
    r: Readings,
    ops: Registry,
    log: ErrorLog,
    out: ApmReport,
    after: Apm,
)
    requires
        before.reports(r, ops, log, out, after),
    ensures
        before.cfg.top_n == 0 ==> out.top_processes@.len() == 0,
        out.top_processes@.len() <= before.cfg.top_n,
{
}

/// The history of a series after one snapshot: one reading more, if there was
/// one to take.
pub open spec fn continued(history: Seq<Point>, t: Double, bytes: Option<u64>) -> Seq<Point> {
    match bytes {
        Some(bytes) => history.push(Point { t_secs: t, bytes }),
        None => history,
    }
}

/// A summary says what the newest readings of a history come to.
pub open spec fn sums_up(history: Seq<Point>, r: Option<MemoryTrend>) -> bool {
    let w = trend::newest(history);
    &&& r is None <==> history.len() == 0
    &&& r matches Some(t) ==> t.samples == w.len() && trend::is_floor(w, t.floor)
        && trend::is_peak(w, t.peak) && t.window_secs == trend::span_of(w).truncated()
}

proof fn lemma_series(before: Trend, after: Trend, h: Seq<Point>, t: Double, bytes: Option<u64>)
    requires
        after.wf(),
        before.keeps(h),
        stepped(before, after, t, bytes),
    ensures
        after.keeps(continued(h, t, bytes)),
        forall|r: Option<MemoryTrend>|
            is_summary(after, r) ==> #[trigger] sums_up(continued(h, t, bytes), r),
{
    let now = continued(h, t, bytes);
    assert(after.keeps(now));
    assert(after.window().len() == after.ring@.len());
    assert forall|r: Option<MemoryTrend>| is_summary(after, r) implies #[trigger] sums_up(now, r) by {
        if r is Some {
            trend::the_newest_readings_count(after, now, r->0);
        }
    }
}

/// A snapshot adds one reading to each series that it measured, and the series
/// stay bounded: each report sums up the newest readings of the whole history.
pub proof fn the_trend_accumulates(
    before: Apm,
    r: Readings,
    ops: Registry,
    log: ErrorLog,
    out: ApmReport,
    after: Apm,
    rss: Seq<Point>,
    private: Seq<Point>,
)
    requires
        after.wf(),
        before.reports(r, ops, log, out, after),
        before.rss_trend.keeps(rss),
        before.private_trend.keeps(private),
    ensures
        ({
            let t = seconds(r.read_ns.saturating_sub(before.started_ns));
            let (rss, private) = (
                continued(rss, t, rss_of(out.process)),
                continued(private, t, private_of(out.process)),
            );
            &&& after.rss_trend.keeps(rss)
            &&& after.private_trend.keeps(private)
            &&& sums_up(rss, out.memory.rss)
            &&& sums_up(private, out.memory.private)
        }),
{
    let t = seconds(r.read_ns.saturating_sub(before.started_ns));
    lemma_series(before.rss_trend, after.rss_trend, rss, t, rss_of(out.process));
    lemma_series(before.private_trend, after.private_trend, private, t, private_of(out.process));
}

/// The disk I/O of this process: its totals, what they grew by since the previous
/// snapshot, and that growth spread over the interval. On the first one nothing
/// grew and nothing is rated.
pub proof fn io_is_counted_and_spread(p: ProcessMetrics, w: (u64, u64), interval: Option<Double>)
    ensures
        io_of(None, Some(w), interval) is None,
        io_of(Some(p), None, interval) matches Some(io) && io.read_total == p.disk_read
            && io.written_total == p.disk_written && io.read_delta == 0 && io.written_delta == 0
            && io.read_per_sec is None && io.written_per_sec is None,
        io_of(Some(p), Some(w), interval) matches Some(io) && {
            &&& io.read_total == p.disk_read
            &&& io.written_total == p.disk_written
            &&& io.read_delta == if p.disk_read < w.0 {
                0
            } else {
                p.disk_read - w.0
            }
            &&& io.written_delta == if p.disk_written < w.1 {
                0
            } else {
                p.disk_written - w.1
            }
            &&& report::spreads(io.read_per_sec, io.read_delta, interval)
            &&& report::spreads(io.written_per_sec, io.written_delta, interval)
        },
{
    let io = io_of(Some(p), Some(w), interval)->0;
    report::a_rate_spreads_its_count(io.read_delta, interval);
    report::a_rate_spreads_its_count(io.written_delta, interval);
}

/// The allocator's counters are reported as they stand, and its churn is the
/// allocations since the last look, spread over the interval.
pub proof fn churn_is_counted_and_spread(a: CountingAlloc, prev: u64, interval: Option<Double>)
    ensures
        alloc_of(None, prev, interval) is None,
        alloc_of(Some(a), prev, interval) matches Some(x) && {
            &&& x.allocated_total == a.allocated
            &&& x.freed_total == a.freed
            &&& x.alloc_count == a.alloc_count
            &&& x.dealloc_count == a.dealloc_count
            &&& a.freed <= a.allocated ==> x.live_bytes == a.allocated - a.freed
            &&& 0 < prev <= a.alloc_count ==> report::spreads(
                x.allocs_per_sec,
                (a.alloc_count - prev) as u64,
                interval,
            )
            &&& prev == 0 ==> x.allocs_per_sec is None
        },
{
    if prev <= a.alloc_count {
        report::a_rate_spreads_its_count((a.alloc_count - prev) as u64, interval);
    }
}

/// Retention is the committed memory that is not live: private bytes where they
/// are known, the working set otherwise.
pub proof fn retention_is_committed_and_not_live(a: CountingAlloc, p: ProcessMetrics)
    requires
        a.freed <= a.allocated,
    ensures
        ({
            let committed = if p.private_bytes is Some {
                p.private_bytes->0 as int
            } else {
                p.rss as int
            };
            let live = a.allocated - a.freed;
            retention_of(Some(a), Some(p)) matches Some(x) && x == if committed < live {
                0
            } else {
                committed - live
            }
        }),
        retention_of(None, Some(p)) is None,
        retention_of(Some(a), None) is None,
{
}

/// Nanoseconds in seconds, up to six parts in `2^53`.
pub proof fn seconds_are_billions_of_nanoseconds(ns: u64)
    ensures
        accuracy::near(seconds(ns), ns as int, 1_000_000_000, 6),
{
    accuracy::lemma_seconds_near(ns);
}

/// A report tells who made it, when, how long the monitor had been running and how
/// long ago the previous report was.
pub proof fn a_report_tells_its_time(
    before: Apm,
    r: Readings,
    ops: Registry,
    log: ErrorLog,
    out: ApmReport,
    after: Apm,
)
    requires
        before.reports(r, ops, log, out, after),
        r.done_ns >= before.started_ns,
    ensures
        out.identity.service == before.cfg.service,
        out.identity.version == before.cfg.version,
        out.identity.host == r.host,
        out.identity.pid == r.pid,
        out.ts_unix_ms == r.unix_ms,
        out.uptime_secs * 1_000_000_000 <= r.done_ns - before.started_ns < (out.uptime_secs + 1)
            * 1_000_000_000,
        before.last_snapshot_ns is None <==> out.interval_ms is None,
        before.last_snapshot_ns is Some && before.last_snapshot_ns->0 <= r.begun_ns
            ==> out.interval_ms->0 * 1_000_000 <= r.begun_ns - before.last_snapshot_ns->0 < (
        out.interval_ms->0 + 1) * 1_000_000,
        after.last_snapshot_ns == Some(r.begun_ns),
        after.started_ns == before.started_ns,
        after.cfg == before.cfg,
{
}

/// The overall health of a report is the worst of everything in it.
pub proof fn the_overall_health_is_the_worst_found(
    before: Apm,
    r: Readings,
    ops: Registry,
    log: ErrorLog,
    out: ApmReport,
    after: Apm,
)
    requires
        before.reports(r, ops, log, out, after),
    ensures
        out.overall == Health::Unhealthy <==> report::laws::verdict_at(out, Health::Unhealthy)
            || report::laws::check_at(out, Health::Unhealthy) || report::laws::one_gone(out),
        out.overall == Health::Healthy <==> !report::laws::verdict_at(out, Health::Unhealthy)
            && !report::laws::check_at(out, Health::Unhealthy) && !report::laws::one_gone(out)
            && !report::laws::verdict_at(out, Health::Degraded) && !report::laws::check_at(
            out,
            Health::Degraded,
        ) && !report::laws::one_restarted(out),
{
    report::laws::the_worst_of_everything_decides(out);
}

/// The verdicts of a report judge what the report itself shows.
pub proof fn the_verdicts_judge_the_report(
    before: Apm,
    r: Readings,
    ops: Registry,
    log: ErrorLog,
    out: ApmReport,
    after: Apm,
)
    requires
        before.reports(r, ops, log, out, after),
    ensures
        report::said(out.verdicts@) == verdict::findings(
            before.cfg.limits,
            out.system,
            out.disks@,
            if out.memory.private is Some {
                out.memory.private->0.slope_mib_per_hour
            } else if out.memory.rss is Some {
                out.memory.rss->0.slope_mib_per_hour
            } else {
                None
            },
            if out.process is Some {
                out.process->0.handles
            } else {
                None
            },
            out.ops@,
        ),
{
}

/// A report shows what was read: this process by its id, the machine, the disks,
/// and the network against the previous snapshot.
pub proof fn a_report_shows_what_was_read(
    before: Apm,
    r: Readings,
    ops: Registry,
    log: ErrorLog,
    out: ApmReport,
    after: Apm,
)
    requires
        before.reports(r, ops, log, out, after),
    ensures
        out.process == process::self_of(r.processes@, r.pid, r.source, r.unix_secs),
        system::describes(r.machine, out.system),
        out.net == net::traffic_of(
            r.interfaces@,
            before.prev_net,
            if before.last_snapshot_ns is Some {
                Some(seconds(r.begun_ns.saturating_sub(before.last_snapshot_ns->0)))
            } else {
                None
            },
        ),
        out.disks@.len() == r.disks@.len(),
        forall|i: int|
            0 <= i < out.disks@.len() ==> (#[trigger] out.disks@[i]).mount == r.disks@[i].mount
                && out.disks@[i].total == r.disks@[i].total && out.disks@[i].free
                == r.disks@[i].free && out.disks@[i].name == r.disks@[i].name,
        out.checks@.len() == before.cfg.checks@.len(),
        out.watched@.len() == before.cfg.watch@.len(),
        out.errors.total == log.total,
        out.errors.last == log.last,
        out.process matches Some(p) ==> after.prev_io == Some((p.disk_read, p.disk_written)),
        out.process is None ==> after.prev_io is None,
        out.net matches Some(n) ==> after.prev_net == Some((n.rx_total, n.tx_total)),
        out.net is None ==> after.prev_net is None,
        after.prev_errors == log.total,
{
    assert forall|i: int| 0 <= i < out.disks@.len() implies (#[trigger] out.disks@[i]).mount
        == r.disks@[i].mount && out.disks@[i].total == r.disks@[i].total && out.disks@[i].free
        == r.disks@[i].free && out.disks@[i].name == r.disks@[i].name by {
        assert(out.disks@[i] == disk::listed(r.disks@[i]));
    }
}

/// What a report has to compare: what was measured of the process and of the net.
pub open spec fn to_compare(out: ApmReport) -> Reading {
    Reading {
        own: if out.process is Some {
            Some(
                Own {
                    ram: out.process->0.rss,
                    cpu: out.process->0.cpu_pct,
                    disk: (out.process->0.disk_read + out.process->0.disk_written) as u64,
                },
            )
        } else {
            None
        },
        net: if out.net is Some {
            Some((out.net->0.rx_total + out.net->0.tx_total) as u64)
        } else {
            None
        },
    }
}

/// The triggers of a report compare it with the report before it.
pub proof fn triggers_compare_two_reports(
    first: Apm,
    r1: Readings,
    ops1: Registry,
    log1: ErrorLog,
    out1: ApmReport,
    second: Apm,
    r2: Readings,
    ops2: Registry,
    log2: ErrorLog,
    out2: ApmReport,
    after: Apm,
)
    requires
        first.reports(r1, ops1, log1, out1, second),
        second.reports(r2, ops2, log2, out2, after),
    ensures
        triggers::said(out2.triggers@) == triggers::crossings_between(
            first.cfg.thresholds,
            to_compare(out1),
            to_compare(out2),
        ),
{
}

} // verus!
