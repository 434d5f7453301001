//! Every result type the crate returns. Plain data, no I/O.
//!
//! Two rules hold throughout:
//!
//! 1. A field that could not be measured is `None`, never a guessed number.
//!    A guessed number is worse than no number, because it gets believed.
//! 2. Cumulative counters are paired with their interval delta. A lifetime
//!    total answers "how much since boot"; only the delta answers "what is
//!    happening now".

pub mod laws;

use crate::float::accuracy;
use crate::float::double;
use crate::float::double::Double;
use crate::float::rounding;
use crate::float::single;
use crate::float::single::Single;
use crate::text;
use crate::text::{push_no_place, push_one_place, push_u64};
use crate::trend::MemoryTrend;
use vstd::arithmetic::power2;
use vstd::prelude::*;
use vstd::string::StringExecFns;

verus! {

/// Health ladder. Ordered: `Healthy < Degraded < Unhealthy`.
#[derive(Debug, Clone, Copy, PartialEq, Eq, PartialOrd, Ord, Structural)]
pub enum Health {
    Healthy,
    Degraded,
    Unhealthy,
}

impl Health {
    /// Rung on the ladder.
    pub open spec fn rung(self) -> int {
        match self {
            Health::Healthy => 0,
            Health::Degraded => 1,
            Health::Unhealthy => 2,
        }
    }

    pub fn is_healthy(self) -> (r: bool)
        ensures
            r == (self == Health::Healthy),
    {
        self == Health::Healthy
    }

    /// The worse of two, so that folding it over a set of findings yields the
    /// worst one.
    pub fn worse(self, other: Health) -> (r: Health)
        ensures
            r == worse_of(self, other),
    {
        match (self, other) {
            (Health::Unhealthy, _) => Health::Unhealthy,
            (_, Health::Unhealthy) => Health::Unhealthy,
            (Health::Degraded, _) => Health::Degraded,
            (_, Health::Degraded) => Health::Degraded,
            _ => Health::Healthy,
        }
    }

    /// The name of the rung.
    pub open spec fn label(self) -> Seq<char> {
        match self {
            Health::Healthy => "Healthy"@,
            Health::Degraded => "Degraded"@,
            Health::Unhealthy => "Unhealthy"@,
        }
    }

    fn name(self) -> (r: &'static str)
        ensures
            r@ == self.label(),
    {
        match self {
            Health::Healthy => "Healthy",
            Health::Degraded => "Degraded",
            Health::Unhealthy => "Unhealthy",
        }
    }
}

/// The worse of two.
pub open spec fn worse_of(a: Health, b: Health) -> Health {
    if a.rung() < b.rung() {
        b
    } else {
        a
    }
}

/// Who produced the report.
#[derive(Debug, Clone)]
pub struct Identity {
    pub service: String,
    pub version: String,
    pub host: Option<String>,
    pub pid: u32,
}

/// `part` as a percentage of `whole`.
pub open spec fn percentage(part: u64, whole: u64) -> Double {
    double::product(
        double::quotient(double::of_quotient(part as nat, 1), double::of_quotient(whole as nat, 1)),
        double::of_quotient(100, 1),
    )
}

/// A part is at most everything: a percentage lies between nought and a
/// hundred.
pub proof fn a_part_is_at_most_everything(part: u64, whole: u64)
    requires
        part <= whole,
        whole > 0,
    ensures
        !percentage(part, whole).is_nan(),
        0 <= percentage(part, whole).rank() <= double::of_quotient(100, 1).rank(),
{
    let (a, b) = (double::of_quotient(part as nat, 1), double::of_quotient(whole as nat, 1));
    double::lemma_integers_are_ordered(part, whole);
    double::lemma_share(a, b);
    double::lemma_small_integer(100);
    double::lemma_part_of(double::quotient(a, b), 100);
}

/// A percentage is the share it names: `part` hundredths of `whole` up to six
/// parts in `2^53`, all of it is exactly a hundred, and it grows with the part.
pub proof fn a_percentage_is_the_share_it_names(part: u64, whole: u64, more: u64)
    requires
        whole > 0,
    ensures
        accuracy::near(percentage(part, whole), 100 * part, whole as int, 6),
        percentage(whole, whole) == double::of_quotient(100, 1),
        part <= more ==> percentage(part, whole).rank() <= percentage(more, whole).rank(),
{
    accuracy::lemma_percentage_near(part, whole);
    let u = power2::pow2(double::UNIT as nat);
    let w = double::of_quotient(whole as nat, 1);
    double::lemma_integers_are_ordered(whole, whole);
    double::lemma_on_grid(w.position());
    let x = double::magnitude(w.units());
    power2::lemma_pow2_pos(double::UNIT as nat);
    assert(x * u == u * x && 1 * x == x && 1 * u == u) by (nonlinear_arith);
    rounding::lemma_nearest_scales(u, 1, x, 52, double::INFINITY as nat);
    assert(double::quotient(w, w) == double::of_quotient(1, 1));
    double::lemma_product_with_one(100);
    if part <= more {
        let (a, b) = (double::of_quotient(part as nat, 1), double::of_quotient(more as nat, 1));
        let h = double::of_quotient(100, 1);
        double::lemma_integers_are_ordered(part, more);
        double::lemma_small_integer(100);
        double::lemma_quotient_keeps_order(a, b, w);
        double::lemma_product_keeps_order(double::quotient(a, w), double::quotient(b, w), h);
    }
}

fn percent(part: u64, whole: u64) -> (r: Double)
    ensures
        r == percentage(part, whole),
{
    Double::from_u64(part).over(Double::from_u64(whole)).times(Double::from_u64(100))
}

/// Whole-machine view.
#[derive(Debug, Clone)]
pub struct SystemMetrics {
    /// Total CPU across all cores, 0..100.
    pub cpu_pct: Single,
    pub cpu_per_core: Vec<Single>,
    pub cores: usize,
    /// 1/5/15-minute load average. `None` on Windows, which has no equivalent.
    pub load_avg: Option<(Double, Double, Double)>,
    pub ram_total: u64,
    pub ram_used: u64,
    pub ram_free: u64,
    pub swap_total: u64,
    pub swap_used: u64,
}

/// Memory in use is a percentage of the memory there is, swap of the swap there
/// is; a machine without either has none.
pub proof fn usage_is_a_share_of_its_own_total(s: SystemMetrics)
    ensures
        s.ram_share() is None <==> s.ram_total == 0,
        s.swap_share() is None <==> s.swap_total == 0,
        s.ram_share() matches Some(x) ==> accuracy::near(
            x,
            100 * s.ram_used,
            s.ram_total as int,
            6,
        ),
        s.swap_share() matches Some(x) ==> accuracy::near(
            x,
            100 * s.swap_used,
            s.swap_total as int,
            6,
        ),
{
    if s.ram_total > 0 {
        accuracy::lemma_percentage_near(s.ram_used, s.ram_total);
    }
    if s.swap_total > 0 {
        accuracy::lemma_percentage_near(s.swap_used, s.swap_total);
    }
}

impl SystemMetrics {
    pub open spec fn ram_share(&self) -> Option<Double> {
        if self.ram_total > 0 {
            Some(percentage(self.ram_used, self.ram_total))
        } else {
            None
        }
    }

    pub open spec fn swap_share(&self) -> Option<Double> {
        if self.swap_total > 0 {
            Some(percentage(self.swap_used, self.swap_total))
        } else {
            None
        }
    }

    pub fn ram_used_pct(&self) -> (r: Option<Double>)
        ensures
            r == self.ram_share(),
            r matches Some(x) ==> accuracy::near(x, 100 * self.ram_used, self.ram_total as int, 6),
    {
        proof {
            usage_is_a_share_of_its_own_total(*self);
        }
        if self.ram_total > 0 {
            Some(percent(self.ram_used, self.ram_total))
        } else {
            None
        }
    }

    pub fn swap_used_pct(&self) -> (r: Option<Double>)
        ensures
            r == self.swap_share(),
            r matches Some(x) ==> accuracy::near(
                x,
                100 * self.swap_used,
                self.swap_total as int,
                6,
            ),
    {
        proof {
            usage_is_a_share_of_its_own_total(*self);
        }
        if self.swap_total > 0 {
            Some(percent(self.swap_used, self.swap_total))
        } else {
            None
        }
    }
}

/// One process — this one, or one watched by name.
///
/// Two numbers that disagree on purpose: `rss` (working set, which shrinks when
/// the OS trims pages and so reads as a fake improvement) and `private_bytes`
/// (what the process actually still owns). Compare them before trusting either.
#[derive(Debug, Clone)]
pub struct ProcessMetrics {
    pub pid: u32,
    pub name: String,
    pub rss: u64,
    pub private_bytes: Option<u64>,
    pub peak_rss: Option<u64>,
    /// Percent of one core; above 100 means several cores busy.
    pub cpu_pct: Single,
    /// Kernel + user CPU burned since process start.
    pub cpu_time_ms: Option<u64>,
    pub threads: Option<u32>,
    /// Open kernel handles. A number that only ever climbs is a handle leak.
    pub handles: Option<u32>,
    /// Page faults since start. Rising fast under flat RSS means thrashing.
    pub page_faults: Option<u64>,
    pub uptime_secs: u64,
    pub disk_read: u64,
    pub disk_written: u64,
    pub disk_read_ops: Option<u64>,
    pub disk_write_ops: Option<u64>,
}

/// What was trimmed is what the process owns beyond its working set.
pub proof fn trimmed_is_owned_but_not_resident(p: ProcessMetrics)
    ensures
        p.trimmed() is Some <==> p.private_bytes is Some,
        p.private_bytes matches Some(owned) ==> (p.trimmed() matches Some(x) && x == if owned
            < p.rss {
            0
        } else {
            owned - p.rss
        }),
{
}

impl ProcessMetrics {
    /// What the process owns beyond its working set.
    pub open spec fn trimmed(&self) -> Option<u64> {
        match self.private_bytes {
            Some(p) => Some(p.saturating_sub(self.rss)),
            None => None,
        }
    }

    /// How far the working set has been trimmed below what the process owns.
    ///
    /// A large gap means `rss` is flattering: the pages are still committed,
    /// the OS has just paged them out of the resident set.
    pub fn trimmed_bytes(&self) -> (r: Option<u64>)
        ensures
            r == self.trimmed(),
            r is Some <==> self.private_bytes is Some,
            self.private_bytes matches Some(owned) ==> (owned >= self.rss ==> r->0 + self.rss
                == owned),
    {
        match self.private_bytes {
            Some(p) => Some(p.saturating_sub(self.rss)),
            None => None,
        }
    }
}

#[derive(Debug, Clone)]
pub struct DiskMetrics {
    pub name: String,
    pub mount: String,
    pub total: u64,
    pub free: u64,
}

/// Free space is a percentage of the size of the filesystem; one without a size
/// has none.
pub proof fn free_space_is_a_share_of_the_size(d: DiskMetrics)
    ensures
        d.free_share() is None <==> d.total == 0,
        d.free_share() matches Some(x) ==> accuracy::near(x, 100 * d.free, d.total as int, 6),
{
    if d.total > 0 {
        accuracy::lemma_percentage_near(d.free, d.total);
    }
}

impl DiskMetrics {
    pub open spec fn free_share(&self) -> Option<Double> {
        if self.total > 0 {
            Some(percentage(self.free, self.total))
        } else {
            None
        }
    }

    pub fn free_pct(&self) -> (r: Option<Double>)
        ensures
            r == self.free_share(),
            r matches Some(x) ==> accuracy::near(x, 100 * self.free, self.total as int, 6),
    {
        proof {
            free_space_is_a_share_of_the_size(*self);
        }
        if self.total > 0 {
            Some(percent(self.free, self.total))
        } else {
            None
        }
    }
}

/// What a count over an interval works out to per second. `None` without an
/// interval, or with one that nothing can be divided by.
pub open spec fn rate(count: u64, interval: Option<Double>) -> Option<Double> {
    match interval {
        Some(s) => if double::of_quotient(0, 1).below(s) {
            Some(double::quotient(double::of_quotient(count as nat, 1), s))
        } else {
            None
        },
        None => None,
    }
}

/// There is a rate exactly where there is a positive interval, however long.
pub proof fn a_rate_needs_a_positive_interval(count: u64, interval: Option<Double>)
    ensures
        rate(count, interval) is Some <==> (interval matches Some(s) && !s.is_nan() && s.rank() > 0),
{
    double::lemma_small_integer(0);
}

/// A rate times its interval gives the count back, up to four parts in `2^53`,
/// for every interval from a nanosecond up.
pub proof fn a_rate_gives_its_count_back(count: u64, s: Double)
    requires
        s.is_finite(),
        accuracy::one() <= s.units() * 0x4000_0000,
        s.units() <= 0x1_0000_0000_0000_0000 * accuracy::one(),
    ensures
        rate(count, Some(s)) matches Some(r) && r.is_finite() && accuracy::apart(
            r.units() * s.units(),
            count * accuracy::one() * accuracy::one(),
        ) * 0x20_0000_0000_0000 <= 4 * (count * accuracy::one() * accuracy::one()),
{
    double::lemma_small_integer(0);
    accuracy::lemma_rate_near(count, s);
    accuracy::lemma_scale();
    double::lemma_on_grid(0);
    if s.rank() <= 0 {
        assert(s.units() <= 0);
        assert(s.units() * 0x4000_0000 <= 0) by (nonlinear_arith)
            requires
                s.units() <= 0,
        ;
    }
}

/// `r` is a count per second of an interval: there is one exactly where the
/// interval is positive, and times an interval from a nanosecond up it gives the
/// count back, up to four parts in `2^53`.
pub open spec fn spreads(r: Option<Double>, count: u64, interval: Option<Double>) -> bool {
    &&& r is Some <==> (interval matches Some(s) && !s.is_nan() && s.rank() > 0)
    &&& (r, interval) matches (Some(x), Some(s)) ==> (s.is_finite() && accuracy::one() <= s.units()
        * 0x4000_0000 && s.units() <= 0x1_0000_0000_0000_0000 * accuracy::one() ==> x.is_finite()
        && accuracy::apart(x.units() * s.units(), count * accuracy::one() * accuracy::one())
        * 0x20_0000_0000_0000 <= 4 * (count * accuracy::one() * accuracy::one()))
}

/// Every rate spreads its count over its interval.
pub proof fn a_rate_spreads_its_count(count: u64, interval: Option<Double>)
    ensures
        spreads(rate(count, interval), count, interval),
{
    a_rate_needs_a_positive_interval(count, interval);
    if let Some(s) = interval {
        if s.is_finite() && accuracy::one() <= s.units() * 0x4000_0000 && s.units()
            <= 0x1_0000_0000_0000_0000 * accuracy::one() {
            a_rate_gives_its_count_back(count, s);
        }
    }
}

/// A rate that comes out even is exact: `r` times in each of `secs` seconds is a
/// rate of `r`.
pub proof fn an_even_rate_is_exact(r: nat, secs: nat)
    requires
        0 < secs < 0x20_0000_0000_0000,
        r * secs < 0x20_0000_0000_0000,
        r < 0x20_0000_0000_0000,
    ensures
        rate((r * secs) as u64, Some(double::of_quotient(secs, 1))) == Some(
            double::of_quotient(r, 1),
        ),
{
    double::lemma_small_integer(0);
    double::lemma_small_integer(secs);
    assert(secs * r == r * secs) by (nonlinear_arith);
    double::lemma_exact_quotient(r, secs);
}

/// A count per second of the interval.
pub fn per_second(count: u64, interval: Option<Double>) -> (r: Option<Double>)
    ensures
        r == rate(count, interval),
        spreads(r, count, interval),
{
    proof {
        a_rate_spreads_its_count(count, interval);
    }
    match interval {
        Some(s) => if Double::from_u64(0).less(s) {
            Some(Double::from_u64(count).over(s))
        } else {
            None
        },
        None => None,
    }
}

/// Network totals, the delta since the previous snapshot, and the rate that
/// delta works out to. The rate is the number worth alerting on.
#[derive(Debug, Clone, Copy, PartialEq, Eq, Structural)]
pub struct NetMetrics {
    pub rx_total: u64,
    pub tx_total: u64,
    pub rx_delta: u64,
    pub tx_delta: u64,
    /// `None` on the first snapshot: there is no interval to divide by yet.
    pub rx_per_sec: Option<Double>,
    pub tx_per_sec: Option<Double>,
}

/// Disk I/O for this process, as totals and as a rate.
#[derive(Debug, Clone, Copy, PartialEq, Eq, Structural)]
pub struct IoRates {
    pub read_total: u64,
    pub written_total: u64,
    pub read_delta: u64,
    pub written_delta: u64,
    pub read_per_sec: Option<Double>,
    pub written_per_sec: Option<Double>,
}

/// What happened to a watched process since the last snapshot. `Gone` and
/// `Switched` are events in their own right — a restart or a death is exactly
/// what a watcher exists to notice.
#[derive(Debug, Clone, Copy, PartialEq, Eq, Structural)]
pub enum WatchEvent {
    /// First time the pattern matched.
    Found,
    /// Same pattern, different pid — the process restarted.
    Switched { old_pid: u32 },
    /// Was there, now the pattern matches nothing.
    Gone,
}

#[derive(Debug, Clone)]
pub struct WatchedProcess {
    pub pattern: String,
    pub metrics: Option<ProcessMetrics>,
    pub event: Option<WatchEvent>,
}

/// A dependency probe. Ran with a timeout; a check that hangs the app is a bug.
#[derive(Debug, Clone)]
pub struct CheckResult {
    pub name: String,
    pub status: Health,
    pub latency_ms: u64,
    pub message: Option<String>,
}

/// One configured probe.
#[derive(Debug, Clone)]
pub enum Check {
    /// TCP connect to `addr` ("host:port") within `timeout_ms`.
    Tcp { name: String, addr: String, timeout_ms: u64 },
    /// At least `min_free` bytes free on the filesystem mounted at `mount`.
    DiskFree { name: String, mount: String, min_free: u64 },
    /// Some process matches `pattern` (same matching as `watch`).
    ProcessAlive { name: String, pattern: String },
}

/// Memory attribution for one scope run. Only present when the scope opted in
/// with [`crate::scope::Scope::with_memory`].
#[derive(Debug, Clone, Copy, PartialEq, Eq, Structural)]
pub struct ScopeMemory {
    /// Working-set change across the operation, bytes.
    pub d_rss: i64,
    /// Private-bytes change across the operation, bytes.
    pub d_private: i64,
    /// How many scopes overlapped this run. Read this first: the counters are
    /// process-wide, so with `concurrent > 1` the delta includes other work.
    /// Only `concurrent == 1` is a clean attribution.
    pub concurrent: u32,
}

impl ScopeMemory {
    /// Whether this measurement attributes cleanly to one operation.
    pub fn is_isolated(&self) -> (r: bool)
        ensures
            r == (self.concurrent == 1),
    {
        self.concurrent == 1
    }
}

/// Operations measured through [`crate::scope::Scope`], aggregated per name —
/// one row per operation kind, never one row per call.
///
/// Latency is in microseconds because sub-millisecond operations are real and
/// rounding them to `0 ms` destroys exactly the detail a profile needs. Use the
/// `_ms` helpers when milliseconds read better.
#[derive(Debug, Clone)]
pub struct OpTiming {
    pub name: &'static str,

    // --- lifetime ---
    pub count: u64,
    pub errors: u64,
    pub total_us: u64,
    pub min_us: Option<u64>,
    pub mean_us: Option<Double>,
    /// Typical case. Half the calls were faster than this.
    pub p50_us: Option<u64>,
    /// The number users actually notice.
    pub p95_us: Option<u64>,
    /// The tail. A p99 far above p50 means the average is lying to you.
    pub p99_us: Option<u64>,
    pub max_us: Option<u64>,

    // --- this interval ---
    pub count_delta: u64,
    pub errors_delta: u64,
    /// Throughput over the interval. `None` on the first snapshot.
    pub per_sec: Option<Double>,
    /// Failures as a fraction of calls *in this interval*, 0.0..=1.0. `None` on
    /// the first snapshot, and when nothing ran — a quiet operation has no error rate, and reporting
    /// 0.0 would make silence look like success.
    pub error_rate: Option<Double>,

    /// Memory cost of the most recent run, if the scope opted in.
    pub last_memory: Option<ScopeMemory>,
}

/// Microseconds in milliseconds.
pub open spec fn milliseconds(us: u64) -> Double {
    double::quotient(double::of_quotient(us as nat, 1), double::of_quotient(1000, 1))
}

/// The same of a value that may be missing.
pub open spec fn maybe_milliseconds(us: Option<u64>) -> Option<Double> {
    match us {
        Some(v) => Some(milliseconds(v)),
        None => None,
    }
}

/// Milliseconds are a thousandth of the microseconds, up to four parts in `2^53`.
pub proof fn milliseconds_are_thousandths(us: u64)
    ensures
        accuracy::near(milliseconds(us), us as int, 1000, 4),
        maybe_milliseconds(Some(us)) == Some(milliseconds(us)),
        maybe_milliseconds(None) is None,
{
    accuracy::lemma_integers_divide_near(us, 1000);
}

/// How far a tail stretches past the typical case, which is at least one.
pub open spec fn stretch(p99: Option<u64>, p50: Option<u64>) -> Option<Double> {
    match (p99, p50) {
        (Some(p99), Some(p50)) => Some(
            double::quotient(
                double::of_quotient(p99 as nat, 1),
                double::of_quotient(
                    if p50 < 1 {
                        1nat
                    } else {
                        p50 as nat
                    },
                    1,
                ),
            ),
        ),
        _ => None,
    }
}

/// The tail ratio is the tail over the typical case, up to four parts in `2^53`,
/// with a typical case of nothing counted as one.
pub proof fn the_tail_ratio_is_tail_over_typical(p99: u64, p50: u64)
    ensures
        stretch(Some(p99), Some(p50)) matches Some(x) && accuracy::near(
            x,
            p99 as int,
            if p50 == 0 {
                1
            } else {
                p50 as int
            },
            4,
        ),
        stretch(None, Some(p50)) is None,
        stretch(Some(p99), None) is None,
{
    accuracy::lemma_integers_divide_near(
        p99,
        if p50 < 1 {
            1
        } else {
            p50
        },
    );
}

fn in_ms(us: Option<u64>) -> (r: Option<Double>)
    ensures
        r == maybe_milliseconds(us),
        us matches Some(v) ==> (r matches Some(x) && accuracy::near(x, v as int, 1000, 4)),
{
    proof {
        if let Some(v) = us {
            milliseconds_are_thousandths(v);
        }
    }
    match us {
        Some(v) => Some(Double::from_u64(v).over(Double::from_u64(1000))),
        None => None,
    }
}

impl OpTiming {
    pub fn p50_ms(&self) -> (r: Option<Double>)
        ensures
            r == maybe_milliseconds(self.p50_us),
            self.p50_us matches Some(v) ==> (r matches Some(x) && accuracy::near(
                x,
                v as int,
                1000,
                4,
            )),
    {
        in_ms(self.p50_us)
    }

    pub fn p95_ms(&self) -> (r: Option<Double>)
        ensures
            r == maybe_milliseconds(self.p95_us),
            self.p95_us matches Some(v) ==> (r matches Some(x) && accuracy::near(
                x,
                v as int,
                1000,
                4,
            )),
    {
        in_ms(self.p95_us)
    }

    pub fn p99_ms(&self) -> (r: Option<Double>)
        ensures
            r == maybe_milliseconds(self.p99_us),
            self.p99_us matches Some(v) ==> (r matches Some(x) && accuracy::near(
                x,
                v as int,
                1000,
                4,
            )),
    {
        in_ms(self.p99_us)
    }

    pub fn max_ms(&self) -> (r: Option<Double>)
        ensures
            r == maybe_milliseconds(self.max_us),
            self.max_us matches Some(v) ==> (r matches Some(x) && accuracy::near(
                x,
                v as int,
                1000,
                4,
            )),
    {
        in_ms(self.max_us)
    }

    pub fn total_ms(&self) -> (r: Double)
        ensures
            r == milliseconds(self.total_us),
            accuracy::near(r, self.total_us as int, 1000, 4),
    {
        proof {
            milliseconds_are_thousandths(self.total_us);
        }
        Double::from_u64(self.total_us).over(Double::from_u64(1000))
    }

    /// How far the tail stretches past the typical case.
    ///
    /// Around 1.0 the operation is consistent. A large ratio means a bimodal
    /// operation — a cache that sometimes misses, a lock that sometimes waits —
    /// and averages will never show it.
    ///
    /// A sub-microsecond p50 is floored at 1 µs so the ratio stays defined.
    /// That is the histogram's own resolution rather than an invented number.
    pub fn tail_ratio(&self) -> (r: Option<Double>)
        ensures
            r == stretch(self.p99_us, self.p50_us),
            (self.p99_us, self.p50_us) matches (Some(tail), Some(typical)) ==> (r matches Some(x)
                && accuracy::near(
                x,
                tail as int,
                if typical == 0 {
                    1
                } else {
                    typical as int
                },
                4,
            )),
    {
        proof {
            if let (Some(tail), Some(typical)) = (self.p99_us, self.p50_us) {
                the_tail_ratio_is_tail_over_typical(tail, typical);
            }
        }
        match (self.p99_us, self.p50_us) {
            (Some(p99), Some(p50)) => {
                let typical: u64 = if p50 < 1 {
                    1
                } else {
                    p50
                };
                Some(Double::from_u64(p99).over(Double::from_u64(typical)))
            },
            _ => None,
        }
    }
}

/// Errors counted through [`crate::note_error`].
#[derive(Debug, Clone)]
pub struct ErrorSummary {
    pub total: u64,
    /// Since the previous snapshot — the number that says whether errors are
    /// happening *now* rather than at some point since boot.
    pub delta: u64,
    pub per_sec: Option<Double>,
    pub per_kind: Vec<(String, u64)>,
    pub last: Option<String>,
}

impl Default for ErrorSummary {
    fn default() -> (r: Self)
        ensures
            r.total == 0,
            r.delta == 0,
            r.per_sec is None,
            r.per_kind@.len() == 0,
            r.last is None,
    {
        ErrorSummary { total: 0, delta: 0, per_sec: None, per_kind: Vec::new(), last: None }
    }
}

/// Allocator counters.
#[derive(Debug, Clone, Copy, PartialEq, Eq, Structural)]
pub struct AllocStats {
    /// `allocated - freed`: bytes the allocator holds for live values.
    pub live_bytes: u64,
    pub allocated_total: u64,
    pub freed_total: u64,
    pub alloc_count: u64,
    pub dealloc_count: u64,
    /// Allocation churn over the interval. High churn with flat `live_bytes`
    /// is pure overhead — memory being recycled rather than needed.
    pub allocs_per_sec: Option<Double>,
}

/// Memory seen over time rather than at one instant.
#[derive(Debug, Clone, Copy, PartialEq, Eq, Structural)]
pub struct MemoryHealth {
    /// Working set over the window.
    pub rss: Option<MemoryTrend>,
    /// Private bytes over the window — the honest series on Windows, because
    /// it does not fall when the OS merely trims the working set.
    pub private: Option<MemoryTrend>,
    /// Pages held by the allocator with no live data in them. Large and growing
    /// means fragmentation or retention, not a leak in your own data. Needs the
    /// counting allocator.
    pub retention_bytes: Option<u64>,
}

impl MemoryHealth {
    /// The series that the leak rule looks at: private bytes where they exist,
    /// because the working set falls when the OS trims pages, which would read
    /// as a leak curing itself.
    pub open spec fn honest(&self) -> Option<MemoryTrend> {
        match self.private {
            Some(t) => Some(t),
            None => self.rss,
        }
    }

    pub fn leak_series(&self) -> (r: Option<MemoryTrend>)
        ensures
            r == self.honest(),
    {
        match self.private {
            Some(t) => Some(t),
            None => self.rss,
        }
    }
}

/// Which metric moved, in [`Trigger`]s.
#[derive(Debug, Clone, Copy, PartialEq, Eq, Structural)]
pub enum Metric {
    Ram,
    Cpu,
    Disk,
    Net,
}

/// A threshold crossing against the previous snapshot: nothing is reported
/// until something actually moved.
#[derive(Debug, Clone, Copy)]
pub struct Trigger {
    pub metric: Metric,
    /// Signed change since the previous snapshot, in `unit`.
    pub delta: Double,
    pub unit: &'static str,
}

/// A rule evaluated against the current snapshot.
#[derive(Debug, Clone)]
pub struct Verdict {
    pub rule: &'static str,
    pub level: Health,
    pub actual: Double,
    pub threshold: Double,
    pub unit: &'static str,
    /// What this is about, when the rule can fire for more than one thing
    /// (which disk, which operation).
    pub subject: Option<String>,
}

/// What a [`Verdict`] says, its texts as characters.
pub struct Finding {
    pub rule: Seq<char>,
    pub level: Health,
    pub actual: Double,
    pub threshold: Double,
    pub unit: Seq<char>,
    pub subject: Option<Seq<char>>,
}

/// The characters of a text that may be missing.
pub open spec fn maybe_text(t: Option<String>) -> Option<Seq<char>> {
    match t {
        Some(s) => Some(s@),
        None => None,
    }
}

impl View for Verdict {
    type V = Finding;

    open spec fn view(&self) -> Finding {
        Finding {
            rule: self.rule@,
            level: self.level,
            actual: self.actual,
            threshold: self.threshold,
            unit: self.unit@,
            subject: maybe_text(self.subject),
        }
    }
}

/// What each of the verdicts says.
pub open spec fn said(v: Seq<Verdict>) -> Seq<Finding> {
    v.map_values(|x: Verdict| x@)
}

/// The one struct a caller gets back. Everything else is a field of it.
#[derive(Debug, Clone)]
pub struct ApmReport {
    pub identity: Identity,
    pub ts_unix_ms: u64,
    pub uptime_secs: u64,
    /// Time since the previous snapshot. `None` on the first one, which is why
    /// every rate beside it is `None` too.
    pub interval_ms: Option<u64>,
    pub system: Option<SystemMetrics>,
    /// This process.
    pub process: Option<ProcessMetrics>,
    /// This process over the window: floor, peak, and growth.
    pub memory: MemoryHealth,
    /// This process's disk I/O as totals and rates.
    pub io: Option<IoRates>,
    /// Processes watched by name.
    pub watched: Vec<WatchedProcess>,
    /// Heaviest processes on the machine, when `Config::top_n` asks for them.
    pub top_processes: Vec<ProcessMetrics>,
    pub disks: Vec<DiskMetrics>,
    pub net: Option<NetMetrics>,
    pub checks: Vec<CheckResult>,
    pub ops: Vec<OpTiming>,
    pub errors: ErrorSummary,
    pub alloc: Option<AllocStats>,
    pub triggers: Vec<Trigger>,
    pub verdicts: Vec<Verdict>,
    pub overall: Health,
}

/// The line for a verdict.
pub open spec fn verdict_line(v: Finding) -> Seq<char> {
    let subject = match v.subject {
        Some(s) => " ["@ + s + "]"@,
        None => Seq::empty(),
    };
    v.rule + subject + ": "@ + text::one_place(v.actual, false) + v.unit + " (limit "@
        + text::one_place(v.threshold, false) + v.unit + ")"@
}

/// The line for a check that failed.
pub open spec fn check_line(c: CheckResult) -> Seq<char> {
    let message = match c.message {
        Some(m) => m@,
        None => "failed"@,
    };
    "check "@ + c.name@ + ": "@ + message + " ("@ + text::decimal(c.latency_ms as nat) + "ms)"@
}

/// The line for a watched process, with its level, if something happened to it
/// that is a problem.
pub open spec fn watch_line(w: WatchedProcess) -> Option<(Health, Seq<char>)> {
    match w.event {
        Some(WatchEvent::Gone) => Some((Health::Unhealthy, "process gone: "@ + w.pattern@)),
        Some(WatchEvent::Switched { old_pid }) => Some(
            (
                Health::Degraded,
                "process restarted: "@ + w.pattern@ + " (was pid "@ + text::decimal(old_pid as nat)
                    + ")"@,
            ),
        ),
        _ => None,
    }
}

/// Every verdict with its line.
pub open spec fn verdict_lines(v: Seq<Verdict>) -> Seq<(Health, Seq<char>)>
    decreases v.len(),
{
    if v.len() == 0 {
        Seq::empty()
    } else {
        verdict_lines(v.drop_last()).push((v.last().level, verdict_line(v.last()@)))
    }
}

/// Every failed check with its line.
pub open spec fn check_lines(c: Seq<CheckResult>) -> Seq<(Health, Seq<char>)>
    decreases c.len(),
{
    if c.len() == 0 {
        Seq::empty()
    } else if c.last().status == Health::Healthy {
        check_lines(c.drop_last())
    } else {
        check_lines(c.drop_last()).push((c.last().status, check_line(c.last())))
    }
}

/// Every watched process that is a problem with its line.
pub open spec fn watch_lines(w: Seq<WatchedProcess>) -> Seq<(Health, Seq<char>)>
    decreases w.len(),
{
    if w.len() == 0 {
        Seq::empty()
    } else {
        match watch_line(w.last()) {
            Some(x) => watch_lines(w.drop_last()).push(x),
            None => watch_lines(w.drop_last()),
        }
    }
}

/// The lines of one level, in the order they were collected in.
pub open spec fn at_level(f: Seq<(Health, Seq<char>)>, level: Health) -> Seq<Seq<char>>
    decreases f.len(),
{
    if f.len() == 0 {
        Seq::empty()
    } else if f.last().0 == level {
        at_level(f.drop_last(), level).push(f.last().1)
    } else {
        at_level(f.drop_last(), level)
    }
}

/// The characters of each text.
pub open spec fn texts(v: Seq<String>) -> Seq<Seq<char>> {
    v.map_values(|s: String| s@)
}

/// Lines sorted by how bad they are.
struct Ladder {
    unhealthy: Vec<String>,
    degraded: Vec<String>,
    healthy: Vec<String>,
}

impl Ladder {
    spec fn holds(&self, f: Seq<(Health, Seq<char>)>) -> bool {
        &&& texts(self.unhealthy@) == at_level(f, Health::Unhealthy)
        &&& texts(self.degraded@) == at_level(f, Health::Degraded)
        &&& texts(self.healthy@) == at_level(f, Health::Healthy)
    }

    fn push(&mut self, level: Health, line: String)
        ensures
            forall|f: Seq<(Health, Seq<char>)>|
                old(self).holds(f) ==> #[trigger] final(self).holds(f.push((level, line@))),
    {
        match level {
            Health::Unhealthy => self.unhealthy.push(line),
            Health::Degraded => self.degraded.push(line),
            Health::Healthy => self.healthy.push(line),
        }
        proof {
            assert forall|f: Seq<(Health, Seq<char>)>| old(self).holds(f) implies #[trigger] self.holds(
                f.push((level, line@)),
            ) by {
                let g = f.push((level, line@));
                assert(g.drop_last() =~= f);
                assert(g.last() == (level, line@));
                assert(texts(self.unhealthy@) =~= at_level(g, Health::Unhealthy));
                assert(texts(self.degraded@) =~= at_level(g, Health::Degraded));
                assert(texts(self.healthy@) =~= at_level(g, Health::Healthy));
            }
        }
    }
}

impl Verdict {
    fn line(&self) -> (r: String)
        ensures
            r@ == verdict_line(self@),
    {
        let mut out: String = self.rule.to_owned();
        match &self.subject {
            Some(s) => {
                out.append(" [");
                out.append(s.as_str());
                out.append("]");
                assert(out@ =~= self.rule@ + (" ["@ + s@ + "]"@));
            },
            None => {
                assert(out@ =~= self.rule@ + Seq::<char>::empty());
            },
        }
        out.append(": ");
        push_one_place(&mut out, self.actual, false);
        out.append(self.unit);
        out.append(" (limit ");
        push_one_place(&mut out, self.threshold, false);
        out.append(self.unit);
        out.append(")");
        out
    }
}

impl CheckResult {
    fn line(&self) -> (r: String)
        ensures
            r@ == check_line(*self),
    {
        let mut out: String = String::from_str("check ");
        out.append(self.name.as_str());
        out.append(": ");
        match &self.message {
            Some(m) => {
                out.append(m.as_str());
            },
            None => {
                out.append("failed");
            },
        }
        out.append(" (");
        push_u64(&mut out, self.latency_ms);
        out.append("ms)");
        out
    }
}

impl ApmReport {
    /// Everything that is wrong, in the order it was collected: verdicts, then
    /// checks, then watch events.
    pub open spec fn collected(&self) -> Seq<(Health, Seq<char>)> {
        verdict_lines(self.verdicts@) + check_lines(self.checks@) + watch_lines(self.watched@)
    }

    /// The lines of [`ApmReport::problems`].
    pub open spec fn problem_lines(&self) -> Seq<Seq<char>> {
        at_level(self.collected(), Health::Unhealthy) + at_level(
            self.collected(),
            Health::Degraded,
        ) + at_level(self.collected(), Health::Healthy)
    }

    pub fn is_healthy(&self) -> (r: bool)
        ensures
            r == (self.overall == Health::Healthy),
    {
        self.overall.is_healthy()
    }

    /// Everything currently wrong, worst first, as readable lines. Equally
    /// severe findings keep the order they were collected in: verdicts, then
    /// checks, then watch events.
    pub fn problems(&self) -> (r: Vec<String>)
        ensures
            texts(r@) == self.problem_lines(),
            r@.len() == self.verdicts@.len() + laws::failed(self.checks@) + laws::troubled(
                self.watched@,
            ),
    {
        let mut out = Ladder { unhealthy: Vec::new(), degraded: Vec::new(), healthy: Vec::new() };
        let ghost mut f: Seq<(Health, Seq<char>)> = Seq::empty();
        proof {
            assert(texts(out.healthy@) =~= Seq::empty());
            assert(self.verdicts@.take(0) =~= Seq::empty());
            assert(self.checks@.take(0) =~= Seq::empty());
            assert(self.watched@.take(0) =~= Seq::empty());
        }
        let mut i: usize = 0;
        while i < self.verdicts.len()
            invariant
                i <= self.verdicts@.len(),
                f == verdict_lines(self.verdicts@.take(i as int)),
                out.holds(f),
            decreases self.verdicts@.len() - i,
        {
            let v: &Verdict = &self.verdicts[i];
            out.push(v.level, v.line());
            proof {
                let t = self.verdicts@.take(i + 1);
                assert(t.drop_last() =~= self.verdicts@.take(i as int));
                f = f.push((v.level, verdict_line(v@)));
            }
            i = i + 1;
        }
        assert(self.verdicts@.take(i as int) =~= self.verdicts@);
        let ghost head = f;
        assert(f =~= head + check_lines(self.checks@.take(0)));
        let mut i: usize = 0;
        while i < self.checks.len()
            invariant
                i <= self.checks@.len(),
                f == head + check_lines(self.checks@.take(i as int)),
                out.holds(f),
            decreases self.checks@.len() - i,
        {
            let c: &CheckResult = &self.checks[i];
            proof {
                let t = self.checks@.take(i + 1);
                assert(t.drop_last() =~= self.checks@.take(i as int));
            }
            if !c.status.is_healthy() {
                out.push(c.status, c.line());
                proof {
                    f = f.push((c.status, check_line(*c)));
                    assert(f =~= head + check_lines(self.checks@.take(i + 1)));
                }
            }
            i = i + 1;
        }
        assert(self.checks@.take(i as int) =~= self.checks@);
        let ghost both = f;
        assert(f =~= both + watch_lines(self.watched@.take(0)));
        let mut i: usize = 0;
        while i < self.watched.len()
            invariant
                i <= self.watched@.len(),
                f == both + watch_lines(self.watched@.take(i as int)),
                out.holds(f),
            decreases self.watched@.len() - i,
        {
            let w: &WatchedProcess = &self.watched[i];
            proof {
                let t = self.watched@.take(i + 1);
                assert(t.drop_last() =~= self.watched@.take(i as int));
            }
            match w.event {
                Some(WatchEvent::Gone) => {
                    let mut line: String = String::from_str("process gone: ");
                    line.append(w.pattern.as_str());
                    proof {
                        f = f.push((Health::Unhealthy, line@));
                        assert(f =~= both + watch_lines(self.watched@.take(i + 1)));
                    }
                    out.push(Health::Unhealthy, line);
                },
                Some(WatchEvent::Switched { old_pid }) => {
                    let mut line: String = String::from_str("process restarted: ");
                    line.append(w.pattern.as_str());
                    line.append(" (was pid ");
                    push_u64(&mut line, old_pid as u64);
                    line.append(")");
                    proof {
                        f = f.push((Health::Degraded, line@));
                        assert(f =~= both + watch_lines(self.watched@.take(i + 1)));
                    }
                    out.push(Health::Degraded, line);
                },
                _ => {},
            }
            i = i + 1;
        }
        assert(self.watched@.take(i as int) =~= self.watched@);
        assert(f =~= self.collected());
        let mut all: Vec<String> = out.unhealthy;
        let mut warn: Vec<String> = out.degraded;
        let mut fine: Vec<String> = out.healthy;
        proof {
            assert(texts(all@ + warn@ + fine@) =~= texts(all@) + texts(warn@) + texts(fine@));
            laws::every_problem_is_listed_once(*self);
            assert(texts(all@ + warn@ + fine@).len() == (all@ + warn@ + fine@).len());
        }
        all.append(&mut warn);
        all.append(&mut fine);
        all
    }

    /// The text of [`ApmReport::summary`].
    pub open spec fn summary_line(&self) -> Seq<char> {
        let rss = match self.process {
            Some(p) => text::no_place(mebibytes(p.rss)) + "MiB"@,
            None => "?"@,
        };
        let cpu = match self.process {
            Some(p) => text::one_place(single::widened(p.cpu_pct), false) + "%"@,
            None => "?"@,
        };
        let growth = match self.memory.honest() {
            Some(t) => match t.slope_mib_per_hour {
                Some(s) => " growth="@ + text::one_place(s, true) + "MiB/h"@,
                None => Seq::empty(),
            },
            None => Seq::empty(),
        };
        let tail = if self.problem_lines().len() == 0 {
            Seq::empty()
        } else {
            " problems="@ + text::decimal(self.problem_lines().len())
        };
        self.identity.service@ + " "@ + self.overall.label() + " rss="@ + rss + " cpu="@ + cpu
            + growth + " ops="@ + text::decimal(self.ops@.len()) + " errors="@ + text::decimal(
            self.errors.total as nat,
        ) + tail
    }

    /// One line fit for a log or a status bar.
    pub fn summary(&self) -> (r: String)
        ensures
            r@ == self.summary_line(),
    {
        let mut out: String = self.identity.service.clone();
        out.append(" ");
        out.append(self.overall.name());
        out.append(" rss=");
        let ghost a = out@;
        match &self.process {
            Some(p) => {
                push_no_place(&mut out, Double::from_u64(p.rss).over(Double::from_u64(1048576)));
                out.append("MiB");
                let ghost rss = text::no_place(mebibytes(p.rss)) + "MiB"@;
                assert(out@ =~= a + rss);
                out.append(" cpu=");
                let ghost b = out@;
                push_one_place(&mut out, p.cpu_pct.widen(), false);
                out.append("%");
                let ghost cpu = text::one_place(single::widened(p.cpu_pct), false) + "%"@;
                assert(out@ =~= b + cpu);
            },
            None => {
                out.append("?");
                out.append(" cpu=");
                out.append("?");
            },
        }
        let ghost c = out@;
        match self.memory.leak_series() {
            Some(t) => match t.slope_mib_per_hour {
                Some(s) => {
                    out.append(" growth=");
                    push_one_place(&mut out, s, true);
                    out.append("MiB/h");
                    let ghost growth = " growth="@ + text::one_place(s, true) + "MiB/h"@;
                    assert(out@ =~= c + growth);
                },
                None => {
                    assert(out@ =~= c + Seq::<char>::empty());
                },
            },
            None => {
                assert(out@ =~= c + Seq::<char>::empty());
            },
        }
        out.append(" ops=");
        push_u64(&mut out, self.ops.len() as u64);
        out.append(" errors=");
        push_u64(&mut out, self.errors.total);
        let problems: Vec<String> = self.problems();
        let ghost d = out@;
        proof {
            assert(texts(problems@).len() == problems@.len());
        }
        if problems.len() == 0 {
            assert(out@ =~= d + Seq::<char>::empty());
        } else {
            out.append(" problems=");
            push_u64(&mut out, problems.len() as u64);
            let ghost tail = " problems="@ + text::decimal(problems@.len());
            assert(out@ =~= d + tail);
        }
        out
    }

    /// The operation that burned the most wall time, the last of them where
    /// several share it. The first place to look when something is slow and
    /// nothing is obviously broken.
    pub fn slowest_op(&self) -> (r: Option<&OpTiming>)
        ensures
            r is None <==> self.ops@.len() == 0,
            r matches Some(op) ==> heaviest(self.ops@, *op),
            r matches Some(op) ==> forall|j: int|
                0 <= j < self.ops@.len() ==> (#[trigger] self.ops@[j]).total_us <= op.total_us,
    {
        if self.ops.len() == 0 {
            return None;
        }
        let mut best: usize = 0;
        let mut i: usize = 1;
        while i < self.ops.len()
            invariant
                best < i <= self.ops@.len(),
                forall|j: int|
                    0 <= j < i ==> #[trigger] self.ops@[j].total_us
                        <= self.ops@[best as int].total_us,
                forall|j: int|
                    best < j < i ==> #[trigger] self.ops@[j].total_us
                        < self.ops@[best as int].total_us,
            decreases self.ops@.len() - i,
        {
            if self.ops[i].total_us >= self.ops[best].total_us {
                best = i;
            }
            i = i + 1;
        }
        Some(&self.ops[best])
    }
}

/// An operation took the most wall time of all, the last of them where several
/// share it.
pub open spec fn heaviest(ops: Seq<OpTiming>, op: OpTiming) -> bool {
    exists|i: int|
        #![trigger ops[i]]
        0 <= i < ops.len() && op == ops[i] && (forall|j: int|
            0 <= j < ops.len() ==> #[trigger] ops[j].total_us <= op.total_us) && (forall|j: int|
            i < j < ops.len() ==> #[trigger] ops[j].total_us < op.total_us)
}

/// No operation took longer than the heaviest one, and it is one of them.
pub proof fn none_took_longer_than_the_heaviest(ops: Seq<OpTiming>, op: OpTiming, j: int)
    requires
        heaviest(ops, op),
        0 <= j < ops.len(),
    ensures
        ops[j].total_us <= op.total_us,
        ops.contains(op),
{
    let i = choose|i: int|
        #![trigger ops[i]]
        0 <= i < ops.len() && op == ops[i] && (forall|j: int|
            0 <= j < ops.len() ==> #[trigger] ops[j].total_us <= op.total_us) && (forall|j: int|
            i < j < ops.len() ==> #[trigger] ops[j].total_us < op.total_us);
    assert(ops[i] == op);
    assert(ops[j].total_us <= op.total_us);
}

/// A MiB is `2^20` bytes, up to four parts in `2^53`.
pub proof fn mebibytes_are_bytes_shifted(b: u64)
    ensures
        accuracy::near(mebibytes(b), b as int, 1048576, 4),
{
    accuracy::lemma_integers_divide_near(b, 1048576);
}

/// Bytes in MiB.
pub open spec fn mebibytes(b: u64) -> Double {
    double::quotient(double::of_quotient(b as nat, 1), double::of_quotient(1048576, 1))
}

proof fn lemma_at_level_empty(f: Seq<(Health, Seq<char>)>)
    ensures
        f.len() == at_level(f, Health::Unhealthy).len() + at_level(f, Health::Degraded).len()
            + at_level(f, Health::Healthy).len(),
    decreases f.len(),
{
    if f.len() > 0 {
        lemma_at_level_empty(f.drop_last());
    }
}

/// Nothing that is wrong is left out of the problems, and nothing else is in
/// them.
pub proof fn every_finding_is_a_problem(r: ApmReport)
    ensures
        r.problem_lines().len() == r.collected().len(),
        forall|i: int|
            #![trigger r.collected()[i]]
            0 <= i < r.collected().len() ==> r.problem_lines().contains(r.collected()[i].1),
{
    let f = r.collected();
    lemma_at_level_empty(f);
    assert forall|i: int|
        #![trigger r.collected()[i]]
        0 <= i < r.collected().len() implies r.problem_lines().contains(r.collected()[i].1) by {
        lemma_at_level_keeps(f, i);
        let (a, b, c) = (
            at_level(f, Health::Unhealthy),
            at_level(f, Health::Degraded),
            at_level(f, Health::Healthy),
        );
        let x = f[i].1;
        match f[i].0 {
            Health::Unhealthy => {
                let k = choose|k: int| 0 <= k < a.len() && a[k] == x;
                assert(r.problem_lines()[k] == x);
            },
            Health::Degraded => {
                let k = choose|k: int| 0 <= k < b.len() && b[k] == x;
                assert(r.problem_lines()[a.len() + k] == x);
            },
            Health::Healthy => {
                let k = choose|k: int| 0 <= k < c.len() && c[k] == x;
                assert(r.problem_lines()[a.len() + b.len() + k] == x);
            },
        }
    }
}

pub proof fn lemma_at_level_keeps(f: Seq<(Health, Seq<char>)>, i: int)
    requires
        0 <= i < f.len(),
    ensures
        at_level(f, f[i].0).contains(f[i].1),
    decreases f.len(),
{
    let l = at_level(f, f[i].0);
    if i == f.len() - 1 {
        assert(l[l.len() - 1] == f[i].1);
    } else {
        let g = f.drop_last();
        assert(g[i] == f[i]);
        lemma_at_level_keeps(g, i);
        let m = at_level(g, f[i].0);
        let k = choose|k: int| 0 <= k < m.len() && m[k] == f[i].1;
        assert(l[k] == f[i].1);
    }
}

/// The worst level among findings, `Healthy` without any.
pub open spec fn worst(f: Seq<(Health, Seq<char>)>) -> Health
    decreases f.len(),
{
    if f.len() == 0 {
        Health::Healthy
    } else {
        worse_of(worst(f.drop_last()), f.last().0)
    }
}

proof fn lemma_worst_adds(a: Seq<(Health, Seq<char>)>, b: Seq<(Health, Seq<char>)>)
    ensures
        worst(a + b) == worse_of(worst(a), worst(b)),
    decreases b.len(),
{
    if b.len() == 0 {
        assert(a + b =~= a);
    } else {
        lemma_worst_adds(a, b.drop_last());
        assert((a + b).drop_last() =~= a + b.drop_last());
        assert((a + b).last() == b.last());
    }
}

/// Every level that is found is on the ladder, and the worst of them is found.
pub proof fn lemma_worst(f: Seq<(Health, Seq<char>)>)
    ensures
        forall|i: int| 0 <= i < f.len() ==> (#[trigger] f[i]).0.rung() <= worst(f).rung(),
        f.len() > 0 ==> exists|i: int| 0 <= i < f.len() && (#[trigger] f[i]).0 == worst(f),
    decreases f.len(),
{
    if f.len() > 0 {
        let g = f.drop_last();
        lemma_worst(g);
        assert forall|i: int| 0 <= i < f.len() implies (#[trigger] f[i]).0.rung() <= worst(
            f,
        ).rung() by {
            if i < g.len() {
                assert(g[i] == f[i]);
            }
        }
        assert(f[f.len() - 1] == f.last());
        if g.len() > 0 {
            let i = choose|i: int| 0 <= i < g.len() && (#[trigger] g[i]).0 == worst(g);
            assert(f[i] == g[i]);
        }
    }
}

/// One health for everything that was found: the worst of it.
pub fn roll_up(
    verdicts: &Vec<Verdict>,
    checks: &Vec<CheckResult>,
    watched: &Vec<WatchedProcess>,
) -> (r: Health)
    ensures
        r == worst(verdict_lines(verdicts@) + check_lines(checks@) + watch_lines(watched@)),
{
    let mut overall: Health = Health::Healthy;
    let mut i: usize = 0;
    proof {
        assert(verdicts@.take(0) =~= Seq::empty());
        assert(checks@.take(0) =~= Seq::empty());
        assert(watched@.take(0) =~= Seq::empty());
    }
    while i < verdicts.len()
        invariant
            i <= verdicts@.len(),
            overall == worst(verdict_lines(verdicts@.take(i as int))),
        decreases verdicts@.len() - i,
    {
        let v: &Verdict = &verdicts[i];
        overall = overall.worse(v.level);
        proof {
            let t = verdicts@.take(i + 1);
            assert(t.drop_last() =~= verdicts@.take(i as int));
            assert(verdict_lines(t).drop_last() =~= verdict_lines(t.drop_last()));
        }
        i = i + 1;
    }
    assert(verdicts@.take(i as int) =~= verdicts@);
    let ghost a = worst(verdict_lines(verdicts@));
    let mut i: usize = 0;
    while i < checks.len()
        invariant
            i <= checks@.len(),
            overall == worse_of(a, worst(check_lines(checks@.take(i as int)))),
        decreases checks@.len() - i,
    {
        let c: &CheckResult = &checks[i];
        overall = overall.worse(c.status);
        proof {
            let t = checks@.take(i + 1);
            assert(t.drop_last() =~= checks@.take(i as int));
            if c.status != Health::Healthy {
                assert(check_lines(t).drop_last() =~= check_lines(t.drop_last()));
            }
        }
        i = i + 1;
    }
    assert(checks@.take(i as int) =~= checks@);
    let ghost b = worst(check_lines(checks@));
    // A watched process disappearing is the loudest thing there is to observe;
    // a restart is worth a look.
    let mut i: usize = 0;
    while i < watched.len()
        invariant
            i <= watched@.len(),
            overall == worse_of(worse_of(a, b), worst(watch_lines(watched@.take(i as int)))),
        decreases watched@.len() - i,
    {
        let w: &WatchedProcess = &watched[i];
        proof {
            let t = watched@.take(i + 1);
            assert(t.drop_last() =~= watched@.take(i as int));
            if watch_line(*w) is Some {
                assert(watch_lines(t).drop_last() =~= watch_lines(t.drop_last()));
            }
        }
        match w.event {
            Some(WatchEvent::Gone) => {
                overall = overall.worse(Health::Unhealthy);
            },
            Some(WatchEvent::Switched { .. }) => {
                overall = overall.worse(Health::Degraded);
            },
            _ => {},
        }
        i = i + 1;
    }
    proof {
        assert(watched@.take(i as int) =~= watched@);
        lemma_worst_adds(verdict_lines(verdicts@), check_lines(checks@));
        lemma_worst_adds(
            verdict_lines(verdicts@) + check_lines(checks@),
            watch_lines(watched@),
        );
    }
    overall
}

proof fn lemma_verdict_lines_bad(v: Seq<Verdict>)
    requires
        forall|i: int| 0 <= i < v.len() ==> (#[trigger] v[i]).level != Health::Healthy,
    ensures
        forall|i: int|
            0 <= i < verdict_lines(v).len() ==> (#[trigger] verdict_lines(v)[i]).0
                != Health::Healthy,
    decreases v.len(),
{
    if v.len() > 0 {
        let w = v.drop_last();
        assert forall|i: int| 0 <= i < w.len() implies (#[trigger] w[i]).level
            != Health::Healthy by {
            assert(w[i] == v[i]);
        }
        lemma_verdict_lines_bad(w);
        assert(v[v.len() - 1] == v.last());
    }
}

proof fn lemma_check_lines_bad(c: Seq<CheckResult>)
    ensures
        forall|i: int|
            0 <= i < check_lines(c).len() ==> (#[trigger] check_lines(c)[i]).0 != Health::Healthy,
    decreases c.len(),
{
    if c.len() > 0 {
        lemma_check_lines_bad(c.drop_last());
    }
}

proof fn lemma_watch_lines_bad(w: Seq<WatchedProcess>)
    ensures
        forall|i: int|
            0 <= i < watch_lines(w).len() ==> (#[trigger] watch_lines(w)[i]).0 != Health::Healthy,
    decreases w.len(),
{
    if w.len() > 0 {
        lemma_watch_lines_bad(w.drop_last());
    }
}

/// An empty list of problems is itself the answer: where the overall health is
/// the worst of everything that was found, and no verdict is a healthy one, a
/// report is healthy exactly when it lists no problem.
pub proof fn healthy_means_no_problems(r: ApmReport)
    requires
        r.overall == worst(r.collected()),
        forall|i: int| 0 <= i < r.verdicts@.len() ==> (#[trigger] r.verdicts@[i]).level
            != Health::Healthy,
    ensures
        r.overall == Health::Healthy <==> r.problem_lines().len() == 0,
{
    every_finding_is_a_problem(r);
    lemma_worst(r.collected());
    lemma_verdict_lines_bad(r.verdicts@);
    lemma_check_lines_bad(r.checks@);
    lemma_watch_lines_bad(r.watched@);
    let f = r.collected();
    let (a, b) = (verdict_lines(r.verdicts@), check_lines(r.checks@));
    let c = watch_lines(r.watched@);
    if f.len() > 0 {
        let x = f[0];
        if a.len() > 0 {
            assert(x == a[0]);
        } else if b.len() > 0 {
            assert(x == b[0]);
        } else {
            assert(x == c[0]);
        }
        assert(f[0].0.rung() <= worst(f).rung());
    }
}

proof fn lemma_gone_is_listed(w: Seq<WatchedProcess>, i: int)
    requires
        0 <= i < w.len(),
        watch_line(w[i]) is Some,
    ensures
        watch_lines(w).contains(watch_line(w[i])->0),
    decreases w.len(),
{
    let l = watch_lines(w);
    if i == w.len() - 1 {
        assert(l[l.len() - 1] == watch_line(w[i])->0);
    } else {
        let v = w.drop_last();
        assert(v[i] == w[i]);
        lemma_gone_is_listed(v, i);
        let m = watch_lines(v);
        let k = choose|k: int| 0 <= k < m.len() && m[k] == watch_line(w[i])->0;
        assert(l[k] == m[k]);
    }
}

/// A watched process that is gone makes the whole report unhealthy, and says so
/// among the problems.
pub proof fn gone_outranks_everything(r: ApmReport, i: int)
    requires
        r.overall == worst(r.collected()),
        0 <= i < r.watched@.len(),
        r.watched@[i].event == Some(WatchEvent::Gone),
    ensures
        r.overall == Health::Unhealthy,
        r.problem_lines().contains("process gone: "@ + r.watched@[i].pattern@),
{
    let f = r.collected();
    let c = watch_lines(r.watched@);
    lemma_gone_is_listed(r.watched@, i);
    let x = watch_line(r.watched@[i])->0;
    let k = choose|k: int| 0 <= k < c.len() && c[k] == x;
    let n = verdict_lines(r.verdicts@).len() + check_lines(r.checks@).len();
    assert(f[n + k] == x);
    lemma_worst(f);
    every_finding_is_a_problem(r);
}

} // verus!
