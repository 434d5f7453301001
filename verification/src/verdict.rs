//! Rules evaluated against the current snapshot. Each crossing is a [`Verdict`]
//! naming the rule, the actual value, and the line it crossed.
//!
//! Every resource rule has two lines, not one. A single threshold can only ever
//! produce `Degraded`, which means `overall` could never reach `Unhealthy` from
//! a resource limit and "nearly full" would page the same as "full". The warn
//! line says pay attention; the critical line says act now.

pub mod laws;

use crate::float::double;
use crate::float::double::Double;
use crate::float::single;
use crate::report;
use crate::report::{DiskMetrics, Finding, Health, OpTiming, ProcessMetrics, SystemMetrics, Verdict};
use crate::trend::MemoryTrend;
use vstd::prelude::*;

verus! {

#[derive(Debug, Clone, Copy, PartialEq, Eq, Structural)]
pub struct Limits {
    /// System CPU above this percent is degraded.
    pub cpu_pct: Double,
    /// ...and above this it is unhealthy.
    pub cpu_pct_critical: Double,
    pub ram_used_pct: Double,
    pub ram_used_pct_critical: Double,
    /// Any filesystem *below* this free percent is degraded.
    pub disk_free_pct: Double,
    /// ...and below this it is unhealthy.
    pub disk_free_pct_critical: Double,
    /// Swap in use means RAM is overflowing.
    pub swap_used_pct: Double,
    /// Sustained growth of the memory floor, MiB/hour. This is the leak rule:
    /// it fires on the resting level climbing, never on a spike.
    pub mem_growth_mib_per_hour: Double,
    /// Fraction of calls in an interval that may fail before an operation is
    /// degraded, 0.0..=1.0.
    pub op_error_rate: Double,
    /// ...and above this it is unhealthy.
    pub op_error_rate_critical: Double,
    /// p99 latency budget for any measured operation, milliseconds. `None`
    /// disables the rule, which is the default: a budget belongs to a specific
    /// operation and a generic one would fire on every batch job.
    pub op_p99_ms: Option<Double>,
    /// Open handles above this is a handle leak. `None` disables the rule.
    pub handles: Option<u32>,
}

/// What is used where nothing else is configured.
pub open spec fn standard() -> Limits {
    Limits {
        cpu_pct: double::of_quotient(85, 1),
        cpu_pct_critical: double::of_quotient(95, 1),
        ram_used_pct: double::of_quotient(90, 1),
        ram_used_pct_critical: double::of_quotient(97, 1),
        disk_free_pct: double::of_quotient(5, 1),
        disk_free_pct_critical: double::of_quotient(1, 1),
        swap_used_pct: double::of_quotient(25, 1),
        mem_growth_mib_per_hour: double::of_quotient(20, 1),
        op_error_rate: double::of_quotient(1, 100),
        op_error_rate_critical: double::of_quotient(1, 10),
        op_p99_ms: None,
        handles: None,
    }
}

impl Default for Limits {
    fn default() -> (r: Self)
        ensures
            r == standard(),
    {
        Limits {
            cpu_pct: Double::from_u64(85),
            cpu_pct_critical: Double::from_u64(95),
            ram_used_pct: Double::from_u64(90),
            ram_used_pct_critical: Double::from_u64(97),
            disk_free_pct: Double::from_u64(5),
            disk_free_pct_critical: Double::from_u64(1),
            swap_used_pct: Double::from_u64(25),
            mem_growth_mib_per_hour: Double::from_u64(20),
            op_error_rate: Double::from_quotient(1, 100),
            op_error_rate_critical: Double::from_quotient(1, 10),
            op_p99_ms: None,
            handles: None,
        }
    }
}

/// Everything the rules look at. Grouped so adding a rule does not mean
/// threading another argument through every caller.
pub struct Inputs<'a> {
    pub system: Option<&'a SystemMetrics>,
    pub process: Option<&'a ProcessMetrics>,
    pub disks: &'a [DiskMetrics],
    pub memory_trend: Option<&'a MemoryTrend>,
    pub ops: &'a [OpTiming],
}

/// The level of a value that is bad when it rises, with the line it crossed.
pub open spec fn risen(actual: Double, warn: Double, critical: Double) -> Option<(Health, Double)> {
    if critical.below(actual) {
        Some((Health::Unhealthy, critical))
    } else if warn.below(actual) {
        Some((Health::Degraded, warn))
    } else {
        None
    }
}

/// The level of a value that is bad when it falls, with the line it crossed.
pub open spec fn fallen(
    actual: Double,
    warn: Double,
    critical: Double,
) -> Option<(Health, Double)> {
    if actual.below(critical) {
        Some((Health::Unhealthy, critical))
    } else if actual.below(warn) {
        Some((Health::Degraded, warn))
    } else {
        None
    }
}

/// Pick the level for a value that is bad when it rises.
pub fn rising(actual: Double, warn: Double, critical: Double) -> (r: Option<(Health, Double)>)
    ensures
        r == risen(actual, warn, critical),
{
    if critical.less(actual) {
        Some((Health::Unhealthy, critical))
    } else if warn.less(actual) {
        Some((Health::Degraded, warn))
    } else {
        None
    }
}

/// Pick the level for a value that is bad when it falls.
pub fn falling(actual: Double, warn: Double, critical: Double) -> (r: Option<(Health, Double)>)
    ensures
        r == fallen(actual, warn, critical),
{
    if actual.less(critical) {
        Some((Health::Unhealthy, critical))
    } else if actual.less(warn) {
        Some((Health::Degraded, warn))
    } else {
        None
    }
}

/// The finding for a value and the line it crossed, if it crossed one.
pub open spec fn crossed(
    rule: Seq<char>,
    actual: Double,
    line: Option<(Health, Double)>,
    unit: Seq<char>,
    subject: Option<Seq<char>>,
) -> Seq<Finding> {
    match line {
        Some((level, threshold)) => seq![Finding { rule, level, actual, threshold, unit, subject }],
        None => Seq::empty(),
    }
}

/// The finding for a value that is degraded as soon as it is above its limit.
pub open spec fn above(
    rule: Seq<char>,
    actual: Double,
    limit: Double,
    unit: Seq<char>,
    subject: Option<Seq<char>>,
) -> Seq<Finding> {
    crossed(
        rule,
        actual,
        if limit.below(actual) {
            Some((Health::Degraded, limit))
        } else {
            None
        },
        unit,
        subject,
    )
}

/// CPU, RAM and swap of the machine.
pub open spec fn system_findings(l: Limits, s: Option<SystemMetrics>) -> Seq<Finding> {
    match s {
        Some(s) => {
            let cpu = single::widened(s.cpu_pct);
            crossed("cpu_high"@, cpu, risen(cpu, l.cpu_pct, l.cpu_pct_critical), "%"@, None) + (
            match s.ram_share() {
                Some(used) => crossed(
                    "ram_pressure"@,
                    used,
                    risen(used, l.ram_used_pct, l.ram_used_pct_critical),
                    "%"@,
                    None,
                ),
                None => Seq::empty(),
            }) + (match s.swap_share() {
                Some(used) => above("swap_in_use"@, used, l.swap_used_pct, "%"@, None),
                None => Seq::empty(),
            })
        },
        None => Seq::empty(),
    }
}

/// One filesystem that is nearly full.
pub open spec fn disk_findings(l: Limits, d: DiskMetrics) -> Seq<Finding> {
    match d.free_share() {
        Some(free) => crossed(
            "disk_low"@,
            free,
            fallen(free, l.disk_free_pct, l.disk_free_pct_critical),
            "%"@,
            Some(d.mount@),
        ),
        None => Seq::empty(),
    }
}

/// All the filesystems, in the order they were listed in.
pub open spec fn all_disk_findings(l: Limits, d: Seq<DiskMetrics>) -> Seq<Finding>
    decreases d.len(),
{
    if d.len() == 0 {
        Seq::empty()
    } else {
        all_disk_findings(l, d.drop_last()) + disk_findings(l, d.last())
    }
}

/// The leak rule.
pub open spec fn growth_findings(l: Limits, slope: Option<Double>) -> Seq<Finding> {
    match slope {
        Some(s) => above("memory_growth"@, s, l.mem_growth_mib_per_hour, "MiB/h"@, None),
        None => Seq::empty(),
    }
}

/// The handle rule.
pub open spec fn handle_findings(l: Limits, open: Option<u32>) -> Seq<Finding> {
    match (open, l.handles) {
        (Some(h), Some(limit)) => if h > limit {
            seq![
                Finding {
                    rule: "handle_leak"@,
                    level: Health::Degraded,
                    actual: double::of_quotient(h as nat, 1),
                    threshold: double::of_quotient(limit as nat, 1),
                    unit: "handles"@,
                    subject: None,
                },
            ]
        } else {
            Seq::empty()
        },
        _ => Seq::empty(),
    }
}

/// A line as a percentage.
pub open spec fn line_percent(line: Option<(Health, Double)>) -> Option<(Health, Double)> {
    match line {
        Some((level, th)) => Some((level, double::product(th, double::of_quotient(100, 1)))),
        None => None,
    }
}

/// One operation: its error rate, then its latency budget.
pub open spec fn op_findings(l: Limits, op: OpTiming) -> Seq<Finding> {
    (match op.error_rate {
        Some(rate) => crossed(
            "op_errors"@,
            double::product(rate, double::of_quotient(100, 1)),
            line_percent(risen(rate, l.op_error_rate, l.op_error_rate_critical)),
            "%"@,
            Some(op.name@),
        ),
        None => Seq::empty(),
    }) + (match (l.op_p99_ms, report::maybe_milliseconds(op.p99_us)) {
        (Some(budget), Some(p99)) => above("op_slow"@, p99, budget, "ms"@, Some(op.name@)),
        _ => Seq::empty(),
    })
}

/// All the operations, in the order they were listed in.
pub open spec fn all_op_findings(l: Limits, ops: Seq<OpTiming>) -> Seq<Finding>
    decreases ops.len(),
{
    if ops.len() == 0 {
        Seq::empty()
    } else {
        all_op_findings(l, ops.drop_last()) + op_findings(l, ops.last())
    }
}

/// Everything that crossed a line.
pub open spec fn findings(
    l: Limits,
    system: Option<SystemMetrics>,
    disks: Seq<DiskMetrics>,
    slope: Option<Double>,
    handles: Option<u32>,
    ops: Seq<OpTiming>,
) -> Seq<Finding> {
    system_findings(l, system) + all_disk_findings(l, disks) + growth_findings(l, slope)
        + handle_findings(l, handles) + all_op_findings(l, ops)
}

impl<'a> Inputs<'a> {
    pub open spec fn machine(&self) -> Option<SystemMetrics> {
        match self.system {
            Some(s) => Some(*s),
            None => None,
        }
    }

    /// The slope that is known, if any.
    pub open spec fn slope(&self) -> Option<Double> {
        match self.memory_trend {
            Some(t) => t.slope_mib_per_hour,
            None => None,
        }
    }

    pub open spec fn open_handles(&self) -> Option<u32> {
        match self.process {
            Some(p) => p.handles,
            None => None,
        }
    }

    /// Everything in here that crosses a line.
    pub open spec fn crossing(&self, l: Limits) -> Seq<Finding> {
        findings(
            l,
            self.machine(),
            self.disks@,
            self.slope(),
            self.open_handles(),
            self.ops@,
        )
    }
}

/// Adds what crossed a line.
fn judge(
    out: &mut Vec<Verdict>,
    rule: &'static str,
    actual: Double,
    line: Option<(Health, Double)>,
    unit: &'static str,
    subject: Option<String>,
)
    ensures
        report::said(final(out)@) == report::said(old(out)@) + crossed(
            rule@,
            actual,
            line,
            unit@,
            report::maybe_text(subject),
        ),
{
    if let Some((level, threshold)) = line {
        out.push(Verdict { rule, level, actual, threshold, unit, subject });
    }
    assert(report::said(out@) =~= report::said(old(out)@) + crossed(
        rule@,
        actual,
        line,
        unit@,
        report::maybe_text(subject),
    ));
}

/// The line of a rule that has only one.
fn single_line(actual: Double, limit: Double) -> (r: Option<(Health, Double)>)
    ensures
        r == if limit.below(actual) {
            Some((Health::Degraded, limit))
        } else {
            None
        },
{
    if limit.less(actual) {
        Some((Health::Degraded, limit))
    } else {
        None
    }
}

fn judge_system(out: &mut Vec<Verdict>, limits: &Limits, s: &SystemMetrics)
    ensures
        report::said(final(out)@) == report::said(old(out)@) + system_findings(*limits, Some(*s)),
{
    let cpu: Double = s.cpu_pct.widen();
    judge(out, "cpu_high", cpu, rising(cpu, limits.cpu_pct, limits.cpu_pct_critical), "%", None);
    if let Some(used) = s.ram_used_pct() {
        let line = rising(used, limits.ram_used_pct, limits.ram_used_pct_critical);
        judge(out, "ram_pressure", used, line, "%", None);
    }
    if let Some(used) = s.swap_used_pct() {
        judge(out, "swap_in_use", used, single_line(used, limits.swap_used_pct), "%", None);
    }
    assert(report::said(out@) =~= report::said(old(out)@) + system_findings(*limits, Some(*s)));
}

fn judge_op(out: &mut Vec<Verdict>, limits: &Limits, op: &OpTiming)
    ensures
        report::said(final(out)@) == report::said(old(out)@) + op_findings(*limits, *op),
{
    // `None` means nothing ran this interval — no calls is not 0% errors.
    if let Some(rate) = op.error_rate {
        let hundred: Double = Double::from_u64(100);
        let line = match rising(rate, limits.op_error_rate, limits.op_error_rate_critical) {
            Some((level, th)) => Some((level, th.times(hundred))),
            None => None,
        };
        judge(out, "op_errors", rate.times(hundred), line, "%", Some(op.name.to_owned()));
    }
    if let (Some(budget), Some(p99)) = (limits.op_p99_ms, op.p99_ms()) {
        judge(out, "op_slow", p99, single_line(p99, budget), "ms", Some(op.name.to_owned()));
    }
    assert(report::said(out@) =~= report::said(old(out)@) + op_findings(*limits, *op));
}

pub fn evaluate(limits: &Limits, inputs: &Inputs<'_>) -> (out: Vec<Verdict>)
    ensures
        report::said(out@) == inputs.crossing(*limits),
{
    let mut out: Vec<Verdict> = Vec::new();
    assert(report::said(out@) =~= Seq::<Finding>::empty());

    if let Some(s) = inputs.system {
        judge_system(&mut out, limits, s);
    }
    assert(report::said(out@) =~= system_findings(*limits, inputs.machine()));

    let ghost head = report::said(out@);
    let mut i: usize = 0;
    assert(inputs.disks@.take(0) =~= Seq::<DiskMetrics>::empty());
    assert(head =~= head + all_disk_findings(*limits, inputs.disks@.take(0)));
    while i < inputs.disks.len()
        invariant
            i <= inputs.disks@.len(),
            report::said(out@) == head + all_disk_findings(*limits, inputs.disks@.take(i as int)),
        decreases inputs.disks@.len() - i,
    {
        let d: &DiskMetrics = &inputs.disks[i];
        let ghost was = report::said(out@);
        if let Some(free) = d.free_pct() {
            let line = falling(free, limits.disk_free_pct, limits.disk_free_pct_critical);
            judge(&mut out, "disk_low", free, line, "%", Some(d.mount.clone()));
        }
        proof {
            assert(report::said(out@) =~= was + disk_findings(*limits, *d));
            let t = inputs.disks@.take(i + 1);
            assert(t.drop_last() =~= inputs.disks@.take(i as int));
            assert(report::said(out@) =~= head + all_disk_findings(*limits, t));
        }
        i = i + 1;
    }
    assert(inputs.disks@.take(i as int) =~= inputs.disks@);

    // The leak rule. Deliberately keyed on the floor's slope rather than any
    // current reading: a process that spikes and recovers is working, and only
    // a resting level that keeps climbing runs out of memory eventually.
    let ghost was = report::said(out@);
    if let Some(t) = inputs.memory_trend {
        if let Some(slope) = t.slope_mib_per_hour {
            let line = single_line(slope, limits.mem_growth_mib_per_hour);
            judge(&mut out, "memory_growth", slope, line, "MiB/h", None);
        }
    }
    assert(report::said(out@) =~= was + growth_findings(*limits, inputs.slope()));

    let ghost was = report::said(out@);
    if let (Some(p), Some(limit)) = (inputs.process, limits.handles) {
        if let Some(h) = p.handles {
            if h > limit {
                let threshold: Double = Double::from_u64(limit as u64);
                let actual: Double = Double::from_u64(h as u64);
                let line = Some((Health::Degraded, threshold));
                judge(&mut out, "handle_leak", actual, line, "handles", None);
            }
        }
    }
    assert(report::said(out@) =~= was + handle_findings(*limits, inputs.open_handles()));

    let ghost head = report::said(out@);
    let mut i: usize = 0;
    assert(inputs.ops@.take(0) =~= Seq::<OpTiming>::empty());
    assert(head =~= head + all_op_findings(*limits, inputs.ops@.take(0)));
    while i < inputs.ops.len()
        invariant
            i <= inputs.ops@.len(),
            report::said(out@) == head + all_op_findings(*limits, inputs.ops@.take(i as int)),
        decreases inputs.ops@.len() - i,
    {
        let op: &OpTiming = &inputs.ops[i];
        judge_op(&mut out, limits, op);
        proof {
            let t = inputs.ops@.take(i + 1);
            assert(t.drop_last() =~= inputs.ops@.take(i as int));
            assert(report::said(out@) =~= head + all_op_findings(*limits, t));
        }
        i = i + 1;
    }
    assert(inputs.ops@.take(i as int) =~= inputs.ops@);
    out
}

/// No finding is a healthy one.
pub open spec fn all_bad(f: Seq<Finding>) -> bool {
    forall|i: int| 0 <= i < f.len() ==> #[trigger] f[i].level != Health::Healthy
}

proof fn lemma_disks_all_bad(l: Limits, d: Seq<DiskMetrics>)
    ensures
        all_bad(all_disk_findings(l, d)),
    decreases d.len(),
{
    if d.len() > 0 {
        lemma_disks_all_bad(l, d.drop_last());
    }
}

proof fn lemma_ops_all_bad(l: Limits, ops: Seq<OpTiming>)
    ensures
        all_bad(all_op_findings(l, ops)),
    decreases ops.len(),
{
    if ops.len() > 0 {
        lemma_ops_all_bad(l, ops.drop_last());
    }
}

/// A verdict is always bad news: what crosses no line is not reported.
pub proof fn verdicts_are_bad_news(
    l: Limits,
    system: Option<SystemMetrics>,
    disks: Seq<DiskMetrics>,
    slope: Option<Double>,
    handles: Option<u32>,
    ops: Seq<OpTiming>,
)
    ensures
        all_bad(findings(l, system, disks, slope, handles, ops)),
{
    lemma_disks_all_bad(l, disks);
    lemma_ops_all_bad(l, ops);
}

/// The leak rule looks at the slope of the floor alone: two windows with the
/// same slope are judged alike, whatever their peaks.
pub proof fn only_the_slope_is_judged(
    l: Limits,
    a: Inputs<'_>,
    b: Inputs<'_>,
    one: MemoryTrend,
    other: MemoryTrend,
)
    requires
        a.memory_trend == Some(&one),
        b.memory_trend == Some(&other),
        one.slope_mib_per_hour == other.slope_mib_per_hour,
        a.system == b.system,
        a.process == b.process,
        a.disks == b.disks,
        a.ops == b.ops,
    ensures
        a.crossing(l) == b.crossing(l),
{
}

/// An unknown slope is judged like no trend at all: no evidence is not a leak.
pub proof fn an_unknown_slope_is_no_evidence(l: Limits, a: Inputs<'_>, b: Inputs<'_>, t: MemoryTrend)
    requires
        t.slope_mib_per_hour is None,
        a.memory_trend == Some(&t),
        b.memory_trend is None,
        a.system == b.system,
        a.process == b.process,
        a.disks == b.disks,
        a.ops == b.ops,
    ensures
        a.crossing(l) == b.crossing(l),
        growth_findings(l, a.slope()).len() == 0,
{
}

/// An operation that did not run in the interval has no error rate to judge,
/// and without a latency budget nothing is said of it.
pub proof fn silence_is_exempt(l: Limits, op: OpTiming)
    requires
        op.error_rate is None,
        l.op_p99_ms is None,
    ensures
        op_findings(l, op).len() == 0,
{
}

/// Crossing the critical line is worse than crossing the warn line: both ends
/// of the ladder can be reached from one rule.
pub proof fn both_lines_are_distinct(actual: Double, warn: Double, critical: Double)
    ensures
        critical.below(actual) ==> risen(actual, warn, critical) == Some(
            (Health::Unhealthy, critical),
        ),
        warn.below(actual) && !critical.below(actual) ==> risen(actual, warn, critical) == Some(
            (Health::Degraded, warn),
        ),
        actual.below(critical) ==> fallen(actual, warn, critical) == Some(
            (Health::Unhealthy, critical),
        ),
        actual.below(warn) && !actual.below(critical) ==> fallen(actual, warn, critical) == Some(
            (Health::Degraded, warn),
        ),
{
}

} // verus!
