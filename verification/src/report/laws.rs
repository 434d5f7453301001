//! What a report promises: everything that is wrong is listed, worst first, and
//! the overall health is the worst of it.

use crate::float::double::Double;
use crate::float::single;
use crate::report;
use crate::report::{ApmReport, CheckResult, Health, Verdict, WatchEvent, WatchedProcess};
use crate::text;
use vstd::prelude::*;

verus! {

/// How many checks failed.
pub open spec fn failed(c: Seq<CheckResult>) -> nat
    decreases c.len(),
{
    if c.len() == 0 {
        0
    } else {
        failed(c.drop_last()) + if c.last().status != Health::Healthy {
            1nat
        } else {
            0nat
        }
    }
}

/// How many watched processes are gone or were restarted.
pub open spec fn troubled(w: Seq<WatchedProcess>) -> nat
    decreases w.len(),
{
    if w.len() == 0 {
        0
    } else {
        troubled(w.drop_last()) + match w.last().event {
            Some(WatchEvent::Gone) => 1nat,
            Some(WatchEvent::Switched { .. }) => 1nat,
            _ => 0nat,
        }
    }
}

proof fn lemma_verdicts_collected(v: Seq<Verdict>)
    ensures
        report::verdict_lines(v).len() == v.len(),
        forall|i: int|
            0 <= i < v.len() ==> #[trigger] report::verdict_lines(v)[i] == (
                v[i].level,
                report::verdict_line(v[i]@),
            ),
    decreases v.len(),
{
    if v.len() > 0 {
        lemma_verdicts_collected(v.drop_last());
        let (a, b) = (report::verdict_lines(v.drop_last()), report::verdict_lines(v));
        assert forall|i: int| 0 <= i < v.len() implies #[trigger] b[i] == (
            v[i].level,
            report::verdict_line(v[i]@),
        ) by {
            if i < a.len() {
                assert(b[i] == a[i]);
                assert(v.drop_last()[i] == v[i]);
            }
        }
    }
}

proof fn lemma_checks_collected(c: Seq<CheckResult>)
    ensures
        report::check_lines(c).len() == failed(c),
    decreases c.len(),
{
    if c.len() > 0 {
        lemma_checks_collected(c.drop_last());
    }
}

/// A check that failed was collected.
proof fn lemma_check_to(c: Seq<CheckResult>, i: int) -> (j: int)
    requires
        0 <= i < c.len(),
        c[i].status != Health::Healthy,
    ensures
        0 <= j < report::check_lines(c).len(),
        report::check_lines(c)[j] == (c[i].status, report::check_line(c[i])),
    decreases c.len(),
{
    let (a, b) = (report::check_lines(c.drop_last()), report::check_lines(c));
    if i < c.len() - 1 {
        let j = lemma_check_to(c.drop_last(), i);
        assert(b[j] == a[j]);
        j
    } else {
        a.len() as int
    }
}

/// What was collected of checks comes from one that failed.
proof fn lemma_check_from(c: Seq<CheckResult>, j: int) -> (i: int)
    requires
        0 <= j < report::check_lines(c).len(),
    ensures
        0 <= i < c.len(),
        c[i].status != Health::Healthy,
        c[i].status == report::check_lines(c)[j].0,
    decreases c.len(),
{
    let (a, b) = (report::check_lines(c.drop_last()), report::check_lines(c));
    if j < a.len() {
        assert(b[j] == a[j]);
        lemma_check_from(c.drop_last(), j)
    } else {
        c.len() - 1
    }
}

/// The line and the level of a watched process that is gone or was restarted.
spec fn trouble(w: WatchedProcess) -> (Health, Seq<char>) {
    match w.event {
        Some(WatchEvent::Switched { old_pid }) => (
            Health::Degraded,
            "process restarted: "@ + w.pattern@ + " (was pid "@ + text::decimal(old_pid as nat)
                + ")"@,
        ),
        _ => (Health::Unhealthy, "process gone: "@ + w.pattern@),
    }
}

spec fn in_trouble(w: WatchedProcess) -> bool {
    match w.event {
        Some(WatchEvent::Gone) => true,
        Some(WatchEvent::Switched { .. }) => true,
        _ => false,
    }
}

proof fn lemma_watched_collected(w: Seq<WatchedProcess>)
    ensures
        report::watch_lines(w).len() == troubled(w),
    decreases w.len(),
{
    if w.len() > 0 {
        lemma_watched_collected(w.drop_last());
    }
}

/// A process in trouble was collected.
proof fn lemma_trouble_to(w: Seq<WatchedProcess>, i: int) -> (j: int)
    requires
        0 <= i < w.len(),
        in_trouble(w[i]),
    ensures
        0 <= j < report::watch_lines(w).len(),
        report::watch_lines(w)[j] == trouble(w[i]),
    decreases w.len(),
{
    let (a, b) = (report::watch_lines(w.drop_last()), report::watch_lines(w));
    if i < w.len() - 1 {
        let j = lemma_trouble_to(w.drop_last(), i);
        assert(b[j] == a[j]);
        j
    } else {
        assert(report::watch_line(w.last()) == Some(trouble(w.last())));
        a.len() as int
    }
}

/// What was collected of watched processes comes from one in trouble.
proof fn lemma_trouble_from(w: Seq<WatchedProcess>, j: int) -> (i: int)
    requires
        0 <= j < report::watch_lines(w).len(),
    ensures
        0 <= i < w.len(),
        in_trouble(w[i]),
        trouble(w[i]).0 == report::watch_lines(w)[j].0,
    decreases w.len(),
{
    let (a, b) = (report::watch_lines(w.drop_last()), report::watch_lines(w));
    if j < a.len() {
        assert(b[j] == a[j]);
        lemma_trouble_from(w.drop_last(), j)
    } else {
        assert(in_trouble(w.last()) ==> report::watch_line(w.last()) == Some(trouble(w.last())));
        assert(!in_trouble(w.last()) ==> report::watch_line(w.last()) is None);
        w.len() - 1
    }
}

/// As many problems are listed as there are verdicts, failed checks and watched
/// processes that are gone or were restarted.
pub proof fn every_problem_is_listed_once(r: ApmReport)
    ensures
        r.problem_lines().len() == r.verdicts@.len() + failed(r.checks@) + troubled(r.watched@),
{
    report::every_finding_is_a_problem(r);
    lemma_verdicts_collected(r.verdicts@);
    lemma_checks_collected(r.checks@);
    lemma_watched_collected(r.watched@);
}

/// A line that was collected is among the problems, behind all that are worse.
proof fn lemma_listed(r: ApmReport, level: Health, line: Seq<char>)
    requires
        r.collected().contains((level, line)),
    ensures
        ({
            let bad = report::at_level(r.collected(), Health::Unhealthy).len() as int;
            &&& r.problem_lines().contains(line)
            &&& level == Health::Unhealthy ==> r.problem_lines().take(bad).contains(line)
            &&& level != Health::Unhealthy ==> r.problem_lines().skip(bad).contains(line)
        }),
{
    let f = r.collected();
    let i = choose|i: int| 0 <= i < f.len() && f[i] == (level, line);
    report::lemma_at_level_keeps(f, i);
    let (a, b, c) = (
        report::at_level(f, Health::Unhealthy),
        report::at_level(f, Health::Degraded),
        report::at_level(f, Health::Healthy),
    );
    let all = r.problem_lines();
    let n = a.len() as int;
    match level {
        Health::Unhealthy => {
            let k = choose|k: int| 0 <= k < a.len() && a[k] == line;
            assert(all[k] == line);
            assert(all.take(n)[k] == line);
        },
        Health::Degraded => {
            let k = choose|k: int| 0 <= k < b.len() && b[k] == line;
            assert(all[n + k] == line);
            assert(all.skip(n)[k] == line);
        },
        Health::Healthy => {
            let k = choose|k: int| 0 <= k < c.len() && c[k] == line;
            assert(all[n + b.len() + k] == line);
            assert(all.skip(n)[b.len() + k] == line);
        },
    }
}

/// Every verdict is listed, unhealthy ones in front, with its rule, its subject,
/// its value and its limit in its unit.
pub proof fn every_verdict_is_listed(r: ApmReport, i: int)
    requires
        0 <= i < r.verdicts@.len(),
    ensures
        ({
            let v = r.verdicts@[i]@;
            let subject = match v.subject {
                Some(s) => " ["@ + s + "]"@,
                None => Seq::empty(),
            };
            let line = v.rule + subject + ": "@ + text::one_place(v.actual, false) + v.unit
                + " (limit "@ + text::one_place(v.threshold, false) + v.unit + ")"@;
            let bad = report::at_level(r.collected(), Health::Unhealthy).len() as int;
            &&& r.problem_lines().contains(line)
            &&& v.level == Health::Unhealthy ==> r.problem_lines().take(bad).contains(line)
            &&& v.level != Health::Unhealthy ==> r.problem_lines().skip(bad).contains(line)
        }),
{
    let v = r.verdicts@;
    lemma_verdicts_collected(v);
    assert(report::verdict_lines(v)[i] == (v[i].level, report::verdict_line(v[i]@)));
    assert(r.collected()[i] == report::verdict_lines(v)[i]);
    lemma_listed(r, v[i].level, report::verdict_line(v[i]@));
}

/// Every check that failed is listed, with its name, what went wrong and how long
/// it took.
pub proof fn every_failed_check_is_listed(r: ApmReport, i: int)
    requires
        0 <= i < r.checks@.len(),
        r.checks@[i].status != Health::Healthy,
    ensures
        ({
            let c = r.checks@[i];
            let message = if c.message is Some {
                c.message->0@
            } else {
                "failed"@
            };
            let line = "check "@ + c.name@ + ": "@ + message + " ("@ + text::decimal(
                c.latency_ms as nat,
            ) + "ms)"@;
            let bad = report::at_level(r.collected(), Health::Unhealthy).len() as int;
            &&& r.problem_lines().contains(line)
            &&& c.status == Health::Unhealthy ==> r.problem_lines().take(bad).contains(line)
            &&& c.status != Health::Unhealthy ==> r.problem_lines().skip(bad).contains(line)
        }),
{
    let c = r.checks@;
    let k = lemma_check_to(c, i);
    lemma_check_at(r, k);
    lemma_listed(r, c[i].status, report::check_line(c[i]));
    lemma_check_text(c[i]);
}

proof fn lemma_check_text(c: CheckResult)
    ensures
        report::check_line(c) == "check "@ + c.name@ + ": "@ + (if c.message is Some {
            c.message->0@
        } else {
            "failed"@
        }) + " ("@ + text::decimal(c.latency_ms as nat) + "ms)"@,
{
}

/// Checks are collected behind the verdicts.
proof fn lemma_check_at(r: ApmReport, k: int)
    requires
        0 <= k < report::check_lines(r.checks@).len(),
    ensures
        r.collected().contains(report::check_lines(r.checks@)[k]),
{
    let (a, b) = (report::verdict_lines(r.verdicts@), report::check_lines(r.checks@));
    assert(r.collected()[a.len() + k] == b[k]);
}

/// Watched processes are collected behind the checks.
proof fn lemma_trouble_at(r: ApmReport, k: int)
    requires
        0 <= k < report::watch_lines(r.watched@).len(),
    ensures
        r.collected().contains(report::watch_lines(r.watched@)[k]),
{
    let (a, b) = (report::verdict_lines(r.verdicts@), report::check_lines(r.checks@));
    let c = report::watch_lines(r.watched@);
    assert(r.collected()[a.len() + b.len() + k] == c[k]);
}

/// A watched process that is gone is listed among the worst, and one that was
/// restarted behind them, with the process id that went away.
pub proof fn every_troubled_process_is_listed(r: ApmReport, i: int)
    requires
        0 <= i < r.watched@.len(),
    ensures
        ({
            let w = r.watched@[i];
            let bad = report::at_level(r.collected(), Health::Unhealthy).len() as int;
            &&& w.event == Some(WatchEvent::Gone) ==> r.problem_lines().take(bad).contains(
                "process gone: "@ + w.pattern@,
            )
            &&& w.event matches Some(WatchEvent::Switched { old_pid }) ==> r.problem_lines().skip(
                bad,
            ).contains(
                "process restarted: "@ + w.pattern@ + " (was pid "@ + text::decimal(old_pid as nat)
                    + ")"@,
            )
        }),
{
    let w = r.watched@;
    if in_trouble(w[i]) {
        let k = lemma_trouble_to(w, i);
        lemma_trouble_at(r, k);
        lemma_listed(r, trouble(w[i]).0, trouble(w[i]).1);
    }
}

/// A verdict is at this level.
pub open spec fn verdict_at(r: ApmReport, level: Health) -> bool {
    exists|i: int| 0 <= i < r.verdicts@.len() && (#[trigger] r.verdicts@[i]).level == level
}

/// A check is at this level.
pub open spec fn check_at(r: ApmReport, level: Health) -> bool {
    exists|i: int| 0 <= i < r.checks@.len() && (#[trigger] r.checks@[i]).status == level
}

/// A watched process is gone.
pub open spec fn one_gone(r: ApmReport) -> bool {
    exists|i: int|
        0 <= i < r.watched@.len() && (#[trigger] r.watched@[i]).event == Some(WatchEvent::Gone)
}

/// A watched process was restarted.
pub open spec fn one_restarted(r: ApmReport) -> bool {
    exists|i: int|
        0 <= i < r.watched@.len() && (#[trigger] r.watched@[i]).event matches Some(
            WatchEvent::Switched { .. },
        )
}

/// What is collected at a level that is not healthy.
spec fn collected_at(r: ApmReport, level: Health) -> bool {
    exists|k: int| 0 <= k < r.collected().len() && (#[trigger] r.collected()[k]).0 == level
}

proof fn lemma_collected_from(r: ApmReport, level: Health)
    requires
        collected_at(r, level),
        level != Health::Healthy,
    ensures
        verdict_at(r, level) || check_at(r, level) || (level == Health::Unhealthy && one_gone(r))
            || (level == Health::Degraded && one_restarted(r)),
{
    let f = r.collected();
    let k = choose|k: int| 0 <= k < f.len() && (#[trigger] f[k]).0 == level;
    let (v, c, w) = (r.verdicts@, r.checks@, r.watched@);
    let (x, y, z) = (
        report::verdict_lines(v),
        report::check_lines(c),
        report::watch_lines(w),
    );
    if k < x.len() {
        lemma_verdicts_collected(v);
        assert(f[k] == x[k]);
        assert(v[k].level == level);
    } else if k < x.len() + y.len() {
        assert(f[k] == y[k - x.len()]);
        let i = lemma_check_from(c, k - x.len());
        assert(c[i].status == level);
    } else {
        assert(f[k] == z[k - x.len() - y.len()]);
        let i = lemma_trouble_from(w, k - x.len() - y.len());
        assert(in_trouble(w[i]));
        assert(w[i].event is Some);
    }
}

proof fn lemma_verdict_collected(r: ApmReport, level: Health)
    requires
        verdict_at(r, level),
    ensures
        collected_at(r, level),
{
    let v = r.verdicts@;
    let i = choose|i: int| 0 <= i < v.len() && (#[trigger] v[i]).level == level;
    lemma_verdicts_collected(v);
    assert(r.collected()[i] == report::verdict_lines(v)[i]);
}

proof fn lemma_check_collected(r: ApmReport, level: Health)
    requires
        check_at(r, level),
        level != Health::Healthy,
    ensures
        collected_at(r, level),
{
    let c = r.checks@;
    let i = choose|i: int| 0 <= i < c.len() && (#[trigger] c[i]).status == level;
    let k = lemma_check_to(c, i);
    let a = report::verdict_lines(r.verdicts@);
    assert(r.collected()[a.len() + k] == report::check_lines(c)[k]);
}

proof fn lemma_watched_collected_at(r: ApmReport, i: int)
    requires
        0 <= i < r.watched@.len(),
        in_trouble(r.watched@[i]),
    ensures
        collected_at(r, trouble(r.watched@[i]).0),
{
    let w = r.watched@;
    let k = lemma_trouble_to(w, i);
    let (a, b) = (report::verdict_lines(r.verdicts@), report::check_lines(r.checks@));
    assert(r.collected()[a.len() + b.len() + k] == report::watch_lines(w)[k]);
}

/// The worst of everything found: unhealthy exactly where a verdict or a check is
/// or a watched process is gone; healthy exactly where none of that is so, no
/// verdict or check is degraded and no process was restarted.
pub proof fn the_worst_of_everything_decides(r: ApmReport)
    ensures
        report::worst(r.collected()) == Health::Unhealthy <==> verdict_at(r, Health::Unhealthy)
            || check_at(r, Health::Unhealthy) || one_gone(r),
        report::worst(r.collected()) == Health::Healthy <==> !verdict_at(r, Health::Unhealthy)
            && !check_at(r, Health::Unhealthy) && !one_gone(r) && !verdict_at(r, Health::Degraded)
            && !check_at(r, Health::Degraded) && !one_restarted(r),
{
    let f = r.collected();
    report::lemma_worst(f);
    if verdict_at(r, Health::Unhealthy) {
        lemma_verdict_collected(r, Health::Unhealthy);
    }
    if verdict_at(r, Health::Degraded) {
        lemma_verdict_collected(r, Health::Degraded);
    }
    if check_at(r, Health::Unhealthy) {
        lemma_check_collected(r, Health::Unhealthy);
    }
    if check_at(r, Health::Degraded) {
        lemma_check_collected(r, Health::Degraded);
    }
    let w = r.watched@;
    if one_gone(r) {
        let i = choose|i: int|
            0 <= i < w.len() && (#[trigger] w[i]).event == Some(WatchEvent::Gone);
        lemma_watched_collected_at(r, i);
    }
    if one_restarted(r) {
        let i = choose|i: int|
            0 <= i < w.len() && (#[trigger] w[i]).event matches Some(WatchEvent::Switched { .. });
        lemma_watched_collected_at(r, i);
    }
    if collected_at(r, Health::Unhealthy) {
        lemma_collected_from(r, Health::Unhealthy);
    }
    if collected_at(r, Health::Degraded) {
        lemma_collected_from(r, Health::Degraded);
    }
    if f.len() > 0 {
        let k = choose|k: int| 0 <= k < f.len() && (#[trigger] f[k]).0 == report::worst(f);
        assert(f[k].0 == report::worst(f));
    }
}

/// The series that is judged: private bytes where there are any, the working set
/// otherwise.
pub proof fn private_bytes_are_the_honest_series(m: report::MemoryHealth)
    ensures
        m.private is Some ==> m.honest() == m.private,
        m.private is None ==> m.honest() == m.rss,
{
}

/// The lines of one level are those that were collected at it, in the order they
/// were collected in.
pub proof fn lines_keep_their_order(f: Seq<(Health, Seq<char>)>, level: Health)
    ensures
        report::at_level(f, level) == f.filter(|x: (Health, Seq<char>)| x.0 == level).map_values(
            |x: (Health, Seq<char>)| x.1,
        ),
    decreases f.len(),
{
    reveal(Seq::filter);
    if f.len() > 0 {
        lines_keep_their_order(f.drop_last(), level);
        let a = f.drop_last().filter(|x: (Health, Seq<char>)| x.0 == level);
        let b = f.filter(|x: (Health, Seq<char>)| x.0 == level);
        if f.last().0 == level {
            assert(b == a.push(f.last()));
            assert(b.map_values(|x: (Health, Seq<char>)| x.1) =~= a.map_values(
                |x: (Health, Seq<char>)| x.1,
            ).push(f.last().1));
        }
    } else {
        assert(report::at_level(f, level) =~= f.filter(
            |x: (Health, Seq<char>)| x.0 == level,
        ).map_values(|x: (Health, Seq<char>)| x.1));
    }
}

/// The problems are the unhealthy lines, then the degraded ones, then the rest.
pub proof fn the_worst_come_first(r: ApmReport)
    ensures
        r.problem_lines() == report::at_level(r.collected(), Health::Unhealthy) + report::at_level(
            r.collected(),
            Health::Degraded,
        ) + report::at_level(r.collected(), Health::Healthy),
{
}

/// A summary tells the service and its health, the memory and the CPU of this
/// process as far as they were measured, the growth of its floor where it is known,
/// how many operations were measured, how many errors were noted and, where there
/// are any, how many problems there are.
pub proof fn a_summary_tells_the_essentials(r: ApmReport)
    ensures
        r.summary_line() == summarised(
            r,
            (if r.process is Some {
                text::no_place(report::mebibytes(r.process->0.rss)) + "MiB"@ + " cpu="@
                    + text::one_place(single::widened(r.process->0.cpu_pct), false) + "%"@
            } else {
                "?"@ + " cpu="@ + "?"@
            }) + (if growth_of(r) is Some {
                " growth="@ + text::one_place(growth_of(r)->0, true) + "MiB/h"@
            } else {
                Seq::empty()
            }),
        ),
{
    let rss = match r.process {
        Some(p) => text::no_place(report::mebibytes(p.rss)) + "MiB"@,
        None => "?"@,
    };
    let cpu = match r.process {
        Some(p) => text::one_place(single::widened(p.cpu_pct), false) + "%"@,
        None => "?"@,
    };
    let growth = match r.memory.honest() {
        Some(t) => match t.slope_mib_per_hour {
            Some(s) => " growth="@ + text::one_place(s, true) + "MiB/h"@,
            None => Seq::empty(),
        },
        None => Seq::empty(),
    };
    let middle = (if r.process is Some {
        text::no_place(report::mebibytes(r.process->0.rss)) + "MiB"@ + " cpu="@ + text::one_place(
            single::widened(r.process->0.cpu_pct),
            false,
        ) + "%"@
    } else {
        "?"@ + " cpu="@ + "?"@
    }) + (if growth_of(r) is Some {
        " growth="@ + text::one_place(growth_of(r)->0, true) + "MiB/h"@
    } else {
        Seq::empty()
    });
    assert(middle =~= rss + " cpu="@ + cpu + growth);
    lemma_framed(r, rss, cpu, growth);
}

proof fn lemma_framed(r: ApmReport, rss: Seq<char>, cpu: Seq<char>, growth: Seq<char>)
    ensures
        ({
            let tail = if r.problem_lines().len() == 0 {
                Seq::empty()
            } else {
                " problems="@ + text::decimal(r.problem_lines().len())
            };
            r.identity.service@ + " "@ + r.overall.label() + " rss="@ + rss + " cpu="@ + cpu
                + growth + " ops="@ + text::decimal(r.ops@.len()) + " errors="@ + text::decimal(
                r.errors.total as nat,
            ) + tail == summarised(r, rss + " cpu="@ + cpu + growth)
        }),
{
    let tail = if r.problem_lines().len() == 0 {
        Seq::empty()
    } else {
        " problems="@ + text::decimal(r.problem_lines().len())
    };
    assert(r.identity.service@ + " "@ + r.overall.label() + " rss="@ + rss + " cpu="@ + cpu + growth
        + " ops="@ + text::decimal(r.ops@.len()) + " errors="@ + text::decimal(
        r.errors.total as nat,
    ) + tail =~= summarised(r, rss + " cpu="@ + cpu + growth));
}

/// The growth of the series that is judged, where it is known.
pub open spec fn growth_of(r: ApmReport) -> Option<Double> {
    if r.memory.private is Some {
        r.memory.private->0.slope_mib_per_hour
    } else if r.memory.rss is Some {
        r.memory.rss->0.slope_mib_per_hour
    } else {
        None
    }
}

/// The frame of a summary around the memory and the CPU.
pub open spec fn summarised(r: ApmReport, middle: Seq<char>) -> Seq<char> {
    let tail = if r.problem_lines().len() == 0 {
        Seq::empty()
    } else {
        " problems="@ + text::decimal(r.problem_lines().len())
    };
    r.identity.service@ + " "@ + (match r.overall {
        Health::Healthy => "Healthy"@,
        Health::Degraded => "Degraded"@,
        Health::Unhealthy => "Unhealthy"@,
    }) + " rss="@ + middle + " ops="@ + text::decimal(r.ops@.len()) + " errors="@ + text::decimal(
        r.errors.total as nat,
    ) + tail
}

} // verus!
