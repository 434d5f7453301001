//! What the rules promise, rule by rule.

use crate::float::accuracy;
use crate::float::double;
use crate::float::double::Double;
use crate::float::single;
use crate::float::single::Single;
use crate::report;
use crate::report::{DiskMetrics, Finding, Health, OpTiming, SystemMetrics};
use crate::verdict;
use crate::verdict::{Inputs, Limits};
use vstd::prelude::*;

verus! {

/// What is said by one rule.
#[verifier::opaque]
pub open spec fn of_rule(f: Seq<Finding>, rule: Seq<char>) -> Seq<Finding> {
    f.filter(|x: Finding| x.rule == rule)
}

/// A value stands above a line; what is no number does not.
#[verifier::opaque]
pub open spec fn over(x: Double, line: Double) -> bool {
    !x.is_nan() && !line.is_nan() && line.rank() < x.rank()
}

/// `f` says that a value left one of two lines behind: the critical line where
/// it left that one behind, the warn line otherwise.
pub open spec fn names_the_line(
    f: Finding,
    warn: Double,
    critical: Double,
    past_warn: bool,
    past_critical: bool,
) -> bool {
    &&& past_warn || past_critical
    &&& f.level == Health::Unhealthy <==> past_critical
    &&& f.level == Health::Degraded <==> !past_critical
    &&& past_critical ==> f.threshold == critical
    &&& !past_critical ==> f.threshold == warn
}

/// What a value that is bad when it rises comes to.
proof fn lemma_rising(
    rule: Seq<char>,
    x: Double,
    warn: Double,
    critical: Double,
    unit: Seq<char>,
    subject: Option<Seq<char>>,
)
    ensures
        ({
            let f = verdict::crossed(rule, x, verdict::risen(x, warn, critical), unit, subject);
            &&& f.len() == if over(x, warn) || over(x, critical) {
                1nat
            } else {
                0nat
            }
            &&& f.len() == 1 ==> f[0].rule == rule && f[0].actual == x && f[0].unit == unit
                && f[0].subject == subject && names_the_line(
                f[0],
                warn,
                critical,
                over(x, warn),
                over(x, critical),
            )
        }),
{
    reveal(over);
}

/// What a value that is bad when it falls comes to.
proof fn lemma_falling(
    rule: Seq<char>,
    x: Double,
    warn: Double,
    critical: Double,
    unit: Seq<char>,
    subject: Option<Seq<char>>,
)
    ensures
        ({
            let f = verdict::crossed(rule, x, verdict::fallen(x, warn, critical), unit, subject);
            &&& f.len() == if over(warn, x) || over(critical, x) {
                1nat
            } else {
                0nat
            }
            &&& f.len() == 1 ==> f[0].rule == rule && f[0].actual == x && f[0].unit == unit
                && f[0].subject == subject && names_the_line(
                f[0],
                warn,
                critical,
                over(warn, x),
                over(critical, x),
            )
        }),
{
    reveal(over);
}

/// What a value with a single line comes to.
proof fn lemma_above(
    rule: Seq<char>,
    x: Double,
    limit: Double,
    unit: Seq<char>,
    subject: Option<Seq<char>>,
)
    ensures
        ({
            let f = verdict::above(rule, x, limit, unit, subject);
            &&& f.len() == if over(x, limit) {
                1nat
            } else {
                0nat
            }
            &&& f.len() == 1 ==> f[0].rule == rule && f[0].actual == x && f[0].unit == unit
                && f[0].subject == subject && f[0].level == Health::Degraded && f[0].threshold
                == limit
        }),
{
    reveal(over);
}

proof fn lemma_of_rule_adds(a: Seq<Finding>, b: Seq<Finding>, rule: Seq<char>)
    ensures
        of_rule(a + b, rule) == of_rule(a, rule) + of_rule(b, rule),
{
    reveal(of_rule);
    Seq::filter_distributes_over_add(a, b, |x: Finding| x.rule == rule);
}

proof fn lemma_of_own_rule(f: Seq<Finding>, rule: Seq<char>)
    requires
        forall|i: int| 0 <= i < f.len() ==> (#[trigger] f[i]).rule == rule,
    ensures
        of_rule(f, rule) == f,
    decreases f.len(),
{
    reveal(of_rule);
    reveal(Seq::filter);
    if f.len() > 0 {
        let g = f.drop_last();
        assert forall|i: int| 0 <= i < g.len() implies (#[trigger] g[i]).rule == rule by {
            assert(f[i].rule == rule);
        }
        lemma_of_own_rule(g, rule);
        assert(f[f.len() - 1] == f.last());
        assert(f =~= g.push(f.last()));
    } else {
        assert(f =~= Seq::empty());
    }
}

proof fn lemma_of_other_rule(f: Seq<Finding>, rule: Seq<char>)
    requires
        forall|i: int| 0 <= i < f.len() ==> (#[trigger] f[i]).rule != rule,
    ensures
        of_rule(f, rule).len() == 0,
    decreases f.len(),
{
    reveal(of_rule);
    reveal(Seq::filter);
    if f.len() > 0 {
        let g = f.drop_last();
        assert forall|i: int| 0 <= i < g.len() implies (#[trigger] g[i]).rule != rule by {
            assert(f[i].rule != rule);
        }
        lemma_of_other_rule(g, rule);
        assert(f[f.len() - 1] == f.last());
    }
}

/// No two rules share a name.
proof fn lemma_rules_differ()
    ensures
        "cpu_high"@ != "ram_pressure"@,
        "cpu_high"@ != "swap_in_use"@,
        "cpu_high"@ != "disk_low"@,
        "cpu_high"@ != "memory_growth"@,
        "cpu_high"@ != "handle_leak"@,
        "cpu_high"@ != "op_errors"@,
        "cpu_high"@ != "op_slow"@,
        "ram_pressure"@ != "swap_in_use"@,
        "ram_pressure"@ != "disk_low"@,
        "ram_pressure"@ != "memory_growth"@,
        "ram_pressure"@ != "handle_leak"@,
        "ram_pressure"@ != "op_errors"@,
        "ram_pressure"@ != "op_slow"@,
        "swap_in_use"@ != "disk_low"@,
        "swap_in_use"@ != "memory_growth"@,
        "swap_in_use"@ != "handle_leak"@,
        "swap_in_use"@ != "op_errors"@,
        "swap_in_use"@ != "op_slow"@,
        "disk_low"@ != "memory_growth"@,
        "disk_low"@ != "handle_leak"@,
        "disk_low"@ != "op_errors"@,
        "disk_low"@ != "op_slow"@,
        "memory_growth"@ != "handle_leak"@,
        "memory_growth"@ != "op_errors"@,
        "memory_growth"@ != "op_slow"@,
        "handle_leak"@ != "op_errors"@,
        "handle_leak"@ != "op_slow"@,
        "op_errors"@ != "op_slow"@,
{
    reveal_strlit("cpu_high");
    reveal_strlit("ram_pressure");
    reveal_strlit("swap_in_use");
    reveal_strlit("disk_low");
    reveal_strlit("memory_growth");
    reveal_strlit("handle_leak");
    reveal_strlit("op_errors");
    reveal_strlit("op_slow");
    assert("cpu_high"@.len() == 8 && "disk_low"@.len() == 8);
    assert("ram_pressure"@.len() == 12 && "memory_growth"@.len() == 13);
    assert("swap_in_use"@.len() == 11 && "handle_leak"@.len() == 11);
    assert("op_errors"@.len() == 9 && "op_slow"@.len() == 7);
    assert("cpu_high"@[0] != "disk_low"@[0]);
    assert("swap_in_use"@[0] != "handle_leak"@[0]);
}

proof fn lemma_disk_rules(l: Limits, d: Seq<DiskMetrics>)
    ensures
        goes_by(verdict::all_disk_findings(l, d), "disk_low"@),
    decreases d.len(),
{
    reveal(goes_by);
    if d.len() > 0 {
        lemma_disk_rules(l, d.drop_last());
    }
}

proof fn lemma_op_rules(l: Limits, ops: Seq<OpTiming>)
    ensures
        forall|i: int|
            0 <= i < verdict::all_op_findings(l, ops).len() ==> (#[trigger] verdict::all_op_findings(l, ops)[i]).rule
                == "op_errors"@ || verdict::all_op_findings(l, ops)[i].rule == "op_slow"@,
    decreases ops.len(),
{
    if ops.len() > 0 {
        lemma_op_rules(l, ops.drop_last());
    }
}

/// Three parts with a rule each.
proof fn lemma_three(
    a: Seq<Finding>,
    b: Seq<Finding>,
    c: Seq<Finding>,
    x: Seq<char>,
    y: Seq<char>,
    z: Seq<char>,
)
    requires
        x != y,
        x != z,
        y != z,
        goes_by(a, x),
        goes_by(b, y),
        goes_by(c, z),
    ensures
        of_rule(a + b + c, x) == a,
        of_rule(a + b + c, y) == b,
        of_rule(a + b + c, z) == c,
{
    reveal(goes_by);
    lemma_of_rule_adds(a, b, x);
    lemma_of_rule_adds(a + b, c, x);
    lemma_of_own_rule(a, x);
    lemma_of_other_rule(b, x);
    lemma_of_other_rule(c, x);
    lemma_of_rule_adds(a, b, y);
    lemma_of_rule_adds(a + b, c, y);
    lemma_of_own_rule(b, y);
    lemma_of_other_rule(a, y);
    lemma_of_other_rule(c, y);
    lemma_of_rule_adds(a, b, z);
    lemma_of_rule_adds(a + b, c, z);
    lemma_of_own_rule(c, z);
    lemma_of_other_rule(a, z);
    lemma_of_other_rule(b, z);
    assert(of_rule(a + b + c, x) =~= a);
    assert(of_rule(a + b + c, y) =~= b);
    assert(of_rule(a + b + c, z) =~= c);
}


/// Of five parts only one has findings of a rule.
proof fn lemma_pick(
    a: Seq<Finding>,
    b: Seq<Finding>,
    c: Seq<Finding>,
    d: Seq<Finding>,
    e: Seq<Finding>,
    rule: Seq<char>,
)
    ensures
        ({
            let all = of_rule(a + b + c + d + e, rule);
            let (p, q, r, s, t) = (
                of_rule(a, rule),
                of_rule(b, rule),
                of_rule(c, rule),
                of_rule(d, rule),
                of_rule(e, rule),
            );
            &&& q.len() == 0 && r.len() == 0 && s.len() == 0 && t.len() == 0 ==> all == p
            &&& p.len() == 0 && r.len() == 0 && s.len() == 0 && t.len() == 0 ==> all == q
            &&& p.len() == 0 && q.len() == 0 && s.len() == 0 && t.len() == 0 ==> all == r
            &&& p.len() == 0 && q.len() == 0 && r.len() == 0 && t.len() == 0 ==> all == s
            &&& p.len() == 0 && q.len() == 0 && r.len() == 0 && s.len() == 0 ==> all == t
        }),
{
    lemma_of_rule_adds(a, b, rule);
    lemma_of_rule_adds(a + b, c, rule);
    lemma_of_rule_adds(a + b + c, d, rule);
    lemma_of_rule_adds(a + b + c + d, e, rule);
    let all = of_rule(a + b + c + d + e, rule);
    let (p, q, r, s, t) = (
        of_rule(a, rule),
        of_rule(b, rule),
        of_rule(c, rule),
        of_rule(d, rule),
        of_rule(e, rule),
    );
    assert(all == p + q + r + s + t);
    if q.len() == 0 && r.len() == 0 && s.len() == 0 && t.len() == 0 {
        assert(all =~= p);
    }
    if p.len() == 0 && r.len() == 0 && s.len() == 0 && t.len() == 0 {
        assert(all =~= q);
    }
    if p.len() == 0 && q.len() == 0 && s.len() == 0 && t.len() == 0 {
        assert(all =~= r);
    }
    if p.len() == 0 && q.len() == 0 && r.len() == 0 && t.len() == 0 {
        assert(all =~= s);
    }
    if p.len() == 0 && q.len() == 0 && r.len() == 0 && s.len() == 0 {
        assert(all =~= t);
    }
}

/// Every finding goes by this name.
#[verifier::opaque]
spec fn goes_by(f: Seq<Finding>, rule: Seq<char>) -> bool {
    forall|i: int| 0 <= i < f.len() ==> (#[trigger] f[i]).rule == rule
}

proof fn lemma_growth_rules(l: Limits, slope: Option<Double>)
    ensures
        goes_by(verdict::growth_findings(l, slope), "memory_growth"@),
{
    reveal(goes_by);
}

proof fn lemma_handle_rules(l: Limits, handles: Option<u32>)
    ensures
        goes_by(verdict::handle_findings(l, handles), "handle_leak"@),
{
    reveal(goes_by);
}

/// What goes by another name is not of this rule.
proof fn lemma_none(f: Seq<Finding>, own: Seq<char>, rule: Seq<char>)
    requires
        goes_by(f, own),
        own != rule,
    ensures
        of_rule(f, rule).len() == 0,
{
    reveal(goes_by);
    lemma_of_other_rule(f, rule);
}

/// Nothing of a rule of the machine comes from elsewhere.
proof fn lemma_only_system(
    l: Limits,
    system: Option<SystemMetrics>,
    disks: Seq<DiskMetrics>,
    slope: Option<Double>,
    handles: Option<u32>,
    ops: Seq<OpTiming>,
    rule: Seq<char>,
)
    requires
        rule != "disk_low"@,
        rule != "memory_growth"@,
        rule != "handle_leak"@,
        rule != "op_errors"@,
        rule != "op_slow"@,
    ensures
        of_rule(verdict::findings(l, system, disks, slope, handles, ops), rule) == of_rule(
            verdict::system_findings(l, system),
            rule,
        ),
{
    lemma_disk_rules(l, disks);
    lemma_op_rules(l, ops);
    lemma_growth_rules(l, slope);
    lemma_handle_rules(l, handles);
    lemma_none(verdict::all_disk_findings(l, disks), "disk_low"@, rule);
    lemma_none(verdict::growth_findings(l, slope), "memory_growth"@, rule);
    lemma_none(verdict::handle_findings(l, handles), "handle_leak"@, rule);
    lemma_of_other_rule(verdict::all_op_findings(l, ops), rule);
    lemma_pick(
        verdict::system_findings(l, system),
        verdict::all_disk_findings(l, disks),
        verdict::growth_findings(l, slope),
        verdict::handle_findings(l, handles),
        verdict::all_op_findings(l, ops),
        rule,
    );
}

/// The CPU is judged once, by its two lines.
pub proof fn the_cpu_is_judged_by_its_lines(
    l: Limits,
    s: SystemMetrics,
    disks: Seq<DiskMetrics>,
    slope: Option<Double>,
    handles: Option<u32>,
    ops: Seq<OpTiming>,
)
    ensures
        ({
            let f = of_rule(verdict::findings(l, Some(s), disks, slope, handles, ops), "cpu_high"@);
            let x = single::widened(s.cpu_pct);
            judged_by_two(f, Some(x), l.cpu_pct, l.cpu_pct_critical)
        }),
{
    lemma_rules_differ();
    lemma_only_system(l, Some(s), disks, slope, handles, ops, "cpu_high"@);
    lemma_machine(l, s.cpu_pct, s.ram_share(), s.swap_share(), s);
}

/// Memory is judged once, by its two lines, on the share of it that is in use.
pub proof fn memory_is_judged_by_its_lines(
    l: Limits,
    s: SystemMetrics,
    disks: Seq<DiskMetrics>,
    slope: Option<Double>,
    handles: Option<u32>,
    ops: Seq<OpTiming>,
)
    ensures
        ({
            let f = of_rule(
                verdict::findings(l, Some(s), disks, slope, handles, ops),
                "ram_pressure"@,
            );
            judged_by_two(f, s.ram_share(), l.ram_used_pct, l.ram_used_pct_critical)
        }),
{
    lemma_rules_differ();
    lemma_only_system(l, Some(s), disks, slope, handles, ops, "ram_pressure"@);
    lemma_machine(l, s.cpu_pct, s.ram_share(), s.swap_share(), s);
}

/// Swap is judged once, by one line, on the share of it that is in use.
pub proof fn swap_is_judged_by_its_line(
    l: Limits,
    s: SystemMetrics,
    disks: Seq<DiskMetrics>,
    slope: Option<Double>,
    handles: Option<u32>,
    ops: Seq<OpTiming>,
)
    ensures
        ({
            let f = of_rule(
                verdict::findings(l, Some(s), disks, slope, handles, ops),
                "swap_in_use"@,
            );
            judged_by_one(f, s.swap_share(), l.swap_used_pct, "%"@)
        }),
{
    lemma_rules_differ();
    lemma_only_system(l, Some(s), disks, slope, handles, ops, "swap_in_use"@);
    lemma_machine(l, s.cpu_pct, s.ram_share(), s.swap_share(), s);
}

/// A percentage of the machine that is bad when it rises: there is a finding
/// exactly where it is above a line, one, and it names the value and the line.
pub open spec fn judged_by_two(
    f: Seq<Finding>,
    x: Option<Double>,
    warn: Double,
    critical: Double,
) -> bool {
    &&& f.len() == if x is Some && (over(x->0, warn) || over(x->0, critical)) {
        1nat
    } else {
        0nat
    }
    &&& f.len() == 1 ==> Some(f[0].actual) == x && f[0].unit == "%"@ && f[0].subject is None
        && names_the_line(f[0], warn, critical, over(x->0, warn), over(x->0, critical))
}

/// The same with one line, which only degrades.
pub open spec fn judged_by_one(
    f: Seq<Finding>,
    x: Option<Double>,
    limit: Double,
    unit: Seq<char>,
) -> bool {
    &&& f.len() == if x is Some && over(x->0, limit) {
        1nat
    } else {
        0nat
    }
    &&& f.len() == 1 ==> Some(f[0].actual) == x && f[0].unit == unit && f[0].subject is None
        && f[0].level == Health::Degraded && f[0].threshold == limit
}

proof fn lemma_machine(
    l: Limits,
    pct: Single,
    ram: Option<Double>,
    swap: Option<Double>,
    s: SystemMetrics,
)
    requires
        s.cpu_pct == pct,
        s.ram_share() == ram,
        s.swap_share() == swap,
    ensures
        ({
            let f = verdict::system_findings(l, Some(s));
            let x = single::widened(pct);
            &&& judged_by_two(of_rule(f, "cpu_high"@), Some(x), l.cpu_pct, l.cpu_pct_critical)
            &&& judged_by_two(
                of_rule(f, "ram_pressure"@),
                ram,
                l.ram_used_pct,
                l.ram_used_pct_critical,
            )
            &&& judged_by_one(of_rule(f, "swap_in_use"@), swap, l.swap_used_pct, "%"@)
        }),
{
    let none = Seq::<Finding>::empty();
    let x = single::widened(pct);
    let a = verdict::crossed(
        "cpu_high"@,
        x,
        verdict::risen(x, l.cpu_pct, l.cpu_pct_critical),
        "%"@,
        None,
    );
    let b = match ram {
        Some(used) => verdict::crossed(
            "ram_pressure"@,
            used,
            verdict::risen(used, l.ram_used_pct, l.ram_used_pct_critical),
            "%"@,
            None,
        ),
        None => none,
    };
    let c = match swap {
        Some(used) => verdict::above("swap_in_use"@, used, l.swap_used_pct, "%"@, None),
        None => none,
    };
    lemma_judged_by_two("cpu_high"@, Some(x), l.cpu_pct, l.cpu_pct_critical);
    lemma_judged_by_two("ram_pressure"@, ram, l.ram_used_pct, l.ram_used_pct_critical);
    lemma_judged_by_one("swap_in_use"@, swap, l.swap_used_pct, "%"@);
    lemma_machine_rules(a, b, c);
    assert(verdict::system_findings(l, Some(s)) == a + b + c);
}

proof fn lemma_machine_rules(a: Seq<Finding>, b: Seq<Finding>, c: Seq<Finding>)
    requires
        goes_by(a, "cpu_high"@),
        goes_by(b, "ram_pressure"@),
        goes_by(c, "swap_in_use"@),
    ensures
        of_rule(a + b + c, "cpu_high"@) == a,
        of_rule(a + b + c, "ram_pressure"@) == b,
        of_rule(a + b + c, "swap_in_use"@) == c,
{
    lemma_rules_differ();
    lemma_three(a, b, c, "cpu_high"@, "ram_pressure"@, "swap_in_use"@);
}

proof fn lemma_judged_by_two(rule: Seq<char>, x: Option<Double>, warn: Double, critical: Double)
    ensures
        ({
            let f = match x {
                Some(used) => verdict::crossed(
                    rule,
                    used,
                    verdict::risen(used, warn, critical),
                    "%"@,
                    None,
                ),
                None => Seq::empty(),
            };
            goes_by(f, rule) && judged_by_two(f, x, warn, critical)
        }),
{
    reveal(goes_by);
    if let Some(used) = x {
        lemma_rising(rule, used, warn, critical, "%"@, None);
    }
}

proof fn lemma_judged_by_one(rule: Seq<char>, x: Option<Double>, limit: Double, unit: Seq<char>)
    ensures
        ({
            let f = match x {
                Some(used) => verdict::above(rule, used, limit, unit, None),
                None => Seq::empty(),
            };
            goes_by(f, rule) && judged_by_one(f, x, limit, unit)
        }),
{
    reveal(goes_by);
    if let Some(used) = x {
        lemma_above(rule, used, limit, unit, None);
    }
}

/// A machine that could not be read is not judged.
pub proof fn an_unread_machine_is_not_judged(
    l: Limits,
    disks: Seq<DiskMetrics>,
    slope: Option<Double>,
    handles: Option<u32>,
    ops: Seq<OpTiming>,
    rule: Seq<char>,
)
    requires
        rule == "cpu_high"@ || rule == "ram_pressure"@ || rule == "swap_in_use"@,
    ensures
        of_rule(verdict::findings(l, None, disks, slope, handles, ops), rule).len() == 0,
{
    lemma_rules_differ();
    lemma_only_system(l, None, disks, slope, handles, ops, rule);
    lemma_of_other_rule(verdict::system_findings(l, None), rule);
}

/// The floor of the memory is judged once, by one line.
pub proof fn growth_is_judged_by_its_line(
    l: Limits,
    system: Option<SystemMetrics>,
    disks: Seq<DiskMetrics>,
    slope: Option<Double>,
    handles: Option<u32>,
    ops: Seq<OpTiming>,
)
    ensures
        judged_by_one(
            of_rule(
                verdict::findings(l, system, disks, slope, handles, ops),
                "memory_growth"@,
            ),
            slope,
            l.mem_growth_mib_per_hour,
            "MiB/h"@,
        ),
{
    let rule = "memory_growth"@;
    lemma_rules_differ();
    lemma_system_rules(l, system, rule);
    lemma_disk_rules(l, disks);
    lemma_op_rules(l, ops);
    lemma_handle_rules(l, handles);
    lemma_judged_by_one(rule, slope, l.mem_growth_mib_per_hour, "MiB/h"@);
    lemma_none(verdict::all_disk_findings(l, disks), "disk_low"@, rule);
    lemma_none(verdict::handle_findings(l, handles), "handle_leak"@, rule);
    lemma_no_op_rule(l, ops, rule);
    let own = verdict::growth_findings(l, slope);
    lemma_all_own(own, rule);
    lemma_pick(
        verdict::system_findings(l, system),
        verdict::all_disk_findings(l, disks),
        own,
        verdict::handle_findings(l, handles),
        verdict::all_op_findings(l, ops),
        rule,
    );
}

/// Open handles are judged once, by one line, where there is one.
pub proof fn handles_are_judged_by_their_line(
    l: Limits,
    system: Option<SystemMetrics>,
    disks: Seq<DiskMetrics>,
    slope: Option<Double>,
    handles: Option<u32>,
    ops: Seq<OpTiming>,
)
    ensures
        ({
            let f = of_rule(
                verdict::findings(l, system, disks, slope, handles, ops),
                "handle_leak"@,
            );
            &&& f.len() == if handles is Some && l.handles is Some && handles->0 > l.handles->0 {
                1nat
            } else {
                0nat
            }
            &&& f.len() == 1 ==> f[0].actual.units() == handles->0 * accuracy::one()
                && f[0].threshold.units() == l.handles->0 * accuracy::one() && f[0].level
                == Health::Degraded && f[0].unit == "handles"@ && f[0].subject is None
        }),
{
    let rule = "handle_leak"@;
    lemma_rules_differ();
    lemma_system_rules(l, system, rule);
    lemma_disk_rules(l, disks);
    lemma_op_rules(l, ops);
    lemma_growth_rules(l, slope);
    lemma_handle_rules(l, handles);
    lemma_none(verdict::all_disk_findings(l, disks), "disk_low"@, rule);
    lemma_none(verdict::growth_findings(l, slope), "memory_growth"@, rule);
    lemma_no_op_rule(l, ops, rule);
    let own = verdict::handle_findings(l, handles);
    lemma_all_own(own, rule);
    lemma_pick(
        verdict::system_findings(l, system),
        verdict::all_disk_findings(l, disks),
        verdict::growth_findings(l, slope),
        own,
        verdict::all_op_findings(l, ops),
        rule,
    );
    if handles is Some && l.handles is Some {
        double::lemma_small_integer(handles->0 as nat);
        double::lemma_small_integer(l.handles->0 as nat);
    }
}

proof fn lemma_all_own(f: Seq<Finding>, rule: Seq<char>)
    requires
        goes_by(f, rule),
    ensures
        of_rule(f, rule) == f,
{
    reveal(goes_by);
    lemma_of_own_rule(f, rule);
}

proof fn lemma_no_op_rule(l: Limits, ops: Seq<OpTiming>, rule: Seq<char>)
    requires
        rule != "op_errors"@,
        rule != "op_slow"@,
    ensures
        of_rule(verdict::all_op_findings(l, ops), rule).len() == 0,
{
    lemma_op_rules(l, ops);
    lemma_of_other_rule(verdict::all_op_findings(l, ops), rule);
}

/// The machine has three rules.
proof fn lemma_system_rules(l: Limits, system: Option<SystemMetrics>, rule: Seq<char>)
    requires
        rule != "cpu_high"@,
        rule != "ram_pressure"@,
        rule != "swap_in_use"@,
    ensures
        of_rule(verdict::system_findings(l, system), rule).len() == 0,
{
    match system {
        Some(s) => {
            let none = Seq::<Finding>::empty();
            let x = single::widened(s.cpu_pct);
            let a = verdict::crossed(
                "cpu_high"@,
                x,
                verdict::risen(x, l.cpu_pct, l.cpu_pct_critical),
                "%"@,
                None,
            );
            let b = match s.ram_share() {
                Some(used) => verdict::crossed(
                    "ram_pressure"@,
                    used,
                    verdict::risen(used, l.ram_used_pct, l.ram_used_pct_critical),
                    "%"@,
                    None,
                ),
                None => none,
            };
            let c = match s.swap_share() {
                Some(used) => verdict::above("swap_in_use"@, used, l.swap_used_pct, "%"@, None),
                None => none,
            };
            lemma_judged_by_two("cpu_high"@, Some(x), l.cpu_pct, l.cpu_pct_critical);
            lemma_judged_by_two(
                "ram_pressure"@,
                s.ram_share(),
                l.ram_used_pct,
                l.ram_used_pct_critical,
            );
            lemma_judged_by_one("swap_in_use"@, s.swap_share(), l.swap_used_pct, "%"@);
            lemma_none(a, "cpu_high"@, rule);
            lemma_none(b, "ram_pressure"@, rule);
            lemma_none(c, "swap_in_use"@, rule);
            lemma_of_rule_adds(a, b, rule);
            lemma_of_rule_adds(a + b, c, rule);
            assert(verdict::system_findings(l, system) == a + b + c);
        },
        None => {
            lemma_of_other_rule(verdict::system_findings(l, system), rule);
        },
    }
}

/// A filesystem is low on space: less is free than one of its lines asks for.
#[verifier::opaque]
pub open spec fn is_low(l: Limits, d: DiskMetrics) -> bool {
    d.free_share() is Some && (over(l.disk_free_pct, d.free_share()->0) || over(
        l.disk_free_pct_critical,
        d.free_share()->0,
    ))
}

/// The filesystems that are low on space.
#[verifier::opaque]
pub open spec fn low(l: Limits, disks: Seq<DiskMetrics>) -> Seq<DiskMetrics> {
    disks.filter(|d: DiskMetrics| is_low(l, d))
}

/// `f` says that a filesystem is low: under its mount point, with its free share
/// and the line that it fell below.
#[verifier::opaque]
pub open spec fn says_low(l: Limits, f: Finding, d: DiskMetrics) -> bool {
    &&& Some(f.actual) == d.free_share()
    &&& f.subject == Some(d.mount@)
    &&& f.unit == "%"@
    &&& names_the_line(
        f,
        l.disk_free_pct,
        l.disk_free_pct_critical,
        over(l.disk_free_pct, f.actual),
        over(l.disk_free_pct_critical, f.actual),
    )
}

/// Every filesystem that is low is found, in the order they are listed in; no
/// other is.
pub proof fn every_low_disk_is_found(
    l: Limits,
    system: Option<SystemMetrics>,
    disks: Seq<DiskMetrics>,
    slope: Option<Double>,
    handles: Option<u32>,
    ops: Seq<OpTiming>,
)
    ensures
        ({
            let f = of_rule(
                verdict::findings(l, system, disks, slope, handles, ops),
                "disk_low"@,
            );
            &&& f.len() == low(l, disks).len()
            &&& forall|i: int|
                0 <= i < f.len() ==> says_low(l, #[trigger] f[i], low(l, disks)[i])
        }),
{
    let rule = "disk_low"@;
    lemma_rules_differ();
    lemma_system_rules(l, system, rule);
    lemma_disk_rules(l, disks);
    lemma_growth_rules(l, slope);
    lemma_handle_rules(l, handles);
    lemma_none(verdict::growth_findings(l, slope), "memory_growth"@, rule);
    lemma_none(verdict::handle_findings(l, handles), "handle_leak"@, rule);
    lemma_no_op_rule(l, ops, rule);
    let own = verdict::all_disk_findings(l, disks);
    lemma_all_own(own, rule);
    lemma_pick(
        verdict::system_findings(l, system),
        own,
        verdict::growth_findings(l, slope),
        verdict::handle_findings(l, handles),
        verdict::all_op_findings(l, ops),
        rule,
    );
    lemma_low_disks(l, disks);
}

proof fn lemma_one_disk(l: Limits, d: DiskMetrics)
    ensures
        verdict::disk_findings(l, d).len() == if is_low(l, d) {
            1nat
        } else {
            0nat
        },
        is_low(l, d) ==> says_low(l, verdict::disk_findings(l, d)[0], d),
{
    reveal(is_low);
    reveal(says_low);
    if let Some(free) = d.free_share() {
        lemma_falling(
            "disk_low"@,
            free,
            l.disk_free_pct,
            l.disk_free_pct_critical,
            "%"@,
            Some(d.mount@),
        );
    }
}

proof fn lemma_low_step(l: Limits, disks: Seq<DiskMetrics>)
    ensures
        disks.len() == 0 ==> low(l, disks).len() == 0,
        disks.len() > 0 ==> low(l, disks) == if is_low(l, disks.last()) {
            low(l, disks.drop_last()).push(disks.last())
        } else {
            low(l, disks.drop_last())
        },
{
    reveal(low);
    reveal(Seq::filter);
}

proof fn lemma_low_disks(l: Limits, disks: Seq<DiskMetrics>)
    ensures
        verdict::all_disk_findings(l, disks).len() == low(l, disks).len(),
        forall|i: int|
            0 <= i < low(l, disks).len() ==> says_low(
                l,
                #[trigger] verdict::all_disk_findings(l, disks)[i],
                low(l, disks)[i],
            ),
    decreases disks.len(),
{
    lemma_low_step(l, disks);
    if disks.len() > 0 {
        lemma_low_disks(l, disks.drop_last());
        lemma_one_disk(l, disks.last());
        let was = verdict::all_disk_findings(l, disks.drop_last());
        let f = verdict::all_disk_findings(l, disks);
        assert(f == was + verdict::disk_findings(l, disks.last()));
        assert forall|i: int| 0 <= i < low(l, disks).len() implies says_low(
            l,
            #[trigger] f[i],
            low(l, disks)[i],
        ) by {
            if i < was.len() {
                assert(f[i] == was[i]);
                assert(low(l, disks)[i] == low(l, disks.drop_last())[i]);
            }
        }
    }
}

/// An operation failed more often than one of its lines allows.
#[verifier::opaque]
pub open spec fn is_failing(l: Limits, op: OpTiming) -> bool {
    op.error_rate is Some && (over(op.error_rate->0, l.op_error_rate) || over(
        op.error_rate->0,
        l.op_error_rate_critical,
    ))
}

/// An operation is over its latency budget, whatever else is true of it.
#[verifier::opaque]
pub open spec fn is_slow(l: Limits, op: OpTiming) -> bool {
    l.op_p99_ms is Some && op.p99_us is Some && over(
        report::milliseconds(op.p99_us->0),
        l.op_p99_ms->0,
    )
}

/// The operations that failed too often.
#[verifier::opaque]
pub open spec fn failing(l: Limits, ops: Seq<OpTiming>) -> Seq<OpTiming> {
    ops.filter(|op: OpTiming| is_failing(l, op))
}

/// The operations that are over their latency budget.
#[verifier::opaque]
pub open spec fn slow(l: Limits, ops: Seq<OpTiming>) -> Seq<OpTiming> {
    ops.filter(|op: OpTiming| is_slow(l, op))
}

/// `f` says that an operation is over its budget: under its name, with its p99
/// and the budget.
#[verifier::opaque]
pub open spec fn says_slow(l: Limits, f: Finding, op: OpTiming) -> bool {
    &&& f.actual == report::milliseconds(op.p99_us->0)
    &&& Some(f.threshold) == l.op_p99_ms
    &&& f.level == Health::Degraded
    &&& f.subject == Some(op.name@)
    &&& f.unit == "ms"@
}

/// `f` says that an operation failed too often: under its name, with its error
/// rate and the line that it is above as percentages.
#[verifier::opaque]
pub open spec fn says_failing(l: Limits, f: Finding, op: OpTiming) -> bool {
    let x = op.error_rate->0;
    let hundred = double::of_quotient(100, 1);
    let critical = over(x, l.op_error_rate_critical);
    &&& f.actual == double::product(x, hundred)
    &&& critical ==> f.level == Health::Unhealthy && f.threshold == double::product(
        l.op_error_rate_critical,
        hundred,
    )
    &&& !critical ==> f.level == Health::Degraded && f.threshold == double::product(
        l.op_error_rate,
        hundred,
    )
    &&& f.subject == Some(op.name@)
    &&& f.unit == "%"@
}

/// Every operation that is over its latency budget is found, whatever its error
/// rate, and every operation that failed too often, whatever its latency, each in
/// the order they are listed in; no other is.
pub proof fn every_bad_operation_is_found(
    l: Limits,
    system: Option<SystemMetrics>,
    disks: Seq<DiskMetrics>,
    slope: Option<Double>,
    handles: Option<u32>,
    ops: Seq<OpTiming>,
)
    ensures
        ({
            let f = of_rule(verdict::findings(l, system, disks, slope, handles, ops), "op_slow"@);
            &&& f.len() == slow(l, ops).len()
            &&& forall|i: int|
                0 <= i < f.len() ==> says_slow(l, #[trigger] f[i], slow(l, ops)[i])
        }),
        ({
            let f = of_rule(
                verdict::findings(l, system, disks, slope, handles, ops),
                "op_errors"@,
            );
            &&& f.len() == failing(l, ops).len()
            &&& forall|i: int|
                0 <= i < f.len() ==> says_failing(l, #[trigger] f[i], failing(l, ops)[i])
        }),
{
    lemma_rules_differ();
    lemma_only_ops(l, system, disks, slope, handles, ops, "op_slow"@);
    lemma_only_ops(l, system, disks, slope, handles, ops, "op_errors"@);
    lemma_bad_operations(l, ops);
}

proof fn lemma_only_ops(
    l: Limits,
    system: Option<SystemMetrics>,
    disks: Seq<DiskMetrics>,
    slope: Option<Double>,
    handles: Option<u32>,
    ops: Seq<OpTiming>,
    rule: Seq<char>,
)
    requires
        rule != "cpu_high"@,
        rule != "ram_pressure"@,
        rule != "swap_in_use"@,
        rule != "disk_low"@,
        rule != "memory_growth"@,
        rule != "handle_leak"@,
    ensures
        of_rule(verdict::findings(l, system, disks, slope, handles, ops), rule) == of_rule(
            verdict::all_op_findings(l, ops),
            rule,
        ),
{
    lemma_system_rules(l, system, rule);
    lemma_disk_rules(l, disks);
    lemma_growth_rules(l, slope);
    lemma_handle_rules(l, handles);
    lemma_none(verdict::all_disk_findings(l, disks), "disk_low"@, rule);
    lemma_none(verdict::growth_findings(l, slope), "memory_growth"@, rule);
    lemma_none(verdict::handle_findings(l, handles), "handle_leak"@, rule);
    lemma_pick(
        verdict::system_findings(l, system),
        verdict::all_disk_findings(l, disks),
        verdict::growth_findings(l, slope),
        verdict::handle_findings(l, handles),
        verdict::all_op_findings(l, ops),
        rule,
    );
}

/// What is said of one operation.
proof fn lemma_one_operation(l: Limits, op: OpTiming)
    ensures
        ({
            let f = of_rule(verdict::op_findings(l, op), "op_slow"@);
            &&& f.len() == if is_slow(l, op) {
                1nat
            } else {
                0nat
            }
            &&& is_slow(l, op) ==> says_slow(l, f[0], op)
        }),
        ({
            let f = of_rule(verdict::op_findings(l, op), "op_errors"@);
            &&& f.len() == if is_failing(l, op) {
                1nat
            } else {
                0nat
            }
            &&& is_failing(l, op) ==> says_failing(l, f[0], op)
        }),
{
    let none = Seq::<Finding>::empty();
    let a = match op.error_rate {
        Some(rate) => verdict::crossed(
            "op_errors"@,
            double::product(rate, double::of_quotient(100, 1)),
            verdict::line_percent(
                verdict::risen(rate, l.op_error_rate, l.op_error_rate_critical),
            ),
            "%"@,
            Some(op.name@),
        ),
        None => none,
    };
    let b = match (l.op_p99_ms, report::maybe_milliseconds(op.p99_us)) {
        (Some(budget), Some(p99)) => verdict::above("op_slow"@, p99, budget, "ms"@, Some(op.name@)),
        _ => none,
    };
    lemma_failing_part(l, op);
    lemma_slow_part(l, op);
    lemma_op_pair(a, b);
    assert(verdict::op_findings(l, op) == a + b);
}

proof fn lemma_op_pair(a: Seq<Finding>, b: Seq<Finding>)
    requires
        goes_by(a, "op_errors"@),
        goes_by(b, "op_slow"@),
    ensures
        of_rule(a + b, "op_errors"@) == a,
        of_rule(a + b, "op_slow"@) == b,
{
    lemma_rules_differ();
    let (x, y) = ("op_errors"@, "op_slow"@);
    lemma_of_rule_adds(a, b, x);
    lemma_of_rule_adds(a, b, y);
    lemma_all_own(a, x);
    lemma_all_own(b, y);
    lemma_none(a, x, y);
    lemma_none(b, y, x);
    assert(of_rule(a + b, x) =~= a);
    assert(of_rule(a + b, y) =~= b);
}

proof fn lemma_failing_part(l: Limits, op: OpTiming)
    ensures
        ({
            let a = match op.error_rate {
                Some(rate) => verdict::crossed(
                    "op_errors"@,
                    double::product(rate, double::of_quotient(100, 1)),
                    verdict::line_percent(
                        verdict::risen(rate, l.op_error_rate, l.op_error_rate_critical),
                    ),
                    "%"@,
                    Some(op.name@),
                ),
                None => Seq::empty(),
            };
            &&& goes_by(a, "op_errors"@)
            &&& a.len() == if is_failing(l, op) {
                1nat
            } else {
                0nat
            }
            &&& is_failing(l, op) ==> says_failing(l, a[0], op)
        }),
{
    reveal(goes_by);
    reveal(over);
    reveal(is_failing);
    reveal(says_failing);
}

proof fn lemma_slow_part(l: Limits, op: OpTiming)
    ensures
        ({
            let b = match (l.op_p99_ms, report::maybe_milliseconds(op.p99_us)) {
                (Some(budget), Some(p99)) => verdict::above(
                    "op_slow"@,
                    p99,
                    budget,
                    "ms"@,
                    Some(op.name@),
                ),
                _ => Seq::empty(),
            };
            &&& goes_by(b, "op_slow"@)
            &&& b.len() == if is_slow(l, op) {
                1nat
            } else {
                0nat
            }
            &&& is_slow(l, op) ==> says_slow(l, b[0], op)
        }),
{
    reveal(goes_by);
    reveal(is_slow);
    reveal(says_slow);
    if let (Some(budget), Some(p)) = (l.op_p99_ms, op.p99_us) {
        lemma_above("op_slow"@, report::milliseconds(p), budget, "ms"@, Some(op.name@));
    }
}

proof fn lemma_bad_step(l: Limits, ops: Seq<OpTiming>)
    ensures
        ops.len() == 0 ==> slow(l, ops).len() == 0 && failing(l, ops).len() == 0,
        ops.len() > 0 ==> slow(l, ops) == if is_slow(l, ops.last()) {
            slow(l, ops.drop_last()).push(ops.last())
        } else {
            slow(l, ops.drop_last())
        },
        ops.len() > 0 ==> failing(l, ops) == if is_failing(l, ops.last()) {
            failing(l, ops.drop_last()).push(ops.last())
        } else {
            failing(l, ops.drop_last())
        },
{
    reveal(slow);
    reveal(failing);
    reveal(Seq::filter);
}

proof fn lemma_bad_operations(l: Limits, ops: Seq<OpTiming>)
    ensures
        ({
            let f = of_rule(verdict::all_op_findings(l, ops), "op_slow"@);
            &&& f.len() == slow(l, ops).len()
            &&& forall|i: int|
                0 <= i < f.len() ==> says_slow(l, #[trigger] f[i], slow(l, ops)[i])
        }),
        ({
            let f = of_rule(verdict::all_op_findings(l, ops), "op_errors"@);
            &&& f.len() == failing(l, ops).len()
            &&& forall|i: int|
                0 <= i < f.len() ==> says_failing(l, #[trigger] f[i], failing(l, ops)[i])
        }),
    decreases ops.len(),
{
    lemma_bad_step(l, ops);
    let all = verdict::all_op_findings(l, ops);
    if ops.len() > 0 {
        let op = ops.last();
        lemma_bad_operations(l, ops.drop_last());
        lemma_one_operation(l, op);
        let (a, b) = (verdict::all_op_findings(l, ops.drop_last()), verdict::op_findings(l, op));
        lemma_of_rule_adds(a, b, "op_slow"@);
        lemma_of_rule_adds(a, b, "op_errors"@);
        assert(all == a + b);
        let (p, q) = (of_rule(a, "op_slow"@), of_rule(all, "op_slow"@));
        assert forall|i: int| 0 <= i < q.len() implies says_slow(
            l,
            #[trigger] q[i],
            slow(l, ops)[i],
        ) by {
            if i < p.len() {
                assert(q[i] == p[i]);
                assert(slow(l, ops)[i] == slow(l, ops.drop_last())[i]);
            }
        }
        let (r, t) = (of_rule(a, "op_errors"@), of_rule(all, "op_errors"@));
        assert forall|i: int| 0 <= i < t.len() implies says_failing(
            l,
            #[trigger] t[i],
            failing(l, ops)[i],
        ) by {
            if i < r.len() {
                assert(t[i] == r[i]);
                assert(failing(l, ops)[i] == failing(l, ops.drop_last())[i]);
            }
        }
    } else {
        lemma_of_other_rule(all, "op_slow"@);
        lemma_of_other_rule(all, "op_errors"@);
    }
}

/// One of the eight rules.
#[verifier::opaque]
pub open spec fn is_rule(rule: Seq<char>) -> bool {
    rule == "cpu_high"@ || rule == "ram_pressure"@ || rule == "swap_in_use"@ || rule == "disk_low"@
        || rule == "memory_growth"@ || rule == "handle_leak"@ || rule == "op_errors"@ || rule
        == "op_slow"@
}

/// There are no other rules: whatever is found is found by one of the eight.
pub proof fn there_are_no_other_rules(
    l: Limits,
    system: Option<SystemMetrics>,
    disks: Seq<DiskMetrics>,
    slope: Option<Double>,
    handles: Option<u32>,
    ops: Seq<OpTiming>,
    i: int,
)
    requires
        0 <= i < verdict::findings(l, system, disks, slope, handles, ops).len(),
    ensures
        is_rule(verdict::findings(l, system, disks, slope, handles, ops)[i].rule),
{
    let all = verdict::findings(l, system, disks, slope, handles, ops);
    let rule = all[i].rule;
    if !is_rule(rule) {
        reveal(is_rule);
        lemma_only_system(l, system, disks, slope, handles, ops, rule);
        lemma_system_rules(l, system, rule);
        lemma_of_rule_has(all, i);
    }
}

proof fn lemma_of_rule_has(f: Seq<Finding>, i: int)
    requires
        0 <= i < f.len(),
    ensures
        of_rule(f, f[i].rule).len() > 0,
    decreases f.len(),
{
    reveal(of_rule);
    reveal(Seq::filter);
    if i < f.len() - 1 {
        assert(f.drop_last()[i] == f[i]);
        lemma_of_rule_has(f.drop_last(), i);
    }
}

/// What is judged is what was handed in.
pub proof fn every_input_is_judged(l: Limits, i: Inputs<'_>)
    ensures
        i.crossing(l) == verdict::findings(
            l,
            match i.system {
                Some(s) => Some(*s),
                None => None,
            },
            i.disks@,
            if i.memory_trend is Some {
                i.memory_trend->0.slope_mib_per_hour
            } else {
                None
            },
            if i.process is Some {
                i.process->0.handles
            } else {
                None
            },
            i.ops@,
        ),
{
}

/// Where a rule stands among the findings.
#[verifier::opaque]
pub open spec fn stage(rule: Seq<char>) -> int {
    if rule == "cpu_high"@ || rule == "ram_pressure"@ || rule == "swap_in_use"@ {
        0
    } else if rule == "disk_low"@ {
        1
    } else if rule == "memory_growth"@ {
        2
    } else if rule == "handle_leak"@ {
        3
    } else {
        4
    }
}

/// Every finding stands at this stage.
#[verifier::opaque]
spec fn stands_at(f: Seq<Finding>, n: int) -> bool {
    forall|i: int| 0 <= i < f.len() ==> stage((#[trigger] f[i]).rule) == n
}

proof fn lemma_stands_at(f: Seq<Finding>, rule: Seq<char>)
    requires
        goes_by(f, rule),
    ensures
        stands_at(f, stage(rule)),
{
    reveal(goes_by);
    reveal(stands_at);
}

proof fn lemma_stages()
    ensures
        stage("disk_low"@) == 1,
        stage("memory_growth"@) == 2,
        stage("handle_leak"@) == 3,
        stage("op_errors"@) == 4,
        stage("op_slow"@) == 4,
{
    reveal(stage);
    lemma_rules_differ();
}

proof fn lemma_system_stage(l: Limits, system: Option<SystemMetrics>)
    ensures
        stands_at(verdict::system_findings(l, system), 0),
{
    reveal(stands_at);
    let f = verdict::system_findings(l, system);
    assert forall|i: int| 0 <= i < f.len() implies stage((#[trigger] f[i]).rule) == 0 by {
        let rule = f[i].rule;
        reveal(stage);
        if rule != "cpu_high"@ && rule != "ram_pressure"@ && rule != "swap_in_use"@ {
            lemma_system_rules(l, system, rule);
            lemma_of_rule_has(f, i);
        }
    }
}

proof fn lemma_ops_stage(l: Limits, ops: Seq<OpTiming>)
    ensures
        stands_at(verdict::all_op_findings(l, ops), 4),
{
    reveal(stands_at);
    lemma_stages();
    lemma_op_rules(l, ops);
}

proof fn lemma_staged(
    a: Seq<Finding>,
    b: Seq<Finding>,
    c: Seq<Finding>,
    d: Seq<Finding>,
    e: Seq<Finding>,
    i: int,
    j: int,
)
    requires
        stands_at(a, 0),
        stands_at(b, 1),
        stands_at(c, 2),
        stands_at(d, 3),
        stands_at(e, 4),
        0 <= i < j < (a + b + c + d + e).len(),
    ensures
        stage((a + b + c + d + e)[i].rule) <= stage((a + b + c + d + e)[j].rule),
{
    lemma_one_staged(a, b, c, d, e, i);
    lemma_one_staged(a, b, c, d, e, j);
}

/// Which part a place lies in.
spec fn part_of(a: int, b: int, c: int, d: int, i: int) -> int {
    if i < a {
        0
    } else if i < a + b {
        1
    } else if i < a + b + c {
        2
    } else if i < a + b + c + d {
        3
    } else {
        4
    }
}

proof fn lemma_one_staged(
    a: Seq<Finding>,
    b: Seq<Finding>,
    c: Seq<Finding>,
    d: Seq<Finding>,
    e: Seq<Finding>,
    i: int,
)
    requires
        stands_at(a, 0),
        stands_at(b, 1),
        stands_at(c, 2),
        stands_at(d, 3),
        stands_at(e, 4),
        0 <= i < (a + b + c + d + e).len(),
    ensures
        stage((a + b + c + d + e)[i].rule) == part_of(
            a.len() as int,
            b.len() as int,
            c.len() as int,
            d.len() as int,
            i,
        ),
{
    reveal(stands_at);
    let all = a + b + c + d + e;
    let (p, q, r, t) = (
        a.len() as int,
        a.len() + b.len(),
        a.len() + b.len() + c.len(),
        a.len() + b.len() + c.len() + d.len(),
    );
    if i < p {
        assert(all[i] == a[i]);
    } else if i < q {
        assert(all[i] == b[i - p]);
    } else if i < r {
        assert(all[i] == c[i - q]);
    } else if i < t {
        assert(all[i] == d[i - r]);
    } else {
        assert(all[i] == e[i - t]);
    }
}

/// The findings come in order: the machine, the filesystems, the memory floor, the
/// handles, the operations.
pub proof fn the_findings_come_in_order(
    l: Limits,
    system: Option<SystemMetrics>,
    disks: Seq<DiskMetrics>,
    slope: Option<Double>,
    handles: Option<u32>,
    ops: Seq<OpTiming>,
    i: int,
    j: int,
)
    requires
        0 <= i < j < verdict::findings(l, system, disks, slope, handles, ops).len(),
    ensures
        stage(verdict::findings(l, system, disks, slope, handles, ops)[i].rule) <= stage(
            verdict::findings(l, system, disks, slope, handles, ops)[j].rule,
        ),
{
    lemma_stages();
    lemma_system_stage(l, system);
    lemma_disk_rules(l, disks);
    lemma_growth_rules(l, slope);
    lemma_handle_rules(l, handles);
    lemma_stands_at(verdict::all_disk_findings(l, disks), "disk_low"@);
    lemma_stands_at(verdict::growth_findings(l, slope), "memory_growth"@);
    lemma_stands_at(verdict::handle_findings(l, handles), "handle_leak"@);
    lemma_ops_stage(l, ops);
    lemma_staged(
        verdict::system_findings(l, system),
        verdict::all_disk_findings(l, disks),
        verdict::growth_findings(l, slope),
        verdict::handle_findings(l, handles),
        verdict::all_op_findings(l, ops),
        i,
        j,
    );
}

} // verus!
