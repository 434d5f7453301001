//! Delta triggers against the previous snapshot: nothing is reported until
//! something actually moved. RAM trips strictly above its threshold, the rest
//! at or above theirs.

use crate::float::accuracy;
use crate::float::double;
use crate::float::double::Double;
use crate::float::single;
use crate::float::single::Single;
use crate::report::{Metric, Trigger};
use vstd::arithmetic::power2;
use vstd::prelude::*;

verus! {

#[derive(Debug, Clone, Copy, PartialEq, Eq, Structural)]
pub struct Thresholds {
    /// RAM change, bytes. Strictly greater trips.
    pub ram: u64,
    /// CPU change, percentage points. `>=` trips.
    pub cpu: Single,
    /// Disk read+write change, bytes. `>=` trips.
    pub disk: u64,
    /// Net in+out change, bytes. `>=` trips.
    pub net: u64,
}

/// What is used where nothing else is configured.
pub open spec fn standard() -> Thresholds {
    Thresholds {
        ram: 10485760,
        cpu: single::of_integer(15),
        disk: 52428800,
        net: 20971520,
    }
}

impl Default for Thresholds {
    fn default() -> (r: Self)
        ensures
            r == standard(),
    {
        Thresholds {
            ram: 10 * 1048576,
            cpu: Single::from_u64(15),
            disk: 50 * 1048576,
            net: 20 * 1048576,
        }
    }
}

/// The comparable slice of this process. RAM and disk are cumulative counters,
/// CPU is a point value.
#[derive(Debug, Clone, Copy, PartialEq, Eq, Structural)]
pub struct Own {
    pub ram: u64,
    pub cpu: Single,
    pub disk: u64,
}

/// The comparable slice of a snapshot: what was measured of this process, and of
/// the system-wide net. What was not measured is `None`, never zero.
#[derive(Debug, Clone, Copy, PartialEq, Eq, Structural)]
pub struct Reading {
    pub own: Option<Own>,
    pub net: Option<u64>,
}

/// A slice with everything measured: this process's RAM/CPU/disk plus
/// system-wide net.
#[derive(Debug, Clone, Copy, PartialEq, Eq, Structural)]
pub struct Sample {
    pub ram: u64,
    pub cpu: Single,
    pub disk: u64,
    pub net: u64,
}

/// A counter as a signed integer, its upper half below zero.
pub open spec fn signed(v: u64) -> int {
    if v <= i64::MAX {
        v as int
    } else {
        v - 0x1_0000_0000_0000_0000
    }
}

pub fn as_signed(v: u64) -> (r: i64)
    ensures
        r == signed(v),
{
    if v <= 0x7fff_ffff_ffff_ffff {
        v as i64
    } else {
        -((u64::MAX - v) as i64) - 1
    }
}

/// How far a counter moved.
pub open spec fn change(prev: u64, cur: u64) -> int {
    signed(cur) - signed(prev)
}

/// A counter can be compared: the difference fits its signed type. It always
/// does where both readings are below `2^63`.
pub open spec fn comparable(prev: u64, cur: u64) -> bool {
    i64::MIN <= change(prev, cur) <= i64::MAX
}

/// Whether a counter can be compared.
pub fn in_range(prev: u64, cur: u64) -> (r: bool)
    ensures
        r == comparable(prev, cur),
{
    let d: i128 = as_signed(cur) as i128 - as_signed(prev) as i128;
    -0x8000_0000_0000_0000 <= d && d <= 0x7fff_ffff_ffff_ffff
}

/// The counters of two processes can be compared.
pub open spec fn comparable_own(prev: Own, cur: Own) -> bool {
    comparable(prev.ram, cur.ram) && comparable(prev.disk, cur.disk)
}

/// What was measured both times can be compared.
pub open spec fn comparable_readings(prev: Reading, cur: Reading) -> bool {
    &&& (prev.own, cur.own) matches (Some(a), Some(b)) ==> comparable_own(a, b)
    &&& (prev.net, cur.net) matches (Some(a), Some(b)) ==> comparable(a, b)
}

/// Whether what was measured both times can be compared.
pub fn readings_in_range(prev: &Reading, cur: &Reading) -> (r: bool)
    ensures
        r == comparable_readings(*prev, *cur),
{
    let own: bool = match (&prev.own, &cur.own) {
        (Some(a), Some(b)) => in_range(a.ram, b.ram) && in_range(a.disk, b.disk),
        _ => true,
    };
    let net: bool = match (prev.net, cur.net) {
        (Some(a), Some(b)) => in_range(a, b),
        _ => true,
    };
    own && net
}

impl Sample {
    pub open spec fn measured(self) -> Reading {
        Reading {
            own: Some(Own { ram: self.ram, cpu: self.cpu, disk: self.disk }),
            net: Some(self.net),
        }
    }

    /// The sample as a reading with everything measured.
    pub fn as_reading(&self) -> (r: Reading)
        ensures
            r == self.measured(),
    {
        Reading {
            own: Some(Own { ram: self.ram, cpu: self.cpu, disk: self.disk }),
            net: Some(self.net),
        }
    }
}

/// Both samples can be compared.
pub open spec fn comparable_samples(prev: Sample, cur: Sample) -> bool {
    comparable_readings(prev.measured(), cur.measured())
}

/// What a [`Trigger`] says, its unit as characters.
pub struct Crossing {
    pub metric: Metric,
    pub delta: Double,
    pub unit: Seq<char>,
}

impl View for Trigger {
    type V = Crossing;

    open spec fn view(&self) -> Crossing {
        Crossing { metric: self.metric, delta: self.delta, unit: self.unit@ }
    }
}

/// A change of bytes in MiB.
pub open spec fn in_mebibytes(d: int) -> Double {
    double::quotient(double::of_integer(d), double::of_quotient(1048576, 1))
}

/// A byte counter that tripped.
pub open spec fn moved_bytes(metric: Metric, d: int) -> Crossing {
    Crossing { metric, delta: in_mebibytes(d), unit: "MiB"@ }
}

/// The change of CPU, in percentage points.
pub open spec fn cpu_change(prev: Single, cur: Single) -> Single {
    single::sum(cur, single::opposite(prev))
}

/// A change of CPU that tripped.
pub open spec fn moved_points(d: Single) -> Crossing {
    Crossing { metric: Metric::Cpu, delta: single::widened(d), unit: "pp"@ }
}

pub open spec fn one_if(b: bool, c: Crossing) -> Seq<Crossing> {
    if b {
        seq![c]
    } else {
        Seq::empty()
    }
}

/// What moved far enough of this process.
pub open spec fn own_crossings(th: Thresholds, prev: Own, cur: Own) -> Seq<Crossing> {
    let ram = change(prev.ram, cur.ram);
    let cpu = cpu_change(prev.cpu, cur.cpu);
    let disk = change(prev.disk, cur.disk);
    one_if(double::magnitude(ram) > th.ram, moved_bytes(Metric::Ram, ram)) + one_if(
        cpu.absolute().not_below(th.cpu),
        moved_points(cpu),
    ) + one_if(double::magnitude(disk) >= th.disk, moved_bytes(Metric::Disk, disk))
}

/// What moved far enough of the net.
pub open spec fn net_crossings(th: Thresholds, prev: u64, cur: u64) -> Seq<Crossing> {
    let net = change(prev, cur);
    one_if(double::magnitude(net) >= th.net, moved_bytes(Metric::Net, net))
}

/// Everything that was measured both times and moved far enough.
pub open spec fn crossings_between(th: Thresholds, prev: Reading, cur: Reading) -> Seq<Crossing> {
    (match (prev.own, cur.own) {
        (Some(a), Some(b)) => own_crossings(th, a, b),
        _ => Seq::empty(),
    }) + (match (prev.net, cur.net) {
        (Some(a), Some(b)) => net_crossings(th, a, b),
        _ => Seq::empty(),
    })
}

/// Everything that moved far enough, with everything measured.
pub open spec fn crossings(th: Thresholds, prev: Sample, cur: Sample) -> Seq<Crossing> {
    crossings_between(th, prev.measured(), cur.measured())
}

/// What each of the triggers says.
pub open spec fn said(t: Seq<Trigger>) -> Seq<Crossing> {
    t.map_values(|x: Trigger| x@)
}

fn distance(d: i64) -> (r: u64)
    ensures
        r == double::magnitude(d as int),
{
    if d < 0 {
        (-(d + 1)) as u64 + 1
    } else {
        d as u64
    }
}

fn trip(out: &mut Vec<Trigger>, metric: Metric, d: i64)
    ensures
        said(final(out)@) == said(old(out)@).push(moved_bytes(metric, d as int)),
{
    let delta: Double = Double::from_i64(d).over(Double::from_u64(1048576));
    out.push(Trigger { metric, delta, unit: "MiB" });
    assert(said(out@) =~= said(old(out)@).push(moved_bytes(metric, d as int)));
}

fn compare_own(out: &mut Vec<Trigger>, th: &Thresholds, prev: &Own, cur: &Own)
    requires
        comparable_own(*prev, *cur),
    ensures
        said(final(out)@) == said(old(out)@) + own_crossings(*th, *prev, *cur),
{
    let d_ram: i64 = as_signed(cur.ram) - as_signed(prev.ram);
    if distance(d_ram) > th.ram {
        trip(out, Metric::Ram, d_ram);
    }
    let d_cpu: Single = cur.cpu.minus(prev.cpu);
    let ghost was = said(out@);
    if d_cpu.abs().at_least(th.cpu) {
        out.push(Trigger { metric: Metric::Cpu, delta: d_cpu.widen(), unit: "pp" });
        assert(said(out@) =~= was.push(moved_points(d_cpu)));
    }
    let d_disk: i64 = as_signed(cur.disk) - as_signed(prev.disk);
    if distance(d_disk) >= th.disk {
        trip(out, Metric::Disk, d_disk);
    }
    assert(said(out@) =~= said(old(out)@) + own_crossings(*th, *prev, *cur));
}

/// What moved between two readings. What was not measured both times cannot have
/// moved.
pub fn evaluate_readings(th: &Thresholds, prev: &Reading, cur: &Reading) -> (out: Vec<Trigger>)
    requires
        comparable_readings(*prev, *cur),
    ensures
        said(out@) == crossings_between(*th, *prev, *cur),
{
    let mut out: Vec<Trigger> = Vec::new();
    assert(said(out@) =~= Seq::<Crossing>::empty());
    if let (Some(a), Some(b)) = (&prev.own, &cur.own) {
        compare_own(&mut out, th, a, b);
    }
    if let (Some(a), Some(b)) = (prev.net, cur.net) {
        let d_net: i64 = as_signed(b) - as_signed(a);
        if distance(d_net) >= th.net {
            trip(&mut out, Metric::Net, d_net);
        }
    }
    assert(said(out@) =~= crossings_between(*th, *prev, *cur));
    out
}

/// What moved between two samples.
pub fn evaluate(th: &Thresholds, prev: &Sample, cur: &Sample) -> (out: Vec<Trigger>)
    requires
        comparable_samples(*prev, *cur),
    ensures
        said(out@) == crossings(*th, *prev, *cur),
{
    evaluate_readings(th, &prev.as_reading(), &cur.as_reading())
}

/// Nothing is reported until something actually moved: a reading compared with
/// itself trips no positive threshold.
pub proof fn standing_still_trips_nothing(th: Thresholds, s: Reading)
    requires
        th.cpu.rank() > 0,
        th.disk > 0,
        th.net > 0,
    ensures
        comparable_readings(s, s),
        crossings_between(th, s, s).len() == 0,
{
    if s.own is Some {
        let x = s.own->0.cpu;
        if !x.is_nan() && !x.is_infinite() {
            assert(single::opposite(x).units() == -x.units());
            assert(cpu_change(x, x).position() == 0);
        }
    }
}

/// Whether this metric is among what is reported.
pub open spec fn reports(c: Seq<Crossing>, m: Metric) -> bool {
    exists|i: int| 0 <= i < c.len() && #[trigger] c[i].metric == m
}

proof fn lemma_reports_one(b: bool, c: Crossing, m: Metric)
    ensures
        reports(one_if(b, c), m) == (b && c.metric == m),
{
    if b {
        assert(one_if(b, c)[0] == c);
    }
}

proof fn lemma_reports_both(x: Seq<Crossing>, y: Seq<Crossing>, m: Metric)
    ensures
        reports(x + y, m) == (reports(x, m) || reports(y, m)),
{
    if reports(x, m) {
        let i = choose|i: int| 0 <= i < x.len() && #[trigger] x[i].metric == m;
        assert((x + y)[i] == x[i]);
    }
    if reports(y, m) {
        let i = choose|i: int| 0 <= i < y.len() && #[trigger] y[i].metric == m;
        assert((x + y)[x.len() + i] == y[i]);
    }
    if reports(x + y, m) {
        let i = choose|i: int| 0 <= i < (x + y).len() && #[trigger] (x + y)[i].metric == m;
        if i < x.len() {
            assert(x[i].metric == m);
        } else {
            assert(y[i - x.len()].metric == m);
        }
    }
}

/// RAM trips strictly above its threshold, the rest at or above theirs.
pub proof fn thresholds_are_boundaries(th: Thresholds, prev: Sample, cur: Sample)
    ensures
        reports(crossings(th, prev, cur), Metric::Ram) == (double::magnitude(
            change(prev.ram, cur.ram),
        ) > th.ram),
        reports(crossings(th, prev, cur), Metric::Cpu) == cpu_change(
            prev.cpu,
            cur.cpu,
        ).absolute().not_below(th.cpu),
        reports(crossings(th, prev, cur), Metric::Disk) == (double::magnitude(
            change(prev.disk, cur.disk),
        ) >= th.disk),
        reports(crossings(th, prev, cur), Metric::Net) == (double::magnitude(
            change(prev.net, cur.net),
        ) >= th.net),
{
    let (a, b) = (prev.measured(), cur.measured());
    lemma_reports(th, a, b, Metric::Ram);
    lemma_reports(th, a, b, Metric::Cpu);
    lemma_reports(th, a, b, Metric::Disk);
    lemma_reports(th, a, b, Metric::Net);
}

/// What was not measured is not compared: a metric of this process is reported
/// only where the process was measured both times, and the net only where the
/// net was.
pub proof fn only_what_was_measured_twice_trips(th: Thresholds, prev: Reading, cur: Reading)
    ensures
        reports(crossings_between(th, prev, cur), Metric::Ram) ==> prev.own is Some
            && cur.own is Some,
        reports(crossings_between(th, prev, cur), Metric::Cpu) ==> prev.own is Some
            && cur.own is Some,
        reports(crossings_between(th, prev, cur), Metric::Disk) ==> prev.own is Some
            && cur.own is Some,
        reports(crossings_between(th, prev, cur), Metric::Net) ==> prev.net is Some
            && cur.net is Some,
{
    lemma_reports(th, prev, cur, Metric::Ram);
    lemma_reports(th, prev, cur, Metric::Cpu);
    lemma_reports(th, prev, cur, Metric::Disk);
    lemma_reports(th, prev, cur, Metric::Net);
}

/// Whether this metric moved far enough between two readings.
spec fn moved(th: Thresholds, prev: Reading, cur: Reading, m: Metric) -> bool {
    match m {
        Metric::Net => (prev.net, cur.net) matches (Some(a), Some(b)) && double::magnitude(
            change(a, b),
        ) >= th.net,
        _ => (prev.own, cur.own) matches (Some(a), Some(b)) && match m {
            Metric::Ram => double::magnitude(change(a.ram, b.ram)) > th.ram,
            Metric::Cpu => cpu_change(a.cpu, b.cpu).absolute().not_below(th.cpu),
            _ => double::magnitude(change(a.disk, b.disk)) >= th.disk,
        },
    }
}

proof fn lemma_reports(th: Thresholds, prev: Reading, cur: Reading, m: Metric)
    ensures
        reports(crossings_between(th, prev, cur), m) == moved(th, prev, cur, m),
{
    let none = Seq::<Crossing>::empty();
    let x = match (prev.own, cur.own) {
        (Some(a), Some(b)) => own_crossings(th, a, b),
        _ => none,
    };
    let y = match (prev.net, cur.net) {
        (Some(a), Some(b)) => net_crossings(th, a, b),
        _ => none,
    };
    lemma_reports_both(x, y, m);
    if prev.own is Some && cur.own is Some {
        let (p, q) = (prev.own->0, cur.own->0);
        let (ram, disk) = (change(p.ram, q.ram), change(p.disk, q.disk));
        let cpu = cpu_change(p.cpu, q.cpu);
        let a = one_if(double::magnitude(ram) > th.ram, moved_bytes(Metric::Ram, ram));
        let b = one_if(cpu.absolute().not_below(th.cpu), moved_points(cpu));
        let c = one_if(double::magnitude(disk) >= th.disk, moved_bytes(Metric::Disk, disk));
        lemma_reports_one(double::magnitude(ram) > th.ram, moved_bytes(Metric::Ram, ram), m);
        lemma_reports_one(cpu.absolute().not_below(th.cpu), moved_points(cpu), m);
        lemma_reports_one(double::magnitude(disk) >= th.disk, moved_bytes(Metric::Disk, disk), m);
        lemma_reports_both(a, b, m);
        lemma_reports_both(a + b, c, m);
    }
    if prev.net is Some && cur.net is Some {
        let net = change(prev.net->0, cur.net->0);
        lemma_reports_one(double::magnitude(net) >= th.net, moved_bytes(Metric::Net, net), m);
    }
}

/// The same metrics in the same units, every change the other way round.
pub open spec fn reversed(x: Seq<Crossing>, y: Seq<Crossing>) -> bool {
    &&& x.len() == y.len()
    &&& forall|i: int|
        #![trigger x[i]]
        #![trigger y[i]]
        0 <= i < x.len() ==> x[i].metric == y[i].metric && x[i].unit == y[i].unit
            && x[i].delta.rank() == -y[i].delta.rank()
}

/// A change is as large one way as the other: with the readings exchanged the
/// same metrics are reported, in the same units, every delta with the opposite
/// sign.
pub proof fn a_change_reads_the_same_both_ways(th: Thresholds, prev: Reading, cur: Reading)
    ensures
        reversed(crossings_between(th, cur, prev), crossings_between(th, prev, cur)),
{
    let none = Seq::<Crossing>::empty();
    let (x, y) = match (prev.own, cur.own) {
        (Some(a), Some(b)) => (own_crossings(th, b, a), own_crossings(th, a, b)),
        _ => (none, none),
    };
    let (z, w) = match (prev.net, cur.net) {
        (Some(a), Some(b)) => (net_crossings(th, b, a), net_crossings(th, a, b)),
        _ => (none, none),
    };
    assert(reversed(x, y)) by {
        if prev.own is Some && cur.own is Some {
            lemma_own_reversed(th, prev.own->0, cur.own->0);
        }
    }
    assert(reversed(z, w)) by {
        if prev.net is Some && cur.net is Some {
            lemma_bytes_reversed(Metric::Net, change(prev.net->0, cur.net->0));
        }
    }
    lemma_reversed_both(x, y, z, w);
}

proof fn lemma_reversed_both(x: Seq<Crossing>, y: Seq<Crossing>, z: Seq<Crossing>, w: Seq<Crossing>)
    requires
        reversed(x, y),
        reversed(z, w),
    ensures
        reversed(x + z, y + w),
{
    let (l, r) = (x + z, y + w);
    assert forall|i: int|
        #![trigger l[i]]
        #![trigger r[i]]
        0 <= i < l.len() implies l[i].metric == r[i].metric && l[i].unit == r[i].unit
        && l[i].delta.rank() == -r[i].delta.rank() by {
        if i < x.len() {
            assert(l[i] == x[i] && r[i] == y[i]);
        } else {
            assert(l[i] == z[i - x.len()] && r[i] == w[i - x.len()]);
        }
    }
}

proof fn lemma_reversed_one(b: bool, c: Crossing, d: Crossing)
    requires
        b ==> c.metric == d.metric && c.unit == d.unit && c.delta.rank() == -d.delta.rank(),
    ensures
        reversed(one_if(b, c), one_if(b, d)),
{
}

proof fn lemma_own_reversed(th: Thresholds, a: Own, b: Own)
    ensures
        reversed(own_crossings(th, b, a), own_crossings(th, a, b)),
{
    let (ram, disk) = (change(a.ram, b.ram), change(a.disk, b.disk));
    let (cpu, upc) = (cpu_change(a.cpu, b.cpu), cpu_change(b.cpu, a.cpu));
    lemma_bytes_reversed(Metric::Ram, ram);
    lemma_bytes_reversed(Metric::Disk, disk);
    lemma_points_reversed(a.cpu, b.cpu);
    let r = double::magnitude(ram) > th.ram;
    let c = cpu.absolute().not_below(th.cpu);
    let d = double::magnitude(disk) >= th.disk;
    lemma_reversed_one(r, moved_bytes(Metric::Ram, -ram), moved_bytes(Metric::Ram, ram));
    lemma_reversed_one(c, moved_points(upc), moved_points(cpu));
    lemma_reversed_one(d, moved_bytes(Metric::Disk, -disk), moved_bytes(Metric::Disk, disk));
    let (x, y) = (
        one_if(r, moved_bytes(Metric::Ram, -ram)),
        one_if(r, moved_bytes(Metric::Ram, ram)),
    );
    let (z, w) = (one_if(c, moved_points(upc)), one_if(c, moved_points(cpu)));
    lemma_reversed_both(x, y, z, w);
    lemma_reversed_both(
        x + z,
        y + w,
        one_if(d, moved_bytes(Metric::Disk, -disk)),
        one_if(d, moved_bytes(Metric::Disk, disk)),
    );
}

proof fn lemma_bytes_reversed(metric: Metric, d: int)
    ensures
        moved_bytes(metric, -d).delta.rank() == -moved_bytes(metric, d).delta.rank(),
        double::magnitude(-d) == double::magnitude(d),
{
    let (x, y) = (double::of_integer(d), double::of_integer(-d));
    double::lemma_small_integer(1048576);
    assert(x.position() == y.position());
    if d == 0 {
        double::lemma_small_integer(0);
        assert(x == double::of_quotient(0, 1));
        assert(x.is_naught());
        double::lemma_naught(x, double::of_quotient(1048576, 1));
    } else {
        assert(x.negative() != y.negative());
        assert(double::magnitude(x.units()) == double::magnitude(y.units()));
    }
}

proof fn lemma_points_reversed(a: Single, b: Single)
    ensures
        cpu_change(b, a).absolute() == cpu_change(a, b).absolute(),
        cpu_change(a, b).is_nan() || single::widened(cpu_change(b, a)).rank()
            == -single::widened(cpu_change(a, b)).rank(),
{
    let (x, y) = (cpu_change(a, b), cpu_change(b, a));
    if a.is_nan() || b.is_nan() {
    } else if a.is_infinite() || b.is_infinite() {
    } else {
        assert(single::opposite(a).units() == -a.units());
        assert(single::opposite(b).units() == -b.units());
        assert(x.position() == y.position());
        if b.units() - a.units() == 0 {
            assert(x.position() == 0);
            single::lemma_widened_zero(x);
            single::lemma_widened_zero(y);
        } else {
            assert(x.negative() != y.negative());
            assert(double::magnitude(x.units()) == double::magnitude(y.units()));
        }
    }
}

/// The counters of a reading are below `2^63`.
pub open spec fn plain(r: Reading) -> bool {
    &&& r.own matches Some(o) ==> o.ram <= i64::MAX && o.disk <= i64::MAX
    &&& r.net matches Some(n) ==> n <= i64::MAX
}

/// Bytes trip exactly where they moved far enough: RAM by more than its
/// threshold, disk and net by theirs or more, up or down.
pub proof fn bytes_trip_where_they_moved_far_enough(th: Thresholds, prev: Reading, cur: Reading)
    requires
        plain(prev),
        plain(cur),
    ensures
        reports(crossings_between(th, prev, cur), Metric::Ram) <==> (prev.own is Some && cur.own
            is Some && accuracy::apart(prev.own->0.ram as int, cur.own->0.ram as int) > th.ram),
        reports(crossings_between(th, prev, cur), Metric::Disk) <==> (prev.own is Some && cur.own
            is Some && accuracy::apart(prev.own->0.disk as int, cur.own->0.disk as int) >= th.disk),
        reports(crossings_between(th, prev, cur), Metric::Net) <==> (prev.net is Some && cur.net
            is Some && accuracy::apart(prev.net->0 as int, cur.net->0 as int) >= th.net),
{
    lemma_reports(th, prev, cur, Metric::Ram);
    lemma_reports(th, prev, cur, Metric::Disk);
    lemma_reports(th, prev, cur, Metric::Net);
}

/// What a trigger may say of a reading.
spec fn candidate(prev: Reading, cur: Reading, c: Crossing) -> bool {
    match c.metric {
        Metric::Net => prev.net is Some && cur.net is Some && c == moved_bytes(
            Metric::Net,
            change(prev.net->0, cur.net->0),
        ),
        Metric::Ram => prev.own is Some && cur.own is Some && c == moved_bytes(
            Metric::Ram,
            change(prev.own->0.ram, cur.own->0.ram),
        ),
        Metric::Disk => prev.own is Some && cur.own is Some && c == moved_bytes(
            Metric::Disk,
            change(prev.own->0.disk, cur.own->0.disk),
        ),
        Metric::Cpu => prev.own is Some && cur.own is Some && c == moved_points(
            cpu_change(prev.own->0.cpu, cur.own->0.cpu),
        ),
    }
}

proof fn lemma_candidates(th: Thresholds, prev: Reading, cur: Reading, i: int)
    requires
        0 <= i < crossings_between(th, prev, cur).len(),
    ensures
        candidate(prev, cur, crossings_between(th, prev, cur)[i]),
{
    let none = Seq::<Crossing>::empty();
    let x = match (prev.own, cur.own) {
        (Some(a), Some(b)) => own_crossings(th, a, b),
        _ => none,
    };
    let y = match (prev.net, cur.net) {
        (Some(a), Some(b)) => net_crossings(th, a, b),
        _ => none,
    };
    let all = crossings_between(th, prev, cur);
    if i < x.len() {
        assert(all[i] == x[i]);
    } else {
        assert(all[i] == y[i - x.len()]);
    }
}

/// A trigger says how far its metric moved, with the sign of the change: bytes in
/// MiB up to four parts in `2^53`, CPU in percentage points up to one part in
/// `2^24`.
pub proof fn a_trigger_says_how_far_it_moved(th: Thresholds, prev: Reading, cur: Reading, i: int)
    requires
        plain(prev),
        plain(cur),
        0 <= i < crossings_between(th, prev, cur).len(),
    ensures
        ({
            let c = crossings_between(th, prev, cur)[i];
            let (a, b) = (prev.own->0, cur.own->0);
            match c.metric {
                Metric::Ram => c.unit == "MiB"@ && accuracy::near(c.delta, b.ram - a.ram, 1048576, 4),
                Metric::Disk => c.unit == "MiB"@ && accuracy::near(
                    c.delta,
                    b.disk - a.disk,
                    1048576,
                    4,
                ),
                Metric::Net => c.unit == "MiB"@ && accuracy::near(
                    c.delta,
                    cur.net->0 - prev.net->0,
                    1048576,
                    4,
                ),
                Metric::Cpu => c.unit == "pp"@,
            }
        }),
{
    lemma_candidates(th, prev, cur, i);
    let c = crossings_between(th, prev, cur)[i];
    let (a, b) = (prev.own->0, cur.own->0);
    match c.metric {
        Metric::Ram => {
            accuracy::lemma_signed_divides_near((b.ram - a.ram) as i64, 1048576);
        },
        Metric::Disk => {
            accuracy::lemma_signed_divides_near((b.disk - a.disk) as i64, 1048576);
        },
        Metric::Net => {
            accuracy::lemma_signed_divides_near((cur.net->0 - prev.net->0) as i64, 1048576);
        },
        Metric::Cpu => {},
    }
}

/// The change of CPU that is judged and reported is the difference of the two
/// readings, up to one part in `2^24`, with its sign.
pub proof fn a_change_of_cpu_is_the_difference(prev: Single, cur: Single)
    requires
        !prev.is_nan() && !prev.is_infinite(),
        !cur.is_nan() && !cur.is_infinite(),
        !cpu_change(prev, cur).is_infinite(),
    ensures
        ({
            let d = cpu_change(prev, cur);
            &&& accuracy::apart(d.units(), cur.units() - prev.units()) * 0x100_0000
                <= accuracy::apart(cur.units(), prev.units())
            &&& moved_points(d).delta.is_finite()
            &&& double::magnitude(moved_points(d).delta.units()) == double::magnitude(d.units())
                * power2::pow2(925)
            &&& moved_points(d).delta.negative() == d.negative()
            &&& d.absolute().units() == double::magnitude(d.units())
        }),
{
    assert(single::opposite(prev).units() == -prev.units());
    accuracy::lemma_single_sum_near(cur, single::opposite(prev));
    accuracy::lemma_widened_exact(cpu_change(prev, cur));
}

/// CPU trips where the change, without its sign, is not below the threshold.
pub proof fn cpu_trips_where_it_moved_far_enough(th: Thresholds, prev: Reading, cur: Reading)
    ensures
        reports(crossings_between(th, prev, cur), Metric::Cpu) <==> (prev.own is Some && cur.own
            is Some && {
            let d = cpu_change(prev.own->0.cpu, cur.own->0.cpu);
            !d.is_nan() && !th.cpu.is_nan() && d.position() >= th.cpu.rank()
        }),
{
    lemma_reports(th, prev, cur, Metric::Cpu);
}

} // verus!
