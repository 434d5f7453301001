//! Whole-machine CPU and memory.

use crate::float::accuracy;
use crate::float::double::Double;
use crate::float::single;
use crate::float::single::Single;
use crate::report::SystemMetrics;
use vstd::prelude::*;

verus! {

/// What the machine says of itself.
#[derive(Debug, Clone)]
pub struct MachineReading {
    /// Usage of each core.
    pub cpus: Vec<Single>,
    /// 1/5/15-minute load average. `None` on Windows, which has none: a zero
    /// would read as "idle" instead of "not a thing here".
    pub load_avg: Option<(Double, Double, Double)>,
    pub ram_total: u64,
    pub ram_used: u64,
    pub ram_available: u64,
    pub swap_total: u64,
    pub swap_used: u64,
}

/// The sum of the usages, from the zero that changes no number it is added to.
pub open spec fn usage(cpus: Seq<Single>) -> Single
    decreases cpus.len(),
{
    if cpus.len() == 0 {
        single::opposite(single::of_integer(0))
    } else {
        single::sum(usage(cpus.drop_last()), cpus.last())
    }
}

/// `s` is what a machine with at least one core says.
pub open spec fn describes(m: MachineReading, s: Option<SystemMetrics>) -> bool {
    match s {
        Some(s) => {
            &&& m.cpus@.len() > 0
            &&& s.cpu_pct == single::quotient(usage(m.cpus@), single::of_integer(m.cpus@.len()))
            &&& s.cpu_per_core@ == m.cpus@
            &&& s.cores == m.cpus@.len()
            &&& s.load_avg == m.load_avg
            &&& s.ram_total == m.ram_total
            &&& s.ram_used == m.ram_used
            &&& s.ram_free == m.ram_available
            &&& s.swap_total == m.swap_total
            &&& s.swap_used == m.swap_used
        },
        None => m.cpus@.len() == 0,
    }
}

pub fn collect(m: &MachineReading) -> (r: Option<SystemMetrics>)
    ensures
        describes(*m, r),
{
    if m.cpus.len() == 0 {
        return None;
    }
    let mut sum: Single = Single::from_u64(0).negate();
    let mut cores: Vec<Single> = Vec::new();
    let mut i: usize = 0;
    assert(m.cpus@.take(0) =~= Seq::<Single>::empty());
    while i < m.cpus.len()
        invariant
            i <= m.cpus@.len(),
            sum == usage(m.cpus@.take(i as int)),
            cores@ == m.cpus@.take(i as int),
        decreases m.cpus@.len() - i,
    {
        sum = sum.plus(m.cpus[i]);
        cores.push(m.cpus[i]);
        proof {
            assert(m.cpus@.take(i + 1).drop_last() =~= m.cpus@.take(i as int));
            assert(cores@ =~= m.cpus@.take(i + 1));
        }
        i = i + 1;
    }
    assert(m.cpus@.take(i as int) =~= m.cpus@);
    Some(
        SystemMetrics {
            cpu_pct: sum.over(Single::from_u64(m.cpus.len() as u64)),
            cpu_per_core: cores,
            cores: m.cpus.len(),
            load_avg: m.load_avg,
            ram_total: m.ram_total,
            ram_used: m.ram_used,
            ram_free: m.ram_available,
            swap_total: m.swap_total,
            swap_used: m.swap_used,
        },
    )
}

/// The sum of whole percentages.
pub open spec fn added(c: Seq<nat>) -> nat
    decreases c.len(),
{
    if c.len() == 0 {
        0
    } else {
        added(c.drop_last()) + c.last()
    }
}

proof fn lemma_usage_is_added(cpus: Seq<Single>, c: Seq<nat>)
    requires
        cpus.len() == c.len(),
        forall|i: int| 0 <= i < c.len() ==> #[trigger] cpus[i] == single::of_integer(c[i]),
        added(c) < 0x100_0000,
    ensures
        accuracy::is_whole(usage(cpus), added(c)),
    decreases c.len(),
{
    if c.len() == 0 {
        accuracy::lemma_whole_integer(0);
        assert(single::opposite(single::of_integer(0)).units() == -single::of_integer(0).units());
    } else {
        let (d, b) = (cpus.drop_last(), c.drop_last());
        assert forall|i: int| 0 <= i < b.len() implies #[trigger] d[i] == single::of_integer(
            b[i],
        ) by {
            assert(cpus[i] == d[i] && c[i] == b[i]);
        }
        lemma_usage_is_added(d, b);
        assert(cpus[c.len() - 1] == single::of_integer(c[c.len() - 1]));
        accuracy::lemma_whole_integer(c.last());
        accuracy::lemma_whole_sum(usage(d), cpus.last(), added(b), c.last());
    }
}

/// The CPU of a machine is the mean of its cores: for whole percentages, up to one
/// part in `2^24`. Everything else is reported as it was read.
pub proof fn the_cpu_is_the_mean_of_its_cores(m: MachineReading, s: SystemMetrics, c: Seq<nat>)
    requires
        describes(m, Some(s)),
        m.cpus@.len() == c.len(),
        c.len() < 0x100_0000,
        forall|i: int| 0 <= i < c.len() ==> #[trigger] m.cpus@[i] == single::of_integer(c[i]),
        added(c) < 0x100_0000,
    ensures
        !s.cpu_pct.is_nan() && !s.cpu_pct.is_infinite(),
        accuracy::apart(
            s.cpu_pct.units() * c.len(),
            (added(c) * accuracy::single_one()) as int,
        ) * 0x100_0000 <= added(c) * accuracy::single_one(),
        s.cores == c.len(),
        s.cpu_per_core@ == m.cpus@,
        s.load_avg == m.load_avg,
        s.ram_total == m.ram_total,
        s.ram_used == m.ram_used,
        s.ram_free == m.ram_available,
        s.swap_total == m.swap_total,
        s.swap_used == m.swap_used,
{
    lemma_usage_is_added(m.cpus@, c);
    accuracy::lemma_whole_quotient(usage(m.cpus@), added(c), c.len());
}

/// A machine without cores could not be read, and one with cores could.
pub proof fn a_machine_has_cores(m: MachineReading, s: Option<SystemMetrics>)
    requires
        describes(m, s),
    ensures
        s is Some <==> m.cpus@.len() > 0,
{
}

} // verus!
