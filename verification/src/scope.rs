//! [`Scope`] measures what one operation cost and records it when it ends.
//! Results are aggregated per name in RAM (one row per operation kind, never
//! one per call) and read out by the next snapshot. Nothing is written anywhere.
//!
//! Time comes from the caller: nanoseconds of a monotonic clock.
//!
//! # Reading the memory numbers
//!
//! Check [`ScopeMemory::is_isolated`] before trusting `d_rss`/`d_private`. The
//! counters are process-wide, so overlapping scopes attribute each other's
//! work; only a run with no peers measured itself alone.

use crate::float::accuracy;
use crate::float::double;
use crate::float::double::Double;
use crate::hist;
use crate::hist::Histogram;
use crate::report;
use crate::report::{per_second, OpTiming, ScopeMemory};
use crate::rows;
use crate::rows::{find_named, Named, Ranked, Row};
use crate::text::same;
use crate::triggers;
use crate::triggers::{as_signed, in_range};
use vstd::prelude::*;

verus! {

/// What was measured of one operation.
pub struct Op {
    pub name: &'static str,
    pub hist: Histogram,
    pub errors: u64,
    pub last_memory: Option<ScopeMemory>,
}

impl Named for Op {
    open spec fn title(&self) -> Seq<char> {
        self.name@
    }

    fn is_called(&self, name: &str) -> bool {
        same(self.name, name)
    }
}

/// Heaviest total wall time first: the profile question is "where did the time
/// go", not "what is slowest per call".
impl Ranked for Op {
    open spec fn ahead(&self, other: &Self) -> bool {
        self.hist.sum > other.hist.sum
    }

    proof fn asymmetric(a: &Self, b: &Self) {
    }

    proof fn layered(a: &Self, b: &Self, c: &Self) {
    }

    fn is_ahead(&self, other: &Self) -> bool {
        self.hist.sum > other.hist.sum
    }
}

/// Everything measured so far.
pub struct Registry {
    /// How many scopes are open.
    pub active: usize,
    /// How many scopes were ever opened.
    pub opened: u64,
    /// How often the operations were forgotten.
    pub era: u64,
    pub ops: Vec<Op>,
}

/// One run of an operation.
pub struct Run {
    pub name: Seq<char>,
    pub us: u64,
    pub failed: bool,
    pub memory: Option<ScopeMemory>,
}

/// The times of the runs of one operation.
pub open spec fn samples(runs: Seq<Run>, name: Seq<char>) -> Seq<u64>
    decreases runs.len(),
{
    if runs.len() == 0 {
        Seq::empty()
    } else if runs.last().name == name {
        samples(runs.drop_last(), name).push(runs.last().us)
    } else {
        samples(runs.drop_last(), name)
    }
}

/// How many runs of one operation failed.
pub open spec fn failures(runs: Seq<Run>, name: Seq<char>) -> nat
    decreases runs.len(),
{
    if runs.len() == 0 {
        0
    } else {
        failures(runs.drop_last(), name) + if runs.last().name == name && runs.last().failed {
            1nat
        } else {
            0nat
        }
    }
}

/// The memory cost of the latest run of one operation that measured it.
pub open spec fn latest_memory(runs: Seq<Run>, name: Seq<char>) -> Option<ScopeMemory>
    decreases runs.len(),
{
    if runs.len() == 0 {
        None
    } else if runs.last().name == name && runs.last().memory is Some {
        runs.last().memory
    } else {
        latest_memory(runs.drop_last(), name)
    }
}

impl Op {
    /// This row is what these runs come to.
    pub open spec fn sums_up(&self, runs: Seq<Run>) -> bool {
        &&& self.hist.records(samples(runs, self.name@))
        &&& self.errors == failures(runs, self.name@)
        &&& self.last_memory == latest_memory(runs, self.name@)
    }
}

impl Registry {
    pub open spec fn wf(&self) -> bool {
        &&& rows::distinct(self.ops@)
        &&& forall|i: int|
            0 <= i < self.ops@.len() ==> (#[trigger] self.ops@[i]).errors <= self.ops@[i].hist.count
    }

    /// The registry is what these runs leave behind: one row per name that
    /// occurs among them.
    pub open spec fn tells(&self, runs: Seq<Run>) -> bool {
        &&& forall|i: int| 0 <= i < self.ops@.len() ==> (#[trigger] self.ops@[i]).sums_up(runs)
        &&& forall|n: Seq<char>| #[trigger]
            rows::has_name(self.ops@, n) <==> samples(runs, n).len() > 0
    }

    /// One more run of this operation can be counted.
    pub open spec fn has_room(&self, name: Seq<char>) -> bool {
        forall|i: int|
            0 <= i < self.ops@.len() && (#[trigger] self.ops@[i]).title() == name
                ==> self.ops@[i].hist.count < u64::MAX
    }
}

impl Registry {
    /// Whether one more run of this operation can be counted.
    pub fn admits(&self, name: &str) -> (r: bool)
        requires
            self.wf(),
        ensures
            r == self.has_room(name@),
    {
        match find_named(&self.ops, name) {
            Some(i) => {
                proof {
                    assert forall|j: int|
                        0 <= j < self.ops@.len() && (#[trigger] self.ops@[j]).title() == name@ implies j
                        == i by {
                        rows::lemma_index_named(self.ops@, j);
                    }
                }
                self.ops[i].hist.count < u64::MAX
            },
            None => true,
        }
    }
}

impl Default for Registry {
    fn default() -> (r: Self)
        ensures
            r.wf(),
            r.active == 0,
            r.opened == 0,
            r.era == 0,
            r.ops@.len() == 0,
            r.tells(Seq::empty()),
    {
        Registry { active: 0, opened: 0, era: 0, ops: Vec::new() }
    }
}

/// Measures one operation, from the moment it is made to [`Scope::finish`].
#[derive(Debug)]
pub struct Scope {
    pub name: &'static str,
    /// When it started, in nanoseconds.
    pub started_ns: u64,
    /// `(rss, private)` at entry — `None` unless the caller opted in.
    pub mem0: Option<(u64, u64)>,
    /// How many other scopes were open at entry.
    pub peers: usize,
    /// How many scopes had been opened at entry, this one among them.
    pub opened: u64,
    pub failed: bool,
}

/// Whole microseconds between two instants.
pub open spec fn microseconds(from_ns: u64, to_ns: u64) -> u64 {
    to_ns.saturating_sub(from_ns) / 1000
}

impl Scope {
    /// This scope was opened at `now_ns` in `before`, which became `after`.
    pub open spec fn opens(self, before: Registry, after: Registry, now_ns: u64) -> bool {
        &&& self.started_ns == now_ns
        &&& self.peers == before.active
        &&& self.opened == after.opened
        &&& !self.failed
        &&& after.active == before.active.wrapping_add(1)
        &&& after.opened == before.opened.wrapping_add(1)
        &&& after.era == before.era
        &&& after.ops == before.ops
    }

    fn open(name: &'static str, registry: &mut Registry, now_ns: u64) -> (r: Scope)
        ensures
            r.name == name,
            r.mem0 is None,
            r.opens(*old(registry), *final(registry), now_ns),
    {
        let peers: usize = registry.active;
        registry.active = peers.wrapping_add(1);
        registry.opened = registry.opened.wrapping_add(1);
        Scope {
            name,
            started_ns: now_ns,
            mem0: None,
            peers,
            opened: registry.opened,
            failed: false,
        }
    }

    /// Time this operation. See [`Scope::with_memory`] to also attribute memory
    /// to it.
    pub fn new(name: &'static str, registry: &mut Registry, now_ns: u64) -> (r: Scope)
        ensures
            r.name == name,
            r.mem0 is None,
            r.opens(*old(registry), *final(registry), now_ns),
    {
        Scope::open(name, registry, now_ns)
    }

    /// Time this operation *and* attribute memory to it.
    ///
    /// `counters` are the process counters at entry; the caller reads them once
    /// more at the end. Worth it for operations big enough to move memory;
    /// wasteful for anything smaller.
    pub fn with_memory(
        name: &'static str,
        registry: &mut Registry,
        counters: (u64, u64, u64),
        now_ns: u64,
    ) -> (r: Scope)
        ensures
            r.name == name,
            r.mem0 == Some((counters.0, counters.1)),
            r.opens(*old(registry), *final(registry), now_ns),
    {
        let mut s = Scope::open(name, registry, now_ns);
        s.attribute(counters, now_ns);
        s
    }

    /// Start measuring here, memory included, in a scope that is open already:
    /// what it took to read `counters` is not part of the measurement.
    pub fn attribute(&mut self, counters: (u64, u64, u64), now_ns: u64)
        ensures
            *final(self) == (Scope {
                mem0: Some((counters.0, counters.1)),
                started_ns: now_ns,
                ..*old(self)
            }),
    {
        self.mem0 = Some((counters.0, counters.1));
        self.started_ns = now_ns;
    }

    /// Mark this run as failed. Counts toward the operation's error rate.
    pub fn fail(&mut self)
        ensures
            *final(self) == (Scope { failed: true, ..*old(self) }),
    {
        self.failed = true;
    }

    /// Record the outcome from a `Result` without unwrapping it.
    pub fn set_ok(&mut self, ok: bool)
        ensures
            *final(self) == (Scope { failed: !ok, ..*old(self) }),
    {
        self.failed = !ok;
    }

    /// Elapsed so far. Useful for logging a slow path before the scope ends.
    pub fn elapsed_us(&self, now_ns: u64) -> (r: u64)
        ensures
            r == microseconds(self.started_ns, now_ns),
            now_ns >= self.started_ns ==> r * 1000 <= now_ns - self.started_ns < r * 1000 + 1000,
    {
        now_ns.saturating_sub(self.started_ns) / 1000
    }

    /// Run a fallible operation inside the scope and record its outcome.
    pub fn run<T, E, F: FnOnce() -> Result<T, E>>(&mut self, f: F) -> (out: Result<T, E>)
        requires
            f.requires(()),
        ensures
            f.ensures((), out),
            *final(self) == (Scope { failed: out is Err, ..*old(self) }),
    {
        let out = f();
        self.set_ok(
            match &out {
                Ok(_) => true,
                Err(_) => false,
            },
        );
        out
    }

    /// The memory deltas fit their signed types.
    pub open spec fn measurable(&self, counters: (u64, u64, u64)) -> bool {
        self.mem0 matches Some(m) ==> triggers::comparable(m.0, counters.0) && triggers::comparable(
            m.1,
            counters.1,
        )
    }

    /// Whether the memory deltas can be measured.
    pub fn is_measurable(&self, counters: (u64, u64, u64)) -> (r: bool)
        ensures
            r == self.measurable(counters),
    {
        match self.mem0 {
            Some((rss, private)) => in_range(rss, counters.0) && in_range(private, counters.1),
            None => true,
        }
    }

    /// How many scopes shared the time of this one, itself among them: those
    /// that were open at entry, and those opened until `opened` was reached.
    pub open spec fn overlapping(&self, opened: u64) -> int {
        self.peers + opened.wrapping_sub(self.opened) + 1
    }

    /// What the counters moved by over the scope, which ends when `opened`
    /// scopes had been opened. The number of scopes that overlapped stops at the
    /// largest that can be reported.
    pub open spec fn memory_cost(&self, opened: u64, counters: (u64, u64, u64)) -> Option<
        ScopeMemory,
    > {
        match self.mem0 {
            Some(m) => Some(
                ScopeMemory {
                    d_rss: triggers::change(m.0, counters.0) as i64,
                    d_private: triggers::change(m.1, counters.1) as i64,
                    concurrent: (if self.overlapping(opened) <= u32::MAX {
                        self.overlapping(opened)
                    } else {
                        u32::MAX as int
                    }) as u32,
                },
            ),
            None => None,
        }
    }

    /// The run that this scope records when it ends.
    pub open spec fn as_run(&self, opened: u64, now_ns: u64, counters: (u64, u64, u64)) -> Run {
        Run {
            name: self.name@,
            us: microseconds(self.started_ns, now_ns),
            failed: self.failed,
            memory: self.memory_cost(opened, counters),
        }
    }

    fn concurrent(&self, opened: u64) -> (r: u32)
        ensures
            r == if self.overlapping(opened) <= u32::MAX {
                self.overlapping(opened)
            } else {
                u32::MAX as int
            },
    {
        let n: u128 = self.peers as u128 + opened.wrapping_sub(self.opened) as u128 + 1;
        if n <= u32::MAX as u128 {
            n as u32
        } else {
            u32::MAX
        }
    }

    /// End the scope and record it. `counters` are the process counters at the
    /// end; they are looked at only where the scope opted in.
    pub fn finish(self, registry: &mut Registry, now_ns: u64, counters: (u64, u64, u64))
        requires
            old(registry).wf(),
            old(registry).has_room(self.name@),
            self.measurable(counters),
        ensures
            final(registry).wf(),
            final(registry).active == old(registry).active.wrapping_sub(1),
            final(registry).opened == old(registry).opened,
            final(registry).era == old(registry).era,
            took(
                *old(registry),
                *final(registry),
                self.as_run(old(registry).opened, now_ns, counters),
            ),
    {
        registry.active = registry.active.wrapping_sub(1);
        let us: u64 = self.elapsed_us(now_ns);
        let memory: Option<ScopeMemory> = match self.mem0 {
            Some((rss0, priv0)) => {
                let (rss1, priv1, _) = counters;
                Some(
                    ScopeMemory {
                        d_rss: as_signed(rss1) - as_signed(rss0),
                        d_private: as_signed(priv1) - as_signed(priv0),
                        concurrent: self.concurrent(registry.opened),
                    },
                )
            },
            None => None,
        };
        let ghost run = self.as_run(registry.opened, now_ns, counters);
        let ghost was = registry.ops@;
        match find_named(&registry.ops, self.name) {
            Some(i) => {
                enter(&mut registry.ops, i, us, self.failed, memory);
                proof {
                    let now = registry.ops@;
                    assert(after_run(was[i as int], now[i as int], run));
                    assert(entered(was, now, i as int, run));
                    rows::lemma_update_named(was, i as int, now[i as int]);
                    assert(now =~= was.update(i as int, now[i as int]));
                    assert forall|runs: Seq<Run>| old(registry).tells(
                        runs,
                    ) implies #[trigger] registry.tells(runs.push(run)) by {
                        lemma_entered_tells(*old(registry), *registry, i as int, run, runs);
                    }
                }
            },
            None => {
                let fresh = Op {
                    name: self.name,
                    hist: Histogram::default(),
                    errors: 0,
                    last_memory: None,
                };
                let i: usize = registry.ops.len();
                registry.ops.push(fresh);
                let ghost mid = registry.ops@;
                enter(&mut registry.ops, i, us, self.failed, memory);
                proof {
                    let now = registry.ops@;
                    assert(after_run(mid[i as int], now[i as int], run));
                    assert(is_fresh(mid[i as int]));
                    rows::lemma_push_named(was, now[i as int]);
                    assert(now =~= was.push(now[i as int]));
                    assert(entered(was, now, i as int, run));
                    assert forall|runs: Seq<Run>| old(registry).tells(
                        runs,
                    ) implies #[trigger] registry.tells(runs.push(run)) by {
                        lemma_entered_tells(*old(registry), *registry, i as int, run, runs);
                    }
                }
            },
        }
    }
}

/// A histogram after one more value.
pub open spec fn recorded(before: Histogram, after: Histogram, v: u64) -> bool {
    &&& after.buckets@ == before.buckets@.update(
        hist::bucket(v as nat) as int,
        before.buckets@[hist::bucket(v as nat) as int].saturating_add(1),
    )
    &&& after.count == before.count + 1
    &&& after.sum == before.sum.saturating_add(v)
    &&& after.min == if v < before.min {
        v
    } else {
        before.min
    }
    &&& after.max == if v > before.max {
        v
    } else {
        before.max
    }
}

/// A row after one more run.
pub open spec fn after_run(before: Op, after: Op, run: Run) -> bool {
    &&& after.name == before.name
    &&& recorded(before.hist, after.hist, run.us)
    &&& forall|s: Seq<u64>|
        before.hist.records(s) ==> #[trigger] after.hist.records(s.push(run.us))
    &&& after.errors == before.errors + if run.failed {
        1int
    } else {
        0int
    }
    &&& after.last_memory == if run.memory is Some {
        run.memory
    } else {
        before.last_memory
    }
}

/// A row that nothing was recorded in yet.
pub open spec fn is_fresh(op: Op) -> bool {
    op.hist.records(Seq::empty()) && op.errors == 0 && op.last_memory is None
}

/// Row `i` took the run; it is a new row where the name had none, and every
/// other row is as it was.
pub open spec fn entered(was: Seq<Op>, now: Seq<Op>, i: int, run: Run) -> bool {
    &&& 0 <= i < now.len()
    &&& now[i].title() == run.name
    &&& forall|j: int| 0 <= j < was.len() && j != i ==> #[trigger] now[j] == was[j]
    &&& if i < was.len() {
        now.len() == was.len() && after_run(was[i], now[i], run)
    } else {
        &&& i == was.len()
        &&& now.len() == was.len() + 1
        &&& !rows::has_name(was, run.name)
        &&& exists|fresh: Op| #[trigger] is_fresh(fresh) && after_run(fresh, now[i], run)
    }
}

/// The registry took one more run: one row holds it, and what it tells of all
/// runs grows by it.
pub open spec fn took(before: Registry, after: Registry, run: Run) -> bool {
    &&& exists|i: int| #[trigger] entered(before.ops@, after.ops@, i, run)
    &&& forall|runs: Seq<Run>|
        before.tells(runs) ==> #[trigger] after.tells(runs.push(run))
}

fn enter(ops: &mut Vec<Op>, i: usize, us: u64, failed: bool, memory: Option<ScopeMemory>)
    requires
        i < old(ops)@.len(),
        old(ops)@[i as int].hist.count < u64::MAX,
        old(ops)@[i as int].errors <= old(ops)@[i as int].hist.count,
    ensures
        final(ops)@ == old(ops)@.update(i as int, final(ops)@[i as int]),
        forall|run: Run|
            run.us == us && run.failed == failed && run.memory == memory ==> #[trigger] after_run(
                old(ops)@[i as int],
                final(ops)@[i as int],
                run,
            ),
{
    let op: &mut Op = &mut ops[i];
    op.hist.record(us);
    if failed {
        op.errors = op.errors + 1;
    }
    if memory.is_some() {
        op.last_memory = memory;
    }
}

proof fn lemma_run_sums_up(before: Op, after: Op, run: Run, runs: Seq<Run>)
    requires
        before.sums_up(runs),
        before.title() == run.name,
        after_run(before, after, run),
    ensures
        after.sums_up(runs.push(run)),
{
    let all = runs.push(run);
    assert(all.drop_last() =~= runs);
    assert(samples(all, run.name) == samples(runs, run.name).push(run.us));
}

proof fn lemma_entered_tells(before: Registry, after: Registry, i: int, run: Run, runs: Seq<Run>)
    requires
        before.tells(runs),
        rows::distinct(after.ops@),
        entered(before.ops@, after.ops@, i, run),
        rows::distinct(before.ops@),
    ensures
        after.tells(runs.push(run)),
{
    let all = runs.push(run);
    let (was, now) = (before.ops@, after.ops@);
    assert(all.drop_last() =~= runs);
    assert forall|j: int| 0 <= j < now.len() implies (#[trigger] now[j]).sums_up(all) by {
        if j == i {
            if i < was.len() {
                lemma_run_sums_up(was[i], now[i], run, runs);
            } else {
                let fresh = choose|fresh: Op| #[trigger]
                    is_fresh(fresh) && after_run(fresh, now[i], run);
                assert(samples(runs, run.name).len() == 0);
                lemma_no_samples(runs, run.name);
                assert(samples(runs, run.name) =~= Seq::empty());
                assert(fresh.sums_up(runs));
                lemma_run_sums_up(fresh, now[i], run, runs);
            }
        } else {
            assert(now[j] == was[j]);
            if now[j].title() == run.name {
                if j < i {
                    assert(now[j].title() != now[i].title());
                } else {
                    assert(now[i].title() != now[j].title());
                }
            }
        }
    }
    assert forall|n: Seq<char>| #[trigger] rows::has_name(now, n) <==> samples(all, n).len()
        > 0 by {
        if n == run.name {
            assert(now[i].title() == n);
        } else {
            assert(rows::has_name(was, n) <==> samples(runs, n).len() > 0);
            if rows::has_name(was, n) {
                let k = rows::index_named(was, n);
                assert(was[k].title() == n);
                if k == i {
                    assert(now[k].title() == was[k].title());
                }
                assert(now[k].title() == n);
            }
            if rows::has_name(now, n) {
                let k = rows::index_named(now, n);
                assert(now[k].title() == n);
                assert(k != i);
                assert(was[k] == now[k]);
                assert(was[k].title() == n);
            }
        }
    }
}

proof fn lemma_no_samples(runs: Seq<Run>, name: Seq<char>)
    requires
        samples(runs, name).len() == 0,
    ensures
        failures(runs, name) == 0,
        latest_memory(runs, name) is None,
    decreases runs.len(),
{
    if runs.len() > 0 {
        assert(runs.last().name != name);
        lemma_no_samples(runs.drop_last(), name);
    }
}

/// Measure a fallible operation, recording success or failure automatically.
///
/// `clock` is read once before the operation and once after it. What it shows
/// is the caller's: stated is that the run lasted from one reading to another.
pub fn measure<T, E, C: Fn() -> u64, F: FnOnce() -> Result<T, E>>(
    name: &'static str,
    registry: &mut Registry,
    clock: C,
    f: F,
) -> (out: Result<T, E>)
    requires
        old(registry).wf(),
        old(registry).has_room(name@),
        clock.requires(()),
        f.requires(()),
    ensures
        f.ensures((), out),
        final(registry).wf(),
        final(registry).active == old(registry).active,
        final(registry).opened == old(registry).opened.wrapping_add(1),
        final(registry).era == old(registry).era,
        exists|t0: u64, t1: u64| #[trigger]
            timed(clock, t0, t1) && took(
                *old(registry),
                *final(registry),
                (Run {
                    name: name@,
                    us: microseconds(t0, t1),
                    failed: out is Err,
                    memory: None,
                }),
            ),
{
    let t0: u64 = clock();
    let mut s = Scope::new(name, registry, t0);
    let out = s.run(f);
    let t1: u64 = clock();
    s.finish(registry, t1, (0, 0, 0));
    assert(timed(clock, t0, t1));
    out
}

/// The clock showed these instants.
pub open spec fn timed<C: Fn() -> u64>(clock: C, t0: u64, t1: u64) -> bool {
    clock.ensures((), t0) && clock.ensures((), t1)
}

/// Counters carried between snapshots so each report can show what happened in
/// *this* interval, not only since boot.
#[derive(Debug, Clone, Copy, PartialEq, Eq, Structural)]
pub struct PrevOp {
    pub count: u64,
    pub errors: u64,
}

impl Default for PrevOp {
    fn default() -> (r: Self)
        ensures
            r == (PrevOp { count: 0, errors: 0 }),
    {
        PrevOp { count: 0, errors: 0 }
    }
}

/// The counters of one operation at the previous snapshot.
#[derive(Debug, Clone, Copy)]
pub struct PrevRow {
    pub name: &'static str,
    pub op: PrevOp,
    /// The era that they belong to.
    pub era: u64,
}

/// Counters, and the era that they belong to.
pub struct Mark {
    pub op: PrevOp,
    pub era: u64,
}

impl Named for PrevRow {
    open spec fn title(&self) -> Seq<char> {
        self.name@
    }

    fn is_called(&self, name: &str) -> bool {
        same(self.name, name)
    }
}

impl Row for PrevRow {
    type Value = Mark;

    open spec fn value(&self) -> Mark {
        Mark { op: self.op, era: self.era }
    }
}

/// The counters of each operation at the previous snapshot.
pub open spec fn baseline(rows: Seq<PrevRow>) -> Map<Seq<char>, Mark> {
    rows::table(rows)
}

/// The counters to compare an operation with. One that was not seen before
/// compares with zeros, and so does one that was forgotten since.
pub open spec fn was_of(m: Map<Seq<char>, Mark>, era: u64, name: Seq<char>) -> PrevOp {
    if m.dom().contains(name) && m[name].era == era {
        m[name].op
    } else {
        PrevOp { count: 0, errors: 0 }
    }
}

/// The value at a quantile of the recorded times.
pub open spec fn is_quantile(h: Histogram, q: Double, v: Option<u64>) -> bool {
    match v {
        Some(v) => h.count > 0 && hist::is_value_of_rank(
            h.buckets@,
            h.max,
            hist::rank_of(q, h.count),
            v,
        ),
        None => h.count == 0,
    }
}

/// Failures as a fraction of calls. A quiet operation has none: reporting 0.0
/// would make "nothing ran" indistinguishable from "everything succeeded".
pub open spec fn error_share(errors: u64, calls: u64) -> Option<Double> {
    if calls > 0 {
        Some(
            double::quotient(
                double::of_quotient(errors as nat, 1),
                double::of_quotient(calls as nat, 1),
            ),
        )
    } else {
        None
    }
}

/// `r` is the row of an operation that stood at `was` before the interval. Rates
/// need an interval: without one there is neither a frequency nor an error rate.
pub open spec fn is_row(op: Op, was: PrevOp, interval: Option<Double>, r: OpTiming) -> bool {
    let h = op.hist;
    &&& r.name == op.name
    &&& r.count == h.count
    &&& r.errors == op.errors
    &&& r.total_us == h.sum
    &&& r.min_us == if h.count > 0 {
        Some(h.min)
    } else {
        None
    }
    &&& r.mean_us == h.average()
    &&& is_quantile(h, double::of_quotient(50, 100), r.p50_us)
    &&& is_quantile(h, double::of_quotient(95, 100), r.p95_us)
    &&& is_quantile(h, double::of_quotient(99, 100), r.p99_us)
    &&& r.max_us == if h.count > 0 {
        Some(h.max)
    } else {
        None
    }
    &&& r.count_delta == h.count.saturating_sub(was.count)
    &&& r.errors_delta == op.errors.saturating_sub(was.errors)
    &&& r.per_sec == report::rate(r.count_delta, interval)
    &&& r.error_rate == if interval is Some {
        error_share(r.errors_delta, r.count_delta)
    } else {
        None
    }
    &&& r.last_memory == op.last_memory
}

fn row(op: &Op, was: PrevOp, interval_secs: Option<Double>) -> (r: OpTiming)
    ensures
        is_row(*op, was, interval_secs, r),
{
    let count: u64 = op.hist.count();
    let count_delta: u64 = count.saturating_sub(was.count);
    let errors_delta: u64 = op.errors.saturating_sub(was.errors);
    OpTiming {
        name: op.name,
        count,
        errors: op.errors,
        total_us: op.hist.sum(),
        min_us: op.hist.min(),
        mean_us: op.hist.mean(),
        p50_us: op.hist.quantile(Double::from_quotient(50, 100)),
        p95_us: op.hist.quantile(Double::from_quotient(95, 100)),
        p99_us: op.hist.quantile(Double::from_quotient(99, 100)),
        max_us: op.hist.max(),
        count_delta,
        errors_delta,
        per_sec: per_second(count_delta, interval_secs),
        error_rate: if interval_secs.is_some() && count_delta > 0 {
            Some(Double::from_u64(errors_delta).over(Double::from_u64(count_delta)))
        } else {
            None
        },
        last_memory: op.last_memory,
    }
}

/// The counters that a snapshot leaves behind: every operation stands where it
/// is now.
pub open spec fn standing(registry: Registry) -> Map<Seq<char>, Mark> {
    Map::new(
        |n: Seq<char>| rows::has_name(registry.ops@, n),
        |n: Seq<char>|
            {
                let op = registry.ops@[rows::index_named(registry.ops@, n)];
                Mark {
                    op: PrevOp { count: op.hist.count, errors: op.errors },
                    era: registry.era,
                }
            },
    )
}

/// `r` is what a snapshot shows: one row for each operation, heaviest total time
/// first.
pub open spec fn shows(
    registry: Registry,
    m: Map<Seq<char>, Mark>,
    interval: Option<Double>,
    r: Seq<OpTiming>,
) -> bool {
    exists|p: Seq<usize>| #[trigger] shows_in(registry, m, interval, r, p)
}

/// `r` is what a snapshot shows, the operations taken in the order of `p`.
pub open spec fn shows_in(
    registry: Registry,
    m: Map<Seq<char>, Mark>,
    interval: Option<Double>,
    r: Seq<OpTiming>,
    p: Seq<usize>,
) -> bool {
    let ops = registry.ops@;
    &&& rows::in_order(ops, p)
    &&& r.len() == ops.len()
    &&& forall|i: int|
        0 <= i < r.len() ==> is_row(
            ops[p[i] as int],
            was_of(m, registry.era, ops[p[i] as int].name@),
            interval,
            #[trigger] r[i],
        )
}

fn compare_with(prev: &Vec<PrevRow>, era: u64, name: &str) -> (r: PrevOp)
    requires
        rows::distinct(prev@),
    ensures
        r == was_of(baseline(prev@), era, name@),
{
    match find_named(prev, name) {
        Some(i) => {
            proof {
                rows::lemma_table_at(prev@, i as int);
            }
            if prev[i].era == era {
                prev[i].op
            } else {
                PrevOp { count: 0, errors: 0 }
            }
        },
        None => PrevOp { count: 0, errors: 0 },
    }
}

/// Where every operation stands now.
fn stand(registry: &Registry) -> (r: Vec<PrevRow>)
    requires
        registry.wf(),
    ensures
        rows::distinct(r@),
        baseline(r@) == standing(*registry),
{
    let ghost ops = registry.ops@;
    let mut r: Vec<PrevRow> = Vec::new();
    let mut k: usize = 0;
    while k < registry.ops.len()
        invariant
            k <= registry.ops@.len(),
            ops == registry.ops@,
            r@.len() == k,
            forall|j: int|
                0 <= j < k ==> #[trigger] r@[j] == (PrevRow {
                    name: ops[j].name,
                    op: PrevOp { count: ops[j].hist.count, errors: ops[j].errors },
                    era: registry.era,
                }),
        decreases registry.ops@.len() - k,
    {
        let op: &Op = &registry.ops[k];
        r.push(
            PrevRow {
                name: op.name,
                op: PrevOp { count: op.hist.count(), errors: op.errors },
                era: registry.era,
            },
        );
        k = k + 1;
    }
    proof {
        assert forall|i: int, j: int| 0 <= i < j < r@.len() implies #[trigger] r@[i].title()
            != #[trigger] r@[j].title() by {
            assert(ops[i].title() != ops[j].title());
        }
        assert forall|n: Seq<char>| #[trigger] rows::has_name(r@, n) == rows::has_name(ops, n) by {
            if rows::has_name(ops, n) {
                assert(r@[rows::index_named(ops, n)].title() == n);
            }
            if rows::has_name(r@, n) {
                assert(ops[rows::index_named(r@, n)].title() == n);
            }
        }
        assert forall|n: Seq<char>| #[trigger] rows::has_name(ops, n) implies rows::index_named(
            r@,
            n,
        ) == rows::index_named(ops, n) by {
            let i = rows::index_named(ops, n);
            assert(r@[i].title() == n);
            rows::lemma_index_named(r@, i);
        }
        assert(baseline(r@) =~= standing(*registry));
    }
    r
}

/// Aggregated timings, heaviest total time first.
///
/// `prev` holds the counts from the previous snapshot and is updated in place,
/// which is what turns lifetime counters into per-interval rates.
pub fn snapshot(
    registry: &Registry,
    prev: &mut Vec<PrevRow>,
    interval_secs: Option<Double>,
) -> (r: Vec<OpTiming>)
    requires
        registry.wf(),
        rows::distinct(old(prev)@),
    ensures
        rows::distinct(final(prev)@),
        shows(*registry, baseline(old(prev)@), interval_secs, r@),
        baseline(final(prev)@) == standing(*registry),
{
    let p: Vec<usize> = rows::order(&registry.ops);
    let ghost ops = registry.ops@;
    let ghost m = baseline(prev@);
    let mut r: Vec<OpTiming> = Vec::new();
    let mut i: usize = 0;
    while i < p.len()
        invariant
            i <= p@.len(),
            r@.len() == i,
            ops == registry.ops@,
            rows::distinct(prev@),
            baseline(prev@) == m,
            rows::in_order(ops, p@),
            forall|j: int|
                0 <= j < i ==> is_row(
                    ops[p@[j] as int],
                    was_of(m, registry.era, ops[p@[j] as int].name@),
                    interval_secs,
                    #[trigger] r@[j],
                ),
        decreases p@.len() - i,
    {
        let op: &Op = &registry.ops[p[i]];
        let was: PrevOp = compare_with(prev, registry.era, op.name);
        r.push(row(op, was, interval_secs));
        i = i + 1;
    }
    assert(shows_in(*registry, m, interval_secs, r@, p@));
    *prev = stand(registry);
    r
}

/// Forget every recorded operation. Mainly for tests and for a caller that
/// wants a clean window; snapshots already give per-interval numbers without it.
/// The next snapshot compares with nothing from before.
pub fn reset(registry: &mut Registry)
    ensures
        final(registry).wf(),
        final(registry).ops@.len() == 0,
        final(registry).active == old(registry).active,
        final(registry).opened == old(registry).opened,
        final(registry).era == old(registry).era.wrapping_add(1),
        final(registry).tells(Seq::empty()),
{
    registry.era = registry.era.wrapping_add(1);
    registry.ops.clear();
}

/// One row per operation, never one per call: the names in a snapshot are
/// distinct, each is the name of a row of the registry, and no row counts more
/// errors than calls.
pub proof fn one_row_per_name(
    registry: Registry,
    m: Map<Seq<char>, Mark>,
    interval: Option<Double>,
    r: Seq<OpTiming>,
)
    requires
        registry.wf(),
        shows(registry, m, interval, r),
    ensures
        r.len() == registry.ops@.len(),
        forall|i: int, j: int|
            0 <= i < j < r.len() ==> (#[trigger] r[i]).name@ != (#[trigger] r[j]).name@,
        forall|i: int| 0 <= i < r.len() ==> rows::has_name(registry.ops@, (#[trigger] r[i]).name@),
        forall|i: int| 0 <= i < r.len() ==> (#[trigger] r[i]).errors <= r[i].count,
        forall|i: int, j: int|
            0 <= i < j < r.len() ==> (#[trigger] r[i]).total_us >= (#[trigger] r[j]).total_us,
{
    let ops = registry.ops@;
    let p = choose|p: Seq<usize>| #[trigger] shows_in(registry, m, interval, r, p);
    assert forall|i: int, j: int| 0 <= i < j < r.len() implies (#[trigger] r[i]).name@ != (
    #[trigger] r[j]).name@ by {
        let (a, b) = (p[i] as int, p[j] as int);
        assert(a != b);
        assert(r[i].name == ops[a].name && r[j].name == ops[b].name);
        if a < b {
            assert(ops[a].title() != ops[b].title());
        } else {
            assert(ops[b].title() != ops[a].title());
        }
    }
    assert forall|i: int| 0 <= i < r.len() implies rows::has_name(
        registry.ops@,
        (#[trigger] r[i]).name@,
    ) && r[i].errors <= r[i].count by {
        let a = p[i] as int;
        assert(r[i].name == ops[a].name);
        assert(ops[a].title() == r[i].name@);
        assert(ops[a].errors <= ops[a].hist.count);
    }
    assert forall|i: int, j: int| 0 <= i < j < r.len() implies (#[trigger] r[i]).total_us >= (
    #[trigger] r[j]).total_us by {
        let (a, b) = (p[i], p[j]);
        assert(r[i].total_us == ops[a as int].hist.sum);
        assert(r[j].total_us == ops[b as int].hist.sum);
    }
}

proof fn lemma_runs_add(a: Seq<Run>, b: Seq<Run>, name: Seq<char>)
    ensures
        samples(a + b, name).len() == samples(a, name).len() + samples(b, name).len(),
        failures(a + b, name) == failures(a, name) + failures(b, name),
        failures(b, name) <= samples(b, name).len(),
    decreases b.len(),
{
    if b.len() == 0 {
        assert(a + b =~= a);
    } else {
        lemma_runs_add(a, b.drop_last(), name);
        assert((a + b).drop_last() =~= a + b.drop_last());
        assert((a + b).last() == b.last());
    }
}

/// Cumulative counters come with their interval: between two snapshots of one
/// registry, the deltas of a row count exactly the runs in between, and no more
/// of them failed than ran.
pub proof fn deltas_count_the_interval(
    before: Registry,
    after: Registry,
    earlier: Seq<Run>,
    since: Seq<Run>,
    op: Op,
    interval: Option<Double>,
    r: OpTiming,
)
    requires
        before.wf(),
        before.tells(earlier),
        after.tells(earlier + since),
        after.era == before.era,
        after.ops@.contains(op),
        is_row(op, was_of(standing(before), after.era, op.name@), interval, r),
    ensures
        r.count_delta == samples(since, op.name@).len(),
        r.errors_delta == failures(since, op.name@),
        r.errors_delta <= r.count_delta,
{
    let n = op.name@;
    let i = choose|i: int| 0 <= i < after.ops@.len() && after.ops@[i] == op;
    assert(after.ops@[i].sums_up(earlier + since));
    lemma_runs_add(earlier, since, n);
    if rows::has_name(before.ops@, n) {
        let k = rows::index_named(before.ops@, n);
        assert(before.ops@[k].title() == n);
        assert(before.ops@[k].sums_up(earlier));
    } else {
        assert(samples(earlier, n).len() == 0);
        lemma_no_samples(earlier, n);
    }
}

/// A reset starts a clean window: after one, the deltas of every row count all
/// the runs since, whatever the last snapshot had seen.
pub proof fn a_reset_starts_a_clean_window(
    before: Registry,
    after: Registry,
    interval: Option<Double>,
    r: Seq<OpTiming>,
)
    requires
        after.era == before.era.wrapping_add(1),
        shows(after, standing(before), interval, r),
    ensures
        forall|i: int|
            0 <= i < r.len() ==> (#[trigger] r[i]).count_delta == r[i].count && r[i].errors_delta
                == r[i].errors,
{
    let p = choose|p: Seq<usize>| #[trigger]
        shows_in(after, standing(before), interval, r, p);
    assert forall|i: int| 0 <= i < r.len() implies (#[trigger] r[i]).count_delta == r[i].count
        && r[i].errors_delta == r[i].errors by {
        let op = after.ops@[p[i] as int];
        assert(is_row(op, was_of(standing(before), after.era, op.name@), interval, r[i]));
    }
}

/// A quiet operation has no error rate, and one that ran has a rate between zero
/// and one.
pub proof fn error_rate_is_a_fraction(errors: u64, calls: u64)
    requires
        errors <= calls,
    ensures
        error_share(errors, calls) is None <==> calls == 0,
        error_share(errors, calls) matches Some(x) ==> !x.is_nan() && 0 <= x.rank()
            <= double::of_quotient(1, 1).rank(),
{
    if calls > 0 {
        double::lemma_integers_are_ordered(errors, calls);
        double::lemma_share(
            double::of_quotient(errors as nat, 1),
            double::of_quotient(calls as nat, 1),
        );
    }
}

/// The percentiles of a row are ordered, and all lie between the exact minimum
/// and the exact maximum.
pub proof fn percentiles_climb(
    op: Op,
    s: Seq<u64>,
    was: PrevOp,
    interval: Option<Double>,
    r: OpTiming,
)
    requires
        op.hist.records(s),
        s.len() > 0,
        is_row(op, was, interval, r),
    ensures
        r.p50_us is Some && r.p95_us is Some && r.p99_us is Some,
        r.min_us is Some && r.max_us is Some,
        r.min_us->0 <= r.p50_us->0 <= r.p95_us->0 <= r.p99_us->0 <= r.max_us->0,
{
    let h = op.hist;
    let (a, b, c) = (
        double::of_quotient(50, 100),
        double::of_quotient(95, 100),
        double::of_quotient(99, 100),
    );
    double::lemma_quotients_are_ordered(50, 95, 100);
    double::lemma_quotients_are_ordered(95, 99, 100);
    hist::rank_grows_with_quantile(a, b, h.count);
    hist::percentile_is_not_below_the_minimum(h, s, hist::rank_of(a, h.count), r.p50_us->0);
    hist::rank_grows_with_quantile(b, c, h.count);
    hist::percentiles_are_ordered(
        h,
        s,
        hist::rank_of(a, h.count),
        hist::rank_of(b, h.count),
        r.p50_us->0,
        r.p95_us->0,
    );
    hist::percentiles_are_ordered(
        h,
        s,
        hist::rank_of(b, h.count),
        hist::rank_of(c, h.count),
        r.p95_us->0,
        r.p99_us->0,
    );
}

/// A percentile in hundredths, of few enough calls that rounding cannot show: at
/// least that many of a hundred calls finished within it, and it is at most a
/// sixteenth above the time of a call that no more than that many were faster
/// than.
pub open spec fn names_its_calls(s: Seq<u64>, hundredths: nat, p: Option<u64>) -> bool {
    p matches Some(p) && {
        &&& hist::at_most(s, p as int) * 100 >= hundredths * s.len()
        &&& exists|v: u64| #[trigger]
            s.contains(v) && v <= p <= v + v / 16 && hist::at_most(s, v - 1) * 100 <= hundredths
                * s.len() && hist::at_most(s, v as int) * 100 >= hundredths * s.len()
    }
}

/// The percentiles of a row name the calls that they are of.
pub proof fn percentiles_name_their_calls(
    op: Op,
    s: Seq<u64>,
    was: PrevOp,
    interval: Option<Double>,
    r: OpTiming,
)
    requires
        op.hist.records(s),
        0 < s.len() < 0x1000_0000_0000,
        forall|j: nat| #[trigger] hist::landed(s, j) <= u32::MAX,
        is_row(op, was, interval, r),
    ensures
        names_its_calls(s, 50, r.p50_us),
        names_its_calls(s, 95, r.p95_us),
        names_its_calls(s, 99, r.p99_us),
{
    lemma_names_its_calls(op.hist, s, 50, r.p50_us->0);
    lemma_names_its_calls(op.hist, s, 95, r.p95_us->0);
    lemma_names_its_calls(op.hist, s, 99, r.p99_us->0);
}

proof fn lemma_names_its_calls(h: Histogram, s: Seq<u64>, pct: u64, p: u64)
    requires
        h.records(s),
        0 < s.len() < 0x1000_0000_0000,
        forall|j: nat| #[trigger] hist::landed(s, j) <= u32::MAX,
        0 < pct < 100,
        hist::is_value_of_rank(
            h.buckets@,
            h.max,
            hist::rank_of(double::of_quotient(pct as nat, 100), h.count),
            p,
        ),
    ensures
        names_its_calls(s, pct as nat, Some(p)),
{
    let q = double::of_quotient(pct as nat, 100);
    let m: int = 0x20_0000_0000_0000;
    let u = accuracy::one() as int;
    let n = s.len();
    accuracy::lemma_scale();
    accuracy::lemma_fraction_near(pct, 100);
    let x = q.units();
    let pu = pct * u;
    accuracy::lemma_two_sided(x * 100, pu, m, 1);
    assert(x <= u) by (nonlinear_arith)
        requires
            x * 100 * m <= pu * (m + 1),
            pu == pct * u,
            pct < 100,
            m == 0x20_0000_0000_0000,
            u > 0,
    ;
    let v = hist::a_percentile_covers_its_part(h, s, q, p);
    let (a, b, c) = (
        hist::at_most(s, p as int),
        hist::at_most(s, v as int),
        hist::at_most(s, v - 1),
    );
    lemma_enough(a as int, n as int, pct as int, x, u, m);
    lemma_enough(b as int, n as int, pct as int, x, u, m);
    if c > 0 {
        lemma_not_too_many(c as int, n as int, pct as int, x, u, m);
    }
}

proof fn lemma_enough(a: int, n: int, pct: int, x: int, u: int, m: int)
    requires
        x * n * (m - 1) <= a * u * m,
        pct * u * (m - 1) <= x * 100 * m,
        0 < n < 0x1000_0000_0000,
        0 < pct < 100,
        u > 0,
        m == 0x20_0000_0000_0000,
    ensures
        a * 100 >= pct * n,
{
    let pn = pct * n;
    assert(pn * u * (m - 1) * (m - 1) <= x * 100 * m * n * (m - 1)) by (nonlinear_arith)
        requires
            pct * u * (m - 1) <= x * 100 * m,
            pn == pct * n,
            n > 0,
            m > 1,
    ;
    assert(x * 100 * m * n * (m - 1) <= 100 * m * (a * u * m)) by (nonlinear_arith)
        requires
            x * n * (m - 1) <= a * u * m,
            m > 0,
    ;
    let h = a * 100;
    assert(pn * (m - 1) * (m - 1) <= h * m * m) by (nonlinear_arith)
        requires
            pn * u * (m - 1) * (m - 1) <= 100 * m * (a * u * m),
            h == a * 100,
            u > 0,
    ;
    assert(pn < 0x1000_0000_0000 * 100 && pn > 0) by (nonlinear_arith)
        requires
            pn == pct * n,
            0 < n < 0x1000_0000_0000,
            0 < pct < 100,
    ;
    assert(h >= pn) by (nonlinear_arith)
        requires
            pn * (m - 1) * (m - 1) <= h * m * m,
            0 < pn < 0x1000_0000_0000 * 100,
            m == 0x20_0000_0000_0000,
    ;
}

proof fn lemma_not_too_many(c: int, n: int, pct: int, x: int, u: int, m: int)
    requires
        c * u * m < x * n * (m + 1),
        x * 100 * m <= pct * u * (m + 1),
        0 < n < 0x1000_0000_0000,
        0 < pct < 100,
        u > 0,
        m == 0x20_0000_0000_0000,
    ensures
        c * 100 <= pct * n,
{
    let pn = pct * n;
    assert(100 * m * (c * u * m) <= x * 100 * m * n * (m + 1)) by (nonlinear_arith)
        requires
            c * u * m < x * n * (m + 1),
            m > 0,
    ;
    assert(x * 100 * m * n * (m + 1) <= pn * u * (m + 1) * (m + 1)) by (nonlinear_arith)
        requires
            x * 100 * m <= pct * u * (m + 1),
            pn == pct * n,
            n > 0,
            m > 1,
    ;
    let h = c * 100;
    assert(h * m * m <= pn * (m + 1) * (m + 1)) by (nonlinear_arith)
        requires
            100 * m * (c * u * m) <= pn * u * (m + 1) * (m + 1),
            h == c * 100,
            u > 0,
    ;
    assert(pn < 0x1000_0000_0000 * 100 && pn > 0) by (nonlinear_arith)
        requires
            pn == pct * n,
            0 < n < 0x1000_0000_0000,
            0 < pct < 100,
    ;
    assert(h <= pn) by (nonlinear_arith)
        requires
            h * m * m <= pn * (m + 1) * (m + 1),
            0 < pn < 0x1000_0000_0000 * 100,
            m == 0x20_0000_0000_0000,
    ;
}

/// A row tells of its calls: how many there were, how long the fastest, the
/// slowest and all of them took, and the mean of that.
pub proof fn a_row_tells_of_its_calls(
    op: Op,
    s: Seq<u64>,
    was: PrevOp,
    interval: Option<Double>,
    r: OpTiming,
)
    requires
        op.hist.records(s),
        is_row(op, was, interval, r),
    ensures
        r.count == s.len(),
        rows::total(s) <= u64::MAX ==> r.total_us == rows::total(s),
        s.len() == 0 ==> r.min_us is None && r.max_us is None && r.mean_us is None && r.p50_us
            is None && r.p95_us is None && r.p99_us is None,
        s.len() > 0 ==> {
            &&& r.min_us matches Some(x) && s.contains(x)
            &&& r.max_us matches Some(x) && s.contains(x)
            &&& forall|i: int| 0 <= i < s.len() ==> r.min_us->0 <= #[trigger] s[i] <= r.max_us->0
            &&& rows::total(s) <= u64::MAX ==> (r.mean_us matches Some(x) && accuracy::near(
                x,
                rows::total(s) as int,
                s.len() as int,
                4,
            ))
        },
{
    if s.len() > 0 && rows::total(s) <= u64::MAX {
        hist::the_mean_is_the_sum_over_the_count(op.hist, s);
    }
}

/// What a row says of the interval: the calls and the failures since the last
/// snapshot, the calls spread over the interval, and the failures as a fraction
/// of the calls, up to four parts in `2^53`. Nothing is rated without an
/// interval, and no failures without a call.
pub proof fn a_row_tells_of_its_interval(
    op: Op,
    was: PrevOp,
    interval: Option<Double>,
    r: OpTiming,
)
    requires
        is_row(op, was, interval, r),
    ensures
        r.name == op.name,
        r.errors == op.errors,
        r.last_memory == op.last_memory,
        was.count <= r.count ==> was.count + r.count_delta == r.count,
        was.errors <= r.errors ==> was.errors + r.errors_delta == r.errors,
        report::spreads(r.per_sec, r.count_delta, interval),
        r.error_rate is Some <==> interval is Some && r.count_delta > 0,
        r.error_rate matches Some(x) ==> accuracy::near(
            x,
            r.errors_delta as int,
            r.count_delta as int,
            4,
        ),
{
    report::a_rate_spreads_its_count(r.count_delta, interval);
    if r.count_delta > 0 {
        accuracy::lemma_integers_divide_near(r.errors_delta, r.count_delta);
    }
}

/// Memory is attributed to a run exactly when its scope opted in, and a run
/// measured itself alone exactly when no other scope was open at entry and none
/// was opened until its end.
pub proof fn memory_is_opt_in(s: Scope, opened: u64, now_ns: u64, counters: (u64, u64, u64))
    requires
        s.opened <= opened,
    ensures
        s.as_run(opened, now_ns, counters).memory is Some <==> s.mem0 is Some,
        s.as_run(opened, now_ns, counters).memory matches Some(m) ==> (m.concurrent == 1
            <==> s.peers == 0 && s.opened == opened),
{
}

/// Overlap is mutual: where one scope is opened while another is open, neither
/// measured itself alone.
///
/// `outer` is opened between `r0` and `r1`, `inner` between `r2` and `r3`;
/// `outer_end` and `inner_end` are the registry when each of them ends.
pub proof fn overlap_is_mutual(
    outer: Scope,
    inner: Scope,
    t0: u64,
    t1: u64,
    r0: Registry,
    r1: Registry,
    r2: Registry,
    r3: Registry,
    outer_end: Registry,
    inner_end: Registry,
    counters: (u64, u64, u64),
)
    requires
        outer.opens(r0, r1, t0),
        inner.opens(r2, r3, t1),
        r2.active > 0,
        r1.opened <= r2.opened < r3.opened,
        r3.opened <= outer_end.opened,
        r3.opened <= inner_end.opened,
    ensures
        outer.memory_cost(outer_end.opened, counters) matches Some(m) ==> m.concurrent > 1,
        inner.memory_cost(inner_end.opened, counters) matches Some(m) ==> m.concurrent > 1,
{
}

/// The samples of an operation are the times of its runs, and its failures the
/// runs of it that failed, every one of them.
pub proof fn every_run_is_counted(runs: Seq<Run>, name: Seq<char>)
    ensures
        samples(runs, name) == runs.filter(|r: Run| r.name == name).map_values(|r: Run| r.us),
        failures(runs, name) == runs.filter(|r: Run| r.name == name && r.failed).len(),
    decreases runs.len(),
{
    reveal(Seq::filter);
    if runs.len() > 0 {
        every_run_is_counted(runs.drop_last(), name);
        let a = runs.drop_last().filter(|r: Run| r.name == name);
        let b = runs.filter(|r: Run| r.name == name);
        if runs.last().name == name {
            assert(b == a.push(runs.last()));
            assert(b.map_values(|r: Run| r.us) =~= a.map_values(|r: Run| r.us).push(
                runs.last().us,
            ));
        }
    } else {
        assert(samples(runs, name) =~= runs.filter(|r: Run| r.name == name).map_values(
            |r: Run| r.us,
        ));
    }
}

/// The memory cost of an operation is that of its latest run that measured it.
pub proof fn the_latest_measurement_counts(runs: Seq<Run>, name: Seq<char>)
    ensures
        latest_memory(runs, name) is None ==> forall|i: int|
            0 <= i < runs.len() && (#[trigger] runs[i]).name == name ==> runs[i].memory is None,
        latest_memory(runs, name) is Some ==> exists|i: int|
            0 <= i < runs.len() && (#[trigger] runs[i]).name == name && runs[i].memory
                == latest_memory(runs, name) && forall|j: int|
                i < j < runs.len() && (#[trigger] runs[j]).name == name ==> runs[j].memory is None,
    decreases runs.len(),
{
    if runs.len() > 0 {
        let t = runs.drop_last();
        let k = runs.len() - 1;
        the_latest_measurement_counts(t, name);
        assert(runs[k] == runs.last());
        if runs.last().name == name && runs.last().memory is Some {
        } else if latest_memory(t, name) is Some {
            let i = choose|i: int|
                0 <= i < t.len() && (#[trigger] t[i]).name == name && t[i].memory == latest_memory(
                    t,
                    name,
                ) && forall|j: int|
                    i < j < t.len() && (#[trigger] t[j]).name == name ==> t[j].memory is None;
            assert(runs[i] == t[i]);
            assert forall|j: int| i < j < runs.len() && (#[trigger] runs[j]).name == name implies
                runs[j].memory is None by {
                if j < k {
                    assert(t[j] == runs[j]);
                }
            }
        } else {
            assert forall|i: int| 0 <= i < runs.len() && (#[trigger] runs[i]).name == name implies
                runs[i].memory is None by {
                if i < k {
                    assert(t[i] == runs[i]);
                }
            }
        }
    }
}

/// A run lasted as long as its scope was open, in whole microseconds, failed where
/// the scope was marked so, and cost what the counters moved by, with the sign of
/// the change. It overlapped the scopes that were open at its entry and those opened
/// until its end.
pub proof fn a_run_is_what_its_scope_saw(
    s: Scope,
    opened: u64,
    now_ns: u64,
    counters: (u64, u64, u64),
)
    ensures
        ({
            let r = s.as_run(opened, now_ns, counters);
            &&& r.name == s.name@
            &&& r.failed == s.failed
            &&& now_ns >= s.started_ns ==> r.us * 1000 <= now_ns - s.started_ns < r.us * 1000 + 1000
            &&& now_ns < s.started_ns ==> r.us == 0
            &&& s.mem0 matches Some((rss, private)) ==> (rss <= i64::MAX && private <= i64::MAX
                && counters.0 <= i64::MAX && counters.1 <= i64::MAX ==> (r.memory matches Some(m)
                && m.d_rss == counters.0 - rss && m.d_private == counters.1 - private))
            &&& r.memory matches Some(m) ==> (s.opened <= opened && s.peers + (opened - s.opened)
                + 1 <= u32::MAX ==> m.concurrent == s.peers + (opened - s.opened) + 1)
        }),
{
}

/// A registry tells of all runs: one row for each operation that ran, with the
/// times of its runs and the number of those that failed, and one run more once it
/// took one.
pub proof fn a_registry_tells_of_all_runs(reg: Registry, runs: Seq<Run>, i: int)
    requires
        reg.tells(runs),
        0 <= i < reg.ops@.len(),
    ensures
        reg.ops@[i].hist.records(
            runs.filter(|r: Run| r.name == reg.ops@[i].name@).map_values(|r: Run| r.us),
        ),
        reg.ops@[i].errors == runs.filter(|r: Run| r.name == reg.ops@[i].name@ && r.failed).len(),
        runs.filter(|r: Run| r.name == reg.ops@[i].name@).len() > 0,
{
    let n = reg.ops@[i].name@;
    assert(reg.ops@[i].sums_up(runs));
    every_run_is_counted(runs, n);
    assert(reg.ops@[i].title() == n);
    assert(rows::has_name(reg.ops@, n));
    assert(samples(runs, n).len() == runs.filter(|r: Run| r.name == n).len());
}

/// A run that was taken is told of.
pub proof fn a_run_that_was_taken_is_told_of(
    before: Registry,
    after: Registry,
    run: Run,
    runs: Seq<Run>,
)
    requires
        took(before, after, run),
        before.tells(runs),
    ensures
        after.tells(runs.push(run)),
        rows::has_name(after.ops@, run.name),
{
    let i = choose|i: int| #[trigger] entered(before.ops@, after.ops@, i, run);
    assert(after.ops@[i].title() == run.name);
}

} // verus!
