//! Error counters. RAM only: counts plus the last message. Nothing is written
//! anywhere; the counts die with the process.

use crate::float::double::Double;
use crate::report;
use crate::report::{per_second, ErrorSummary};
use crate::rows;
use crate::rows::{find_named, Named, Ranked, Row};
use crate::text;
use crate::text::{comes_before, same};
use vstd::prelude::*;
use vstd::string::StringExecFns;

verus! {

/// How often one kind of error occurred.
#[derive(Debug, Clone)]
pub struct Kind {
    pub name: String,
    pub count: u64,
}

impl Named for Kind {
    open spec fn title(&self) -> Seq<char> {
        self.name@
    }

    fn is_called(&self, name: &str) -> bool {
        same(self.name.as_str(), name)
    }
}

impl Row for Kind {
    type Value = u64;

    open spec fn value(&self) -> u64 {
        self.count
    }
}

/// Most frequent first, ties broken by name so the order is stable between
/// snapshots.
impl Ranked for Kind {
    open spec fn ahead(&self, other: &Self) -> bool {
        self.count > other.count || (self.count == other.count && text::before(
            self.name@,
            other.name@,
        ))
    }

    proof fn asymmetric(a: &Self, b: &Self) {
        text::lemma_before_asymmetric(a.name@, b.name@);
    }

    proof fn layered(a: &Self, b: &Self, c: &Self) {
        if a.count == b.count && b.count == c.count {
            text::lemma_before_total(b.name@, c.name@);
            if b.name@ != c.name@ {
                text::lemma_before_transitive(a.name@, b.name@, c.name@);
            }
        }
    }

    fn is_ahead(&self, other: &Self) -> bool {
        self.count > other.count || (self.count == other.count && comes_before(
            self.name.as_str(),
            other.name.as_str(),
        ))
    }
}

/// Every error that was noted, counted.
#[derive(Debug, Clone)]
pub struct ErrorLog {
    pub total: u64,
    pub kinds: Vec<Kind>,
    pub last: Option<String>,
}

/// How often a kind occurs.
pub open spec fn occurrences(history: Seq<Seq<char>>, kind: Seq<char>) -> nat
    decreases history.len(),
{
    if history.len() == 0 {
        0
    } else {
        occurrences(history.drop_last(), kind) + if history.last() == kind {
            1nat
        } else {
            0nat
        }
    }
}

/// How many errors the kinds count together.
pub open spec fn tally(kinds: Seq<Kind>) -> nat {
    rows::total(kinds.map_values(|k: Kind| k.count))
}

impl ErrorLog {
    pub open spec fn wf(&self) -> bool {
        rows::distinct(self.kinds@)
    }

    /// How often each kind occurred.
    pub open spec fn counts(&self) -> Map<Seq<char>, u64> {
        rows::table(self.kinds@)
    }

    /// How often a kind occurred, zero for one that never did.
    pub open spec fn count_of(&self, kind: Seq<char>) -> u64 {
        if self.counts().dom().contains(kind) {
            self.counts()[kind]
        } else {
            0
        }
    }

    /// The counts of the kinds add up to the total.
    pub open spec fn balanced(&self) -> bool {
        self.total == tally(self.kinds@)
    }

    /// The log is what noting errors of these kinds, in this order, leaves
    /// behind.
    pub open spec fn follows(&self, history: Seq<Seq<char>>) -> bool {
        &&& self.total == history.len() % 0x1_0000_0000_0000_0000
        &&& forall|k: Seq<char>| #[trigger] self.count_of(k) == occurrences(history, k)
    }
}

impl Default for ErrorLog {
    fn default() -> (r: Self)
        ensures
            r.wf(),
            r.total == 0,
            r.counts() == Map::<Seq<char>, u64>::empty(),
            r.last is None,
            r.follows(Seq::empty()),
            r.balanced(),
    {
        let r = ErrorLog { total: 0, kinds: Vec::new(), last: None };
        assert(r.counts() =~= Map::<Seq<char>, u64>::empty());
        r
    }
}

impl ErrorLog {
    /// Whether one more error of this kind can be counted.
    pub fn admits(&self, kind: &str) -> (r: bool)
        requires
            self.wf(),
        ensures
            r == (self.count_of(kind@) < u64::MAX),
    {
        match find_named(&self.kinds, kind) {
            Some(i) => self.kinds[i].count < u64::MAX,
            None => true,
        }
    }
}

fn raise(kinds: &mut Vec<Kind>, kind: &str)
    requires
        rows::distinct(old(kinds)@),
        rows::table(old(kinds)@).dom().contains(kind@) ==> rows::table(old(kinds)@)[kind@]
            < u64::MAX,
    ensures
        rows::distinct(final(kinds)@),
        rows::table(final(kinds)@) == rows::table(old(kinds)@).insert(
            kind@,
            (if rows::table(old(kinds)@).dom().contains(kind@) {
                rows::table(old(kinds)@)[kind@] + 1
            } else {
                1
            }) as u64,
        ),
        tally(final(kinds)@) == tally(old(kinds)@) + 1,
{
    let ghost was = kinds@;
    let ghost counts = was.map_values(|k: Kind| k.count);
    match find_named(kinds, kind) {
        Some(i) => {
            proof {
                rows::lemma_table_at(was, i as int);
            }
            let row = Kind { name: kind.to_owned(), count: kinds[i].count + 1 };
            proof {
                rows::lemma_table_update(was, i as int, row);
            }
            kinds.set(i, row);
            proof {
                let now = kinds@.map_values(|k: Kind| k.count);
                rows::lemma_total_remove(counts, i as int);
                rows::lemma_total_remove(now, i as int);
                assert(now.remove(i as int) =~= counts.remove(i as int));
            }
        },
        None => {
            let row = Kind { name: kind.to_owned(), count: 1 };
            proof {
                rows::lemma_table_push(was, row);
            }
            kinds.push(row);
            proof {
                let now = kinds@.map_values(|k: Kind| k.count);
                assert(now.drop_last() =~= counts);
            }
        },
    }
}

/// Count one error. `kind` groups it ("db", "io", ...), `msg` becomes `last`.
pub fn note(log: &mut ErrorLog, kind: &str, msg: &str)
    requires
        old(log).wf(),
        old(log).count_of(kind@) < u64::MAX,
    ensures
        final(log).wf(),
        final(log).total == old(log).total.wrapping_add(1),
        final(log).counts() == old(log).counts().insert(
            kind@,
            (old(log).count_of(kind@) + 1) as u64,
        ),
        report::maybe_text(final(log).last) == Some(kind@ + ": "@ + msg@),
        forall|h: Seq<Seq<char>>|
            old(log).follows(h) ==> #[trigger] final(log).follows(h.push(kind@)),
        old(log).balanced() && old(log).total < u64::MAX ==> final(log).balanced(),
{
    log.total = log.total.wrapping_add(1);
    raise(&mut log.kinds, kind);
    let mut line: String = kind.to_owned();
    line.append(": ");
    line.append(msg);
    log.last = Some(line);
    proof {
        assert(log.counts() =~= old(log).counts().insert(
            kind@,
            (old(log).count_of(kind@) + 1) as u64,
        ));
        assert forall|h: Seq<Seq<char>>| old(log).follows(h) implies #[trigger] log.follows(
            h.push(kind@),
        ) by {
            let g = h.push(kind@);
            assert(g.drop_last() =~= h);
            assert forall|k: Seq<char>| #[trigger] log.count_of(k) == occurrences(g, k) by {
                assert(old(log).count_of(k) == occurrences(h, k));
            }
        }
    }
}

/// What is wrong is listed most frequent first, ties by name.
pub open spec fn lists(kinds: Seq<Kind>, r: Seq<(String, u64)>) -> bool {
    exists|p: Seq<usize>| #[trigger]
        rows::in_order(kinds, p) && r.len() == kinds.len() && forall|i: int|
            0 <= i < r.len() ==> #[trigger] r[i] == (
                kinds[p[i] as int].name,
                kinds[p[i] as int].count,
            )
}

/// `r` is what the log says of the interval since its total stood at `prev`.
pub open spec fn summarises(
    log: ErrorLog,
    prev: u64,
    interval: Option<Double>,
    r: ErrorSummary,
) -> bool {
    &&& r.total == log.total
    &&& r.delta == log.total.saturating_sub(prev)
    &&& r.per_sec == report::rate(r.delta, interval)
    &&& lists(log.kinds@, r.per_kind@)
    &&& r.last == log.last
}

/// `prev` is the total at the previous snapshot; it is updated in place so the
/// summary can report what happened in *this* interval, not only since boot.
pub fn summary(log: &ErrorLog, prev: &mut u64, interval_secs: Option<Double>) -> (r: ErrorSummary)
    ensures
        summarises(*log, *old(prev), interval_secs, r),
        *final(prev) == log.total,
{
    let p: Vec<usize> = rows::order(&log.kinds);
    let mut per_kind: Vec<(String, u64)> = Vec::new();
    let mut i: usize = 0;
    while i < p.len()
        invariant
            i <= p@.len(),
            per_kind@.len() == i,
            rows::in_order(log.kinds@, p@),
            forall|j: int|
                0 <= j < i ==> #[trigger] per_kind@[j] == (
                    log.kinds@[p@[j] as int].name,
                    log.kinds@[p@[j] as int].count,
                ),
        decreases p@.len() - i,
    {
        let k: &Kind = &log.kinds[p[i]];
        per_kind.push((k.name.clone(), k.count));
        i = i + 1;
    }
    let total: u64 = log.total;
    let delta: u64 = total.saturating_sub(*prev);
    *prev = total;
    ErrorSummary {
        total,
        delta,
        per_sec: per_second(delta, interval_secs),
        per_kind,
        last: log.last.clone(),
    }
}

/// Each delta is the growth since the previous summary, so consecutive deltas
/// sum back to the total, and a quiet interval reports zero.
pub proof fn deltas_sum_to_the_total(
    first: ErrorLog,
    second: ErrorLog,
    start: u64,
    i1: Option<Double>,
    i2: Option<Double>,
    r1: ErrorSummary,
    r2: ErrorSummary,
)
    requires
        start <= first.total <= second.total,
        summarises(first, start, i1, r1),
        summarises(second, first.total, i2, r2),
    ensures
        r1.delta + r2.delta == second.total - start,
        second.total == first.total ==> r2.delta == 0,
{
}

/// The errors of an interval are spread over it.
pub proof fn errors_are_spread_over_the_interval(
    log: ErrorLog,
    prev: u64,
    interval: Option<Double>,
    r: ErrorSummary,
)
    requires
        summarises(log, prev, interval, r),
    ensures
        report::spreads(r.per_sec, r.delta, interval),
{
    report::a_rate_spreads_its_count(r.delta, interval);
}

/// The counts of a summary.
pub open spec fn listed_counts(r: Seq<(String, u64)>) -> Seq<u64> {
    r.map_values(|x: (String, u64)| x.1)
}

/// Nothing is lost between the kinds: what a summary lists per kind adds up to
/// its total.
pub proof fn kinds_add_up_to_the_total(
    log: ErrorLog,
    prev: u64,
    interval: Option<Double>,
    r: ErrorSummary,
)
    requires
        log.balanced(),
        summarises(log, prev, interval, r),
    ensures
        rows::total(listed_counts(r.per_kind@)) == r.total,
{
    let kinds = log.kinds@;
    let p = choose|p: Seq<usize>| #[trigger]
        rows::in_order(kinds, p) && r.per_kind@.len() == kinds.len() && forall|i: int|
            0 <= i < r.per_kind@.len() ==> #[trigger] r.per_kind@[i] == (
                kinds[p[i] as int].name,
                kinds[p[i] as int].count,
            );
    let s = kinds.map_values(|k: Kind| k.count);
    let t = listed_counts(r.per_kind@);
    assert forall|i: int| 0 <= i < t.len() implies #[trigger] t[i] == s[p[i] as int] by {
        assert(r.per_kind@[i].1 == kinds[p[i] as int].count);
    }
    rows::lemma_total_permuted(s, p, t);
}

/// The more frequent kind comes first, and kinds that are as frequent come in
/// the order of their names.
pub proof fn frequent_kinds_come_first(kinds: Seq<Kind>, r: Seq<(String, u64)>)
    requires
        rows::distinct(kinds),
        lists(kinds, r),
    ensures
        forall|i: int, j: int|
            0 <= i < j < r.len() ==> (#[trigger] r[i]).1 > (#[trigger] r[j]).1 || (r[i].1 == r[j].1
                && text::before(r[i].0@, r[j].0@)),
{
    let p = choose|p: Seq<usize>| #[trigger]
        rows::in_order(kinds, p) && r.len() == kinds.len() && forall|i: int|
            0 <= i < r.len() ==> #[trigger] r[i] == (
                kinds[p[i] as int].name,
                kinds[p[i] as int].count,
            );
    assert forall|i: int, j: int| 0 <= i < j < r.len() implies (#[trigger] r[i]).1 > (
    #[trigger] r[j]).1 || (r[i].1 == r[j].1 && text::before(r[i].0@, r[j].0@)) by {
        let (a, b) = (kinds[p[i] as int], kinds[p[j] as int]);
        assert(p[i] != p[j]);
        assert(a.title() != b.title());
        text::lemma_before_total(a.name@, b.name@);
    }
}

/// How often a kind occurs is how many of the noted errors are of it.
pub proof fn every_occurrence_counts(history: Seq<Seq<char>>, kind: Seq<char>)
    ensures
        occurrences(history, kind) == history.filter(|k: Seq<char>| k == kind).len(),
    decreases history.len(),
{
    reveal(Seq::filter);
    if history.len() > 0 {
        every_occurrence_counts(history.drop_last(), kind);
    }
}

/// Every kind of error that was noted is listed with the number of times it was,
/// and the total is the number of all errors, as long as it fits its counter.
pub proof fn every_kind_is_listed_with_its_count(
    log: ErrorLog,
    history: Seq<Seq<char>>,
    prev: u64,
    interval: Option<Double>,
    r: ErrorSummary,
    i: int,
)
    requires
        log.wf(),
        log.follows(history),
        summarises(log, prev, interval, r),
        0 <= i < r.per_kind@.len(),
    ensures
        r.per_kind@[i].1 == occurrences(history, r.per_kind@[i].0@),
        history.len() <= u64::MAX ==> r.total == history.len(),
        prev <= r.total ==> prev + r.delta == r.total,
        r.last == log.last,
{
    let kinds = log.kinds@;
    let p = choose|p: Seq<usize>| #[trigger]
        rows::in_order(kinds, p) && r.per_kind@.len() == kinds.len() && forall|i: int|
            0 <= i < r.per_kind@.len() ==> #[trigger] r.per_kind@[i] == (
                kinds[p[i] as int].name,
                kinds[p[i] as int].count,
            );
    let a = p[i] as int;
    rows::lemma_table_at(kinds, a);
    assert(r.per_kind@[i] == (kinds[a].name, kinds[a].count));
    let k = kinds[a].name@;
    assert(log.count_of(k) == occurrences(history, k));
}

/// No kind that was noted is left out.
pub proof fn no_kind_is_left_out(
    log: ErrorLog,
    history: Seq<Seq<char>>,
    prev: u64,
    interval: Option<Double>,
    r: ErrorSummary,
    kind: Seq<char>,
) -> (i: int)
    requires
        log.wf(),
        log.follows(history),
        summarises(log, prev, interval, r),
        occurrences(history, kind) > 0,
    ensures
        0 <= i < r.per_kind@.len(),
        r.per_kind@[i].0@ == kind,
{
    let kinds = log.kinds@;
    let p = choose|p: Seq<usize>| #[trigger]
        rows::in_order(kinds, p) && r.per_kind@.len() == kinds.len() && forall|i: int|
            0 <= i < r.per_kind@.len() ==> #[trigger] r.per_kind@[i] == (
                kinds[p[i] as int].name,
                kinds[p[i] as int].count,
            );
    assert(log.count_of(kind) == occurrences(history, kind));
    assert(rows::has_name(kinds, kind));
    let a = rows::index_named(kinds, kind);
    rows::lemma_permutes_all(p, kinds.len(), a);
    let i = choose|i: int| 0 <= i < p.len() && #[trigger] p[i] == a;
    assert(r.per_kind@[i] == (kinds[a].name, kinds[a].count));
    assert(kinds[a].title() == kind);
    i
}

} // verus!
