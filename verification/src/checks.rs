//! Dependency probes. Every check runs with a timeout and reports its own
//! latency — a check that hangs the app is worse than no check.
//!
//! Connecting is the caller's business. [`TcpProbe`] decides which address is
//! tried next and what the attempts come to.

use crate::disk::DiskReading;
use crate::process;
use crate::process::{find, ProcessReading};
use crate::report;
use crate::report::{Check, CheckResult, Health, ProcessMetrics};
use crate::text;
use crate::text::{letters, push_u64};
use vstd::prelude::*;
use vstd::string::StringExecFns;

verus! {

impl Check {
    /// The name that the check was given.
    pub open spec fn label(&self) -> Seq<char> {
        match self {
            Check::Tcp { name, .. } => name@,
            Check::DiskFree { name, .. } => name@,
            Check::ProcessAlive { name, .. } => name@,
        }
    }

    pub fn name(&self) -> (r: &str)
        ensures
            r@ == self.label(),
    {
        match self {
            Check::Tcp { name, .. } => name.as_str(),
            Check::DiskFree { name, .. } => name.as_str(),
            Check::ProcessAlive { name, .. } => name.as_str(),
        }
    }
}

/// A TCP connect under way: which addresses are left, how much time, and what
/// went wrong last.
#[derive(Debug, Clone)]
pub struct TcpProbe {
    /// How many addresses the name resolved to.
    pub addresses: usize,
    /// How many of them were tried.
    pub tried: usize,
    /// Nanoseconds left for all further attempts together.
    pub left_ns: u128,
    pub last_error: Option<String>,
}

/// What to do next.
#[derive(Debug, Clone)]
pub enum TcpAction {
    /// Connect to the address with this index within this time.
    Connect { address: usize, timeout_ns: u128 },
    /// Stop: this is the outcome.
    Report(Health, Option<String>),
}

/// One attempt to connect: what came of it, and how long it took.
pub struct Attempt {
    pub outcome: Result<(), String>,
    pub spent_ns: u128,
}

impl TcpProbe {
    pub open spec fn wf(&self) -> bool {
        self.tried <= self.addresses
    }

    /// The next address with all the time that is left, or the outcome when no
    /// address or no time is left.
    pub open spec fn next_is(&self, a: TcpAction) -> bool {
        if self.tried < self.addresses && self.left_ns > 0 {
            a == (TcpAction::Connect { address: self.tried, timeout_ns: self.left_ns })
        } else {
            a == TcpAction::Report(Health::Unhealthy, self.last_error)
        }
    }

    /// What the probe ends in when the addresses give these attempts.
    pub open spec fn ends_in(&self, attempts: Seq<Attempt>) -> (Health, Option<String>) {
        dialed(attempts.skip(self.tried as int), self.left_ns as int, self.last_error)
    }

    /// Starts with what the address resolved to: so many addresses, or an error.
    /// The first address is tried whatever the time.
    pub fn start(resolved: Result<usize, String>, timeout_ms: u64) -> (r: (TcpProbe, TcpAction))
        ensures
            r.0.wf(),
            r.0.tried == 0,
            r.0.left_ns == timeout_ms * 1_000_000,
            r.1 matches TcpAction::Connect { timeout_ns, .. } ==> timeout_ns == timeout_ms
                * 1_000_000,
            r.0.last_error is None,
            match resolved {
                Ok(n) => r.0.addresses == n && r.1 == if n > 0 {
                    TcpAction::Connect { address: 0, timeout_ns: r.0.left_ns }
                } else {
                    TcpAction::Report(Health::Unhealthy, None)
                },
                Err(e) => r.0.addresses == 0 && (r.1 matches TcpAction::Report(h, m) && h
                    == Health::Unhealthy && report::maybe_text(m) == Some("resolve: "@ + e@)),
            },
    {
        let left_ns: u128 = timeout_ms as u128 * 1_000_000;
        match resolved {
            Ok(n) => (
                TcpProbe { addresses: n, tried: 0, left_ns, last_error: None },
                if n > 0 {
                    TcpAction::Connect { address: 0, timeout_ns: left_ns }
                } else {
                    TcpAction::Report(Health::Unhealthy, None)
                },
            ),
            Err(e) => {
                let mut m: String = String::from_str("resolve: ");
                m.append(e.as_str());
                (
                    TcpProbe { addresses: 0, tried: 0, left_ns, last_error: None },
                    TcpAction::Report(Health::Unhealthy, Some(m)),
                )
            },
        }
    }

    /// Takes the outcome of the connect that was asked for, and the time it
    /// took: success settles it, an error moves on to the next address while
    /// there is time.
    pub fn step(&mut self, outcome: Result<(), String>, spent_ns: u128) -> (r: TcpAction)
        requires
            old(self).wf(),
            old(self).tried < old(self).addresses,
        ensures
            final(self).wf(),
            final(self).addresses == old(self).addresses,
            final(self).tried == old(self).tried + 1,
            final(self).left_ns == old(self).left_ns.saturating_sub(spent_ns),
            match outcome {
                Ok(_) => final(self).last_error == old(self).last_error && r == TcpAction::Report(
                    Health::Healthy,
                    None,
                ),
                Err(e) => final(self).last_error == Some(e) && final(self).next_is(r),
            },
            r matches TcpAction::Connect { address, timeout_ns } ==> timeout_ns + spent_ns == old(
                self,
            ).left_ns && address == old(self).tried + 1 && outcome is Err,
            outcome is Ok ==> r == TcpAction::Report(Health::Healthy, None),
            outcome is Err && old(self).tried + 1 < old(self).addresses && spent_ns < old(
                self,
            ).left_ns ==> r is Connect,
            forall|a: Seq<Attempt>|
                a.len() == old(self).addresses && a[old(self).tried as int] == (Attempt {
                    outcome,
                    spent_ns,
                }) ==> match r {
                    TcpAction::Report(h, m) => (h, m) == #[trigger] old(self).ends_in(a),
                    TcpAction::Connect { .. } => final(self).ends_in(a) == old(self).ends_in(a),
                },
    {
        proof {
            assert forall|a: Seq<Attempt>|
                a.len() == self.addresses && a[self.tried as int] == (Attempt {
                    outcome,
                    spent_ns,
                }) implies #[trigger] self.ends_in(a) == (match outcome {
                Ok(_) => (Health::Healthy, None),
                Err(e) => if self.left_ns <= spent_ns {
                    (Health::Unhealthy, Some(e))
                } else {
                    dialed(a.skip(self.tried + 1), self.left_ns - spent_ns, Some(e))
                },
            }) by {
                let rest = a.skip(self.tried as int);
                assert(rest[0] == a[self.tried as int]);
                assert(rest.drop_first() =~= a.skip(self.tried + 1));
            }
        }
        self.tried = self.tried + 1;
        self.left_ns = self.left_ns.saturating_sub(spent_ns);
        match outcome {
            Ok(_) => TcpAction::Report(Health::Healthy, None),
            Err(e) => {
                self.last_error = Some(e);
                if self.tried < self.addresses && self.left_ns > 0 {
                    TcpAction::Connect { address: self.tried, timeout_ns: self.left_ns }
                } else {
                    TcpAction::Report(Health::Unhealthy, self.last_error.clone())
                }
            },
        }
    }
}

/// What a probe comes to when the addresses give these attempts in turn, with
/// `left` nanoseconds for them, the last error so far being `last`.
pub open spec fn dialed(attempts: Seq<Attempt>, left: int, last: Option<String>) -> (
    Health,
    Option<String>,
)
    decreases attempts.len(),
{
    if attempts.len() == 0 {
        (Health::Unhealthy, last)
    } else {
        match attempts[0].outcome {
            Ok(_) => (Health::Healthy, None),
            Err(e) => if left <= attempts[0].spent_ns {
                (Health::Unhealthy, Some(e))
            } else {
                dialed(attempts.drop_first(), left - attempts[0].spent_ns, Some(e))
            },
        }
    }
}

/// How long the first `n` attempts took together.
pub open spec fn spent(attempts: Seq<Attempt>, n: int) -> nat
    decreases n,
{
    if n <= 0 {
        0
    } else {
        spent(attempts, n - 1) + attempts[n - 1].spent_ns as nat
    }
}

proof fn lemma_spent_first(attempts: Seq<Attempt>, n: int)
    requires
        1 <= n <= attempts.len(),
    ensures
        spent(attempts, n) == attempts[0].spent_ns + spent(attempts.drop_first(), n - 1),
    decreases n,
{
    if n > 1 {
        lemma_spent_first(attempts, n - 1);
        assert(attempts.drop_first()[n - 2] == attempts[n - 1]);
    } else {
        assert(spent(attempts, 0) == 0);
    }
}

/// There is time for attempt `i`: the first is always made, a later one while
/// those before it leave some.
pub open spec fn in_time(attempts: Seq<Attempt>, left: int, i: int) -> bool {
    0 <= i < attempts.len() && (i == 0 || spent(attempts, i) < left)
}

/// A probe is healthy exactly when some address that there is time for takes the
/// connection. Otherwise its message is the error of the last one there was time
/// for.
pub proof fn one_address_is_enough(attempts: Seq<Attempt>, left: int, last: Option<String>)
    ensures
        dialed(attempts, left, last).0 == Health::Healthy <==> exists|i: int| #[trigger]
            in_time(attempts, left, i) && attempts[i].outcome is Ok,
        dialed(attempts, left, last).0 == Health::Healthy ==> dialed(attempts, left, last).1 is None,
        dialed(attempts, left, last).0 != Health::Healthy ==> {
            &&& dialed(attempts, left, last).0 == Health::Unhealthy
            &&& attempts.len() == 0 ==> dialed(attempts, left, last).1 == last
            &&& attempts.len() > 0 ==> exists|i: int| #[trigger]
                in_time(attempts, left, i) && !in_time(attempts, left, i + 1)
                    && attempts[i].outcome is Err && dialed(attempts, left, last).1 == Some(
                    attempts[i].outcome->Err_0,
                )
        },
    decreases attempts.len(),
{
    if attempts.len() > 0 {
        let took = attempts[0].spent_ns;
        let rest = attempts.drop_first();
        assert(in_time(attempts, left, 0));
        lemma_spent_first(attempts, 1);
        if attempts[0].outcome is Ok {
        } else if left <= took {
            assert forall|i: int| #[trigger] in_time(attempts, left, i) implies i == 0 by {
                if i > 0 {
                    lemma_spent_first(attempts, i);
                }
            }
            assert(!in_time(attempts, left, 1));
        } else {
            one_address_is_enough(rest, left - took, Some(attempts[0].outcome->Err_0));
            assert forall|i: int|
                #![trigger in_time(rest, left - took, i)]
                0 <= i implies in_time(rest, left - took, i) == in_time(attempts, left, i + 1) by {
                if i < rest.len() {
                    lemma_spent_first(attempts, i + 1);
                }
            }
            if exists|i: int| #[trigger] in_time(rest, left - took, i) && rest[i].outcome is Ok {
                let i = choose|i: int| #[trigger]
                    in_time(rest, left - took, i) && rest[i].outcome is Ok;
                assert(in_time(attempts, left, i + 1) && attempts[i + 1].outcome is Ok);
            }
            if exists|i: int| #[trigger] in_time(attempts, left, i) && attempts[i].outcome is Ok {
                let i = choose|i: int| #[trigger]
                    in_time(attempts, left, i) && attempts[i].outcome is Ok;
                assert(in_time(rest, left - took, i - 1) && rest[i - 1].outcome is Ok);
            }
            if dialed(attempts, left, last).0 != Health::Healthy {
                if rest.len() == 0 {
                    assert(!in_time(attempts, left, 1));
                } else {
                    let i = choose|i: int| #[trigger]
                        in_time(rest, left - took, i) && !in_time(rest, left - took, i + 1)
                            && rest[i].outcome is Err && dialed(attempts, left, last).1 == Some(
                            rest[i].outcome->Err_0,
                        );
                    assert(in_time(attempts, left, i + 1));
                    assert(!in_time(rest, left - took, i + 1));
                    assert(!in_time(attempts, left, i + 2));
                    assert(attempts[i + 1] == rest[i]);
                }
            }
        }
    }
}

/// A probe does not hang: where every attempt keeps to the time that it was
/// given, all the attempts there is time for keep to the timeout together.
pub proof fn a_probe_keeps_its_timeout(attempts: Seq<Attempt>, left: int, n: int)
    requires
        left >= 0,
        0 <= n <= attempts.len(),
        forall|i: int|
            0 <= i < n ==> #[trigger] in_time(attempts, left, i) && attempts[i].spent_ns <= left
                - spent(attempts, i),
    ensures
        spent(attempts, n) <= left,
{
    if n > 0 {
        assert(in_time(attempts, left, n - 1));
    }
}

/// What sets the parts of a path apart, on a machine where `mount` is a mount
/// point.
pub open spec fn separates(mount: Seq<char>, c: char) -> bool {
    c == '/' || (c == '\\' && !(mount.len() > 0 && mount[0] == '/'))
}

/// A filesystem that a path lies on: its mount point is the path, or the path
/// goes on below it.
pub open spec fn covers(d: DiskReading, path: Seq<char>) -> bool {
    let m = d.mount@;
    &&& m.is_prefix_of(path)
    &&& m.len() == 0 || m.len() == path.len() || separates(m, m.last()) || separates(
        m,
        path[m.len() as int],
    )
}

/// A mount point covers what lies below it, and nothing whose name merely starts
/// like its own.
pub proof fn a_mount_covers_what_lies_below(d: DiskReading, rest: Seq<char>, c: char)
    requires
        d.mount@.len() > 0,
        !separates(d.mount@, d.mount@.last()),
    ensures
        covers(d, d.mount@),
        covers(d, d.mount@.push(c) + rest) == separates(d.mount@, c),
{
    let m = d.mount@;
    let path = m.push(c) + rest;
    assert(m =~= path.subrange(0, m.len() as int));
    assert(m =~= m.subrange(0, m.len() as int));
    assert(path[m.len() as int] == c);
}

/// Disk `i` has the longest mount point that covers the path, the last of
/// them where several are as long.
pub open spec fn mounted_on(disks: Seq<DiskReading>, path: Seq<char>, i: int) -> bool {
    &&& 0 <= i < disks.len()
    &&& covers(disks[i], path)
    &&& forall|j: int|
        0 <= j < disks.len() && covers(#[trigger] disks[j], path) ==> disks[j].mount_len
            <= disks[i].mount_len && (j > i ==> disks[j].mount_len < disks[i].mount_len)
}

/// What a check for free space comes to.
pub open spec fn space_outcome(
    disks: Seq<DiskReading>,
    mount: Seq<char>,
    min_free: u64,
    r: (Health, Option<Seq<char>>),
) -> bool {
    ||| exists|i: int| #[trigger]
        mounted_on(disks, mount, i) && r == (if disks[i].free >= min_free {
            (Health::Healthy, None)
        } else {
            (
                Health::Unhealthy,
                Some(
                    text::decimal(disks[i].free as nat) + " free on "@ + disks[i].mount@ + ", need "@
                        + text::decimal(min_free as nat),
                ),
            )
        })
    ||| (forall|i: int| 0 <= i < disks.len() ==> !covers(#[trigger] disks[i], mount)) && r == (
        Health::Degraded,
        Some("no mount matches "@ + mount),
    )
}

fn lies_on(d: &DiskReading, path: &str) -> (r: bool)
    ensures
        r == covers(*d, path@),
{
    let a: Vec<char> = letters(path);
    let b: Vec<char> = letters(d.mount.as_str());
    if a.len() < b.len() {
        return false;
    }
    let mut i: usize = 0;
    while i < b.len()
        invariant
            i <= b@.len() <= a@.len(),
            a@ == path@,
            b@ == d.mount@,
            forall|j: int| 0 <= j < i ==> a@[j] == b@[j],
        decreases b@.len() - i,
    {
        if a[i] != b[i] {
            assert(a@.subrange(0, b@.len() as int)[i as int] != b@[i as int]);
            return false;
        }
        i = i + 1;
    }
    assert(b@ =~= a@.subrange(0, b@.len() as int));
    if b.len() == 0 || b.len() == a.len() {
        return true;
    }
    let unix: bool = b[0] == '/';
    let (last, next): (char, char) = (b[b.len() - 1], a[b.len()]);
    last == '/' || next == '/' || (!unix && (last == '\\' || next == '\\'))
}

/// The status and message of a probe, its message as characters.
pub open spec fn outcome_text(r: (Health, Option<String>)) -> (Health, Option<Seq<char>>) {
    (r.0, report::maybe_text(r.1))
}

/// At least `min_free` bytes free where `mount` lies.
pub fn disk_free(disks: &Vec<DiskReading>, mount: &str, min_free: u64) -> (r: (
    Health,
    Option<String>,
))
    ensures
        space_outcome(disks@, mount@, min_free, outcome_text(r)),
{
    // Longest mount point that covers the path ("C:\" for "C:\data").
    let mut best: Option<usize> = None;
    let mut i: usize = 0;
    while i < disks.len()
        invariant
            i <= disks@.len(),
            match best {
                Some(b) => b < i && covers(disks@[b as int], mount@) && forall|j: int|
                    0 <= j < i && covers(#[trigger] disks@[j], mount@) ==> disks@[j].mount_len
                        <= disks@[b as int].mount_len && (j > b ==> disks@[j].mount_len
                        < disks@[b as int].mount_len),
                None => forall|j: int| 0 <= j < i ==> !covers(#[trigger] disks@[j], mount@),
            },
        decreases disks@.len() - i,
    {
        if lies_on(&disks[i], mount) {
            let longer: bool = match best {
                Some(b) => disks[i].mount_len >= disks[b].mount_len,
                None => true,
            };
            if longer {
                best = Some(i);
            }
        }
        i = i + 1;
    }
    match best {
        Some(b) => {
            assert(mounted_on(disks@, mount@, b as int));
            let free: u64 = disks[b].free;
            if free >= min_free {
                (Health::Healthy, None)
            } else {
                let mut m: String = String::new();
                push_u64(&mut m, free);
                m.append(" free on ");
                m.append(disks[b].mount.as_str());
                m.append(", need ");
                push_u64(&mut m, min_free);
                assert(m@ =~= text::decimal(free as nat) + " free on "@ + disks@[b as int].mount@
                    + ", need "@ + text::decimal(min_free as nat));
                (Health::Unhealthy, Some(m))
            }
        },
        None => {
            let mut m: String = String::from_str("no mount matches ");
            m.append(mount);
            (Health::Degraded, Some(m))
        },
    }
}

/// Asking for no free space at all is healthy wherever the path lies on some
/// filesystem.
pub proof fn no_requirement_is_met(
    disks: Seq<DiskReading>,
    mount: Seq<char>,
    r: (Health, Option<Seq<char>>),
)
    requires
        space_outcome(disks, mount, 0, r),
        exists|i: int| 0 <= i < disks.len() && covers(#[trigger] disks[i], mount),
    ensures
        r.0 == Health::Healthy,
{
}

/// What a check for a living process comes to.
pub open spec fn alive_outcome(
    processes: Seq<ProcessReading>,
    pattern: Seq<char>,
    r: (Health, Option<Seq<char>>),
) -> bool {
    exists|m: Option<ProcessMetrics>| #[trigger]
        process::is_heaviest(processes, pattern, 0, m) && r == match m {
            Some(m) => (Health::Healthy, Some("pid "@ + text::decimal(m.pid as nat))),
            None => (Health::Unhealthy, Some("no process matches "@ + pattern)),
        }
}

/// Some process matches `pattern`.
pub fn process_alive(processes: &Vec<ProcessReading>, pattern: &str) -> (r: (
    Health,
    Option<String>,
))
    ensures
        alive_outcome(processes@, pattern@, outcome_text(r)),
{
    match find(processes, pattern, 0) {
        Some(m) => {
            let mut s: String = String::from_str("pid ");
            push_u64(&mut s, m.pid as u64);
            assert(process::is_heaviest(processes@, pattern@, 0, Some(m)));
            (Health::Healthy, Some(s))
        },
        None => {
            let mut s: String = String::from_str("no process matches ");
            s.append(pattern);
            assert(process::is_heaviest(processes@, pattern@, 0, None));
            (Health::Unhealthy, Some(s))
        },
    }
}

/// A check for a living process succeeds exactly when a process matches.
pub proof fn alive_means_matched(
    processes: Seq<ProcessReading>,
    pattern: Seq<char>,
    r: (Health, Option<Seq<char>>),
)
    requires
        alive_outcome(processes, pattern, r),
    ensures
        r.0 == Health::Healthy <==> exists|i: int|
            0 <= i < processes.len() && process::hit(#[trigger] processes[i], pattern),
        r.0 == Health::Healthy || r.0 == Health::Unhealthy,
{
}

/// What was found out about a check before it is judged.
#[derive(Debug, Clone)]
pub struct Probed {
    /// What connecting came to; looked at for a TCP check only.
    pub status: Health,
    /// What went wrong in connecting.
    pub message: Option<String>,
    /// How long the check took.
    pub elapsed_ms: u64,
}

/// What a check comes to.
pub open spec fn outcome_of(
    check: Check,
    probed: Probed,
    processes: Seq<ProcessReading>,
    disks: Seq<DiskReading>,
    r: (Health, Option<Seq<char>>),
) -> bool {
    match check {
        Check::Tcp { .. } => r == outcome_text((probed.status, probed.message)),
        Check::DiskFree { mount, min_free, .. } => space_outcome(disks, mount@, min_free, r),
        Check::ProcessAlive { pattern, .. } => alive_outcome(processes, pattern@, r),
    }
}

/// `r` is the result of a check.
pub open spec fn is_result(
    check: Check,
    probed: Probed,
    processes: Seq<ProcessReading>,
    disks: Seq<DiskReading>,
    r: CheckResult,
) -> bool {
    &&& r.name@ == check.label()
    &&& r.latency_ms == probed.elapsed_ms
    &&& outcome_of(check, probed, processes, disks, outcome_text((r.status, r.message)))
}

pub fn run(
    check: &Check,
    probed: &Probed,
    processes: &Vec<ProcessReading>,
    disks: &Vec<DiskReading>,
) -> (r: CheckResult)
    ensures
        is_result(*check, *probed, processes@, disks@, r),
{
    let (status, message) = match check {
        Check::Tcp { .. } => (probed.status, probed.message.clone()),
        Check::DiskFree { mount, min_free, .. } => disk_free(disks, mount.as_str(), *min_free),
        Check::ProcessAlive { pattern, .. } => process_alive(processes, pattern.as_str()),
    };
    CheckResult { name: check.name().to_owned(), status, latency_ms: probed.elapsed_ms, message }
}

/// Free space is judged on the filesystem that the path lies on, the one with the
/// longest mount point that covers it: healthy where enough is free there,
/// unhealthy where it is not, degraded where no filesystem covers the path.
pub proof fn free_space_is_judged_where_the_path_lies(
    disks: Seq<DiskReading>,
    path: Seq<char>,
    min_free: u64,
    r: (Health, Option<Seq<char>>),
)
    requires
        space_outcome(disks, path, min_free, r),
    ensures
        r.0 == Health::Degraded <==> forall|i: int|
            0 <= i < disks.len() ==> !covers(#[trigger] disks[i], path),
        r.0 == Health::Healthy ==> exists|i: int|
            0 <= i < disks.len() && covers(#[trigger] disks[i], path) && disks[i].free >= min_free
                && forall|j: int|
                0 <= j < disks.len() && covers(#[trigger] disks[j], path) ==> disks[j].mount_len
                    <= disks[i].mount_len,
        r.0 == Health::Unhealthy ==> exists|i: int|
            0 <= i < disks.len() && covers(#[trigger] disks[i], path) && disks[i].free < min_free
                && forall|j: int|
                0 <= j < disks.len() && covers(#[trigger] disks[j], path) ==> disks[j].mount_len
                    <= disks[i].mount_len,
        r.0 == Health::Healthy <==> r.1 is None,
{
    if exists|i: int| #[trigger] mounted_on(disks, path, i) {
        let i = choose|i: int| #[trigger]
            mounted_on(disks, path, i) && r == (if disks[i].free >= min_free {
                (Health::Healthy, None)
            } else {
                (
                    Health::Unhealthy,
                    Some(
                        text::decimal(disks[i].free as nat) + " free on "@ + disks[i].mount@
                            + ", need "@ + text::decimal(min_free as nat),
                    ),
                )
            });
        assert(covers(disks[i], path));
    }
}

/// A mount point that ends in a separator, such as a root, covers everything that
/// starts with it.
pub proof fn a_root_covers_everything_below(d: DiskReading, rest: Seq<char>)
    requires
        d.mount@.len() > 0,
        d.mount@.last() == '/' || (d.mount@.last() == '\\' && d.mount@[0] != '/'),
    ensures
        covers(d, d.mount@ + rest),
{
    let path = d.mount@ + rest;
    assert(d.mount@ =~= path.subrange(0, d.mount@.len() as int));
}

/// Nothing covers a path that does not start with it.
pub proof fn a_mount_covers_only_what_starts_with_it(d: DiskReading, path: Seq<char>)
    requires
        covers(d, path),
    ensures
        d.mount@.len() <= path.len(),
        path.take(d.mount@.len() as int) == d.mount@,
{
    assert(path.take(d.mount@.len() as int) =~= path.subrange(0, d.mount@.len() as int));
}

/// A result goes by the name of its check and carries its latency; a TCP check is
/// what connecting came to.
pub proof fn a_result_goes_by_its_check(
    check: Check,
    probed: Probed,
    processes: Seq<ProcessReading>,
    disks: Seq<DiskReading>,
    r: CheckResult,
)
    requires
        is_result(check, probed, processes, disks, r),
    ensures
        r.latency_ms == probed.elapsed_ms,
        check matches Check::Tcp { name, .. } ==> r.name@ == name@ && r.status == probed.status
            && report::maybe_text(r.message) == report::maybe_text(probed.message),
        check matches Check::DiskFree { name, mount, min_free } ==> r.name@ == name@
            && space_outcome(disks, mount@, min_free, outcome_text((r.status, r.message))),
        check matches Check::ProcessAlive { name, pattern } ==> r.name@ == name@ && (r.status
            == Health::Healthy <==> exists|i: int|
            0 <= i < processes.len() && process::hit(#[trigger] processes[i], pattern@)),
{
    if let Check::ProcessAlive { name, pattern } = check {
        alive_means_matched(processes, pattern@, outcome_text((r.status, r.message)));
    }
}

} // verus!
