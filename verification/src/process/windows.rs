//! Windows: what the Win32 counters of this process say.

use crate::float::rounding;
use vstd::arithmetic::power2;
use vstd::prelude::*;

verus! {

/// Size of `PROCESS_MEMORY_COUNTERS_EX` on x64. Its fields: `cb` u32 @0,
/// `PageFaultCount` u32 @4, then SIZE_T fields — `PeakWorkingSetSize` @8,
/// `WorkingSetSize` @16, …, `PrivateUsage` @72.
pub const CB: usize = 80;

/// What the system calls gave; `None` where one failed.
#[derive(Debug, Clone)]
pub struct Raw {
    /// `GetProcessMemoryInfo`, as the bytes it filled in.
    pub memory_info: Option<[u8; CB]>,
    /// `GetProcessHandleCount`.
    pub handles: Option<u32>,
    /// `GetProcessIoCounters`: read bytes, written bytes, read ops, write ops.
    pub io: Option<(u64, u64, u64, u64)>,
    /// `GetProcessTimes`: kernel and user time, each as high and low half.
    pub times: Option<((u32, u32), (u32, u32))>,
}

/// The number that bytes stand for, the least significant first.
pub open spec fn little_endian(s: Seq<u8>) -> nat
    decreases s.len(),
{
    if s.len() == 0 {
        0
    } else {
        s[0] as nat + 256 * little_endian(s.drop_first())
    }
}

/// The number in `n` bytes at an offset.
pub open spec fn field(buf: [u8; CB], at: int, n: int) -> nat {
    little_endian(buf@.subrange(at, at + n))
}

/// `(working set, private bytes, peak working set)`, or zeros on failure. A
/// process without a working set was not measured.
pub open spec fn memory_of(raw: Raw) -> (u64, u64, u64) {
    match raw.memory_info {
        Some(b) => if field(b, 16, 8) as u64 == 0 {
            (0, 0, 0)
        } else {
            (field(b, 16, 8) as u64, field(b, 72, 8) as u64, field(b, 8, 8) as u64)
        },
        None => (0, 0, 0),
    }
}

/// Page faults since process start.
pub open spec fn faults_of(raw: Raw) -> Option<u64> {
    match raw.memory_info {
        Some(b) => Some(field(b, 4, 4) as u64),
        None => None,
    }
}

/// 100-nanosecond intervals split across two halves.
pub open spec fn filetime(t: (u32, u32)) -> nat {
    t.0 as nat * 0x1_0000_0000 + t.1 as nat
}

/// Kernel + user CPU time in milliseconds. A sum that the counter cannot hold is
/// no measurement.
pub open spec fn cpu_time_of(raw: Raw) -> Option<u64> {
    match raw.times {
        Some((kernel, user)) => if filetime(kernel) + filetime(user) <= u64::MAX {
            Some(((filetime(kernel) + filetime(user)) / 10_000) as u64)
        } else {
            None
        },
        None => None,
    }
}

fn read(buf: &[u8; CB], at: usize, n: usize) -> (r: u64)
    requires
        at + n <= CB,
        n == 4 || n == 8,
    ensures
        r == field(*buf, at as int, n as int),
        n == 4 ==> r <= u32::MAX,
{
    let mut r: u64 = 0;
    let mut i: usize = n;
    let ghost all = buf@.subrange(at as int, at + n);
    assert(all.skip(n as int) =~= Seq::<u8>::empty());
    proof {
        power2::lemma2_to64();
    }
    while i > 0
        invariant
            i <= n,
            at + n <= CB,
            n == 4 || n == 8,
            all == buf@.subrange(at as int, at + n),
            r == little_endian(all.skip(i as int)),
            r < power2::pow2((8 * (n - i)) as nat),
        decreases i,
    {
        i = i - 1;
        let b: u8 = buf[at + i];
        proof {
            assert(all.skip(i as int).drop_first() =~= all.skip(i + 1));
            assert(all.skip(i as int)[0] == b);
            power2::lemma2_to64();
            power2::lemma2_to64_rest();
            power2::lemma_pow2_adds(8, (8 * (n - i - 1)) as nat);
            rounding::lemma_pow2_le((8 * (n - i)) as nat, 64);
        }
        r = r * 256 + b as u64;
    }
    assert(all.skip(0) =~= all);
    r
}

/// `(working set, private bytes, peak working set)`, or zeros on failure. Peak
/// comes from the OS, not from a userspace maximum that only sees the instants
/// it happens to sample.
pub fn mem_counters(raw: &Raw) -> (r: (u64, u64, u64))
    ensures
        r == memory_of(*raw),
{
    match &raw.memory_info {
        Some(b) => {
            let rss: u64 = read(b, 16, 8);
            if rss == 0 {
                (0, 0, 0)
            } else {
                (rss, read(b, 72, 8), read(b, 8, 8))
            }
        },
        None => (0, 0, 0),
    }
}

/// Page faults since process start.
pub fn page_faults(raw: &Raw) -> (r: Option<u64>)
    ensures
        r == faults_of(*raw),
{
    match &raw.memory_info {
        Some(b) => Some(read(b, 4, 4)),
        None => None,
    }
}

/// Open kernel handles. A count that only climbs is a handle leak.
pub fn handle_count(raw: &Raw) -> (r: Option<u32>)
    ensures
        r == raw.handles,
{
    raw.handles
}

/// `(read bytes, written bytes, read ops, write ops)` since process start.
pub fn io_counters(raw: &Raw) -> (r: Option<(u64, u64, u64, u64)>)
    ensures
        r == raw.io,
{
    raw.io
}

fn joined(t: (u32, u32)) -> (r: u64)
    ensures
        r == filetime(t),
{
    t.0 as u64 * 0x1_0000_0000 + t.1 as u64
}

/// Kernel + user CPU time since process start, in milliseconds.
pub fn cpu_time_ms(raw: &Raw) -> (r: Option<u64>)
    ensures
        r == cpu_time_of(*raw),
{
    match raw.times {
        Some((kernel, user)) => match joined(kernel).checked_add(joined(user)) {
            Some(t) => Some(t / 10_000),
            None => None,
        },
        None => None,
    }
}

/// Threads are not counted here: that would need a ToolHelp snapshot, which
/// costs more than the signal is worth.
pub fn thread_count(raw: &Raw) -> (r: Option<u32>)
    ensures
        r is None,
{
    None
}

/// CPU time is the time in the kernel and outside of it together, cut off to whole
/// milliseconds.
pub proof fn cpu_time_is_both_times(raw: Raw, kernel: (u32, u32), user: (u32, u32))
    requires
        raw.times == Some((kernel, user)),
    ensures
        ({
            let ticks = kernel.0 * 0x1_0000_0000 + kernel.1 + user.0 * 0x1_0000_0000 + user.1;
            &&& ticks <= u64::MAX ==> (cpu_time_of(raw) matches Some(ms) && ms * 10_000 <= ticks < (
            ms + 1) * 10_000)
            &&& ticks > u64::MAX ==> cpu_time_of(raw) is None
        }),
{
}

/// A number in bytes is each byte at its own weight: one byte more in front counts
/// itself and 256 times the rest.
pub proof fn bytes_count_by_their_place(b: u8, rest: Seq<u8>)
    ensures
        little_endian(seq![b] + rest) == b + 256 * little_endian(rest),
        little_endian(Seq::empty()) == 0,
{
    let s = seq![b] + rest;
    assert(s.drop_first() =~= rest);
    assert(s[0] == b);
}

/// The memory counters are read from their places in the buffer.
pub proof fn the_counters_are_in_their_places(raw: Raw, buf: [u8; CB])
    requires
        raw.memory_info == Some(buf),
        0 < little_endian(buf@.subrange(16, 24)) <= u64::MAX,
        little_endian(buf@.subrange(72, 80)) <= u64::MAX,
        little_endian(buf@.subrange(8, 16)) <= u64::MAX,
        little_endian(buf@.subrange(4, 8)) <= u64::MAX,
    ensures
        ({
            let (rss, private, peak) = memory_of(raw);
            &&& rss == little_endian(buf@.subrange(16, 24))
            &&& private == little_endian(buf@.subrange(72, 80))
            &&& peak == little_endian(buf@.subrange(8, 16))
        }),
        faults_of(raw) matches Some(n) && n == little_endian(buf@.subrange(4, 8)),
{
}

} // verus!
