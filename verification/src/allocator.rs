//! Counters of an allocator.
//!
//! # What the numbers answer
//!
//! `live_bytes = allocated - freed` compared against RSS separates live data
//! from allocator retention: a large gap means the allocator holds pages it no
//! longer has data for — fragmentation, not a leak in your own structures. The
//! two have opposite fixes, and no process-level metric can tell them apart.
//!
//! The counts answer a different question: churn. Millions of allocations per
//! second with flat `live_bytes` is pure overhead — memory being recycled
//! rather than needed — and it never shows up in a memory graph at all.

use vstd::prelude::*;

verus! {

/// What an allocator handed out and took back since process start.
#[derive(Debug, Clone, Copy, PartialEq, Eq, Structural)]
pub struct CountingAlloc {
    /// Bytes handed out.
    pub allocated: u64,
    /// Bytes given back.
    pub freed: u64,
    pub alloc_count: u64,
    pub dealloc_count: u64,
}

/// What an allocator is asked for, and whether it hands it out.
pub enum Request {
    Allocate { size: usize, handed_out: bool },
    Resize { size: usize, new_size: usize, handed_out: bool },
    Release { size: usize },
}

impl Default for CountingAlloc {
    fn default() -> (r: Self)
        ensures
            r == (CountingAlloc { allocated: 0, freed: 0, alloc_count: 0, dealloc_count: 0 }),
    {
        CountingAlloc { allocated: 0, freed: 0, alloc_count: 0, dealloc_count: 0 }
    }
}

impl CountingAlloc {
    /// The counters after handing out a block.
    pub open spec fn after_alloc(self, size: usize) -> CountingAlloc {
        CountingAlloc {
            allocated: self.allocated.wrapping_add(size as u64),
            alloc_count: self.alloc_count.wrapping_add(1),
            ..self
        }
    }

    /// The counters after taking back a block.
    pub open spec fn after_dealloc(self, size: usize) -> CountingAlloc {
        CountingAlloc {
            freed: self.freed.wrapping_add(size as u64),
            dealloc_count: self.dealloc_count.wrapping_add(1),
            ..self
        }
    }

    /// The counters after resizing a block. Only the difference moves, and
    /// nothing is counted as an allocation.
    pub open spec fn after_realloc(self, size: usize, new_size: usize) -> CountingAlloc {
        if new_size >= size {
            CountingAlloc {
                allocated: self.allocated.wrapping_add((new_size - size) as u64),
                ..self
            }
        } else {
            CountingAlloc { freed: self.freed.wrapping_add((size - new_size) as u64), ..self }
        }
    }

    /// The counters after a request. One that is refused moves nothing.
    pub open spec fn after(self, r: Request) -> CountingAlloc {
        match r {
            Request::Allocate { size, handed_out } => if handed_out {
                self.after_alloc(size)
            } else {
                self
            },
            Request::Resize { size, new_size, handed_out } => if handed_out {
                self.after_realloc(size, new_size)
            } else {
                self
            },
            Request::Release { size } => self.after_dealloc(size),
        }
    }

    /// A block of `size` bytes is asked for, and handed out or refused.
    pub fn allocate(&mut self, size: usize, handed_out: bool)
        ensures
            *final(self) == old(self).after(Request::Allocate { size, handed_out }),
    {
        if handed_out {
            self.allocated = self.allocated.wrapping_add(size as u64);
            self.alloc_count = self.alloc_count.wrapping_add(1);
        }
    }

    /// A block of `size` bytes is taken back.
    pub fn dealloc(&mut self, size: usize)
        ensures
            *final(self) == old(self).after(Request::Release { size }),
    {
        self.freed = self.freed.wrapping_add(size as u64);
        self.dealloc_count = self.dealloc_count.wrapping_add(1);
    }

    /// A zeroed block of `size` bytes is asked for, and handed out or refused.
    pub fn alloc_zeroed(&mut self, size: usize, handed_out: bool)
        ensures
            *final(self) == old(self).after(Request::Allocate { size, handed_out }),
    {
        self.allocate(size, handed_out);
    }

    /// A block of `size` bytes is to become one of `new_size`; where that is
    /// refused the old block stays.
    ///
    /// Only the difference moves: a realloc is not a new allocation, and
    /// counting it as one would make `live_bytes` drift upward forever on any
    /// growing `Vec`.
    pub fn realloc(&mut self, size: usize, new_size: usize, handed_out: bool)
        ensures
            *final(self) == old(self).after(Request::Resize { size, new_size, handed_out }),
    {
        if handed_out {
            if new_size >= size {
                self.allocated = self.allocated.wrapping_add((new_size - size) as u64);
            } else {
                self.freed = self.freed.wrapping_add((size - new_size) as u64);
            }
        }
    }

    /// Bytes held on behalf of live values.
    pub open spec fn live(self) -> u64 {
        self.allocated.saturating_sub(self.freed)
    }
}

/// Bytes currently held by the allocator on behalf of live values.
pub fn live_bytes(a: &CountingAlloc) -> (r: u64)
    ensures
        r == a.live(),
{
    a.allocated.saturating_sub(a.freed)
}

/// `(allocated_total, freed_total)` bytes since process start.
pub fn totals(a: &CountingAlloc) -> (r: (u64, u64))
    ensures
        r == (a.allocated, a.freed),
{
    (a.allocated, a.freed)
}

/// `(alloc_count, dealloc_count)` since process start.
pub fn counts(a: &CountingAlloc) -> (r: (u64, u64))
    ensures
        r == (a.alloc_count, a.dealloc_count),
{
    (a.alloc_count, a.dealloc_count)
}

/// Resizing a block moves the live bytes by the difference alone, and giving
/// the resized block back returns them to where they started.
pub proof fn realloc_counts_only_the_difference(a: CountingAlloc, size: usize, new_size: usize)
    requires
        a.freed <= a.allocated,
        a.allocated + size + new_size <= u64::MAX,
    ensures
        a.after_alloc(size).live() == a.live() + size,
        a.after_alloc(size).after_realloc(size, new_size).live() == a.live() + new_size,
        a.after_alloc(size).after_realloc(size, new_size).after_dealloc(new_size).live()
            == a.live(),
        a.after_alloc(size).after_realloc(size, new_size).alloc_count == a.alloc_count.wrapping_add(
            1,
        ),
{
}

/// The counters after a history of requests.
pub open spec fn counted(h: Seq<Request>) -> CountingAlloc
    decreases h.len(),
{
    if h.len() == 0 {
        CountingAlloc { allocated: 0, freed: 0, alloc_count: 0, dealloc_count: 0 }
    } else {
        counted(h.drop_last()).after(h.last())
    }
}

/// Bytes that a request hands out.
pub open spec fn handed(r: Request) -> nat {
    match r {
        Request::Allocate { size, handed_out } if handed_out => size as nat,
        Request::Resize { size, new_size, handed_out } if handed_out && new_size >= size => (
        new_size - size) as nat,
        _ => 0,
    }
}

/// Bytes that a request takes back.
pub open spec fn returned(r: Request) -> nat {
    match r {
        Request::Resize { size, new_size, handed_out } if handed_out && new_size < size => (size
            - new_size) as nat,
        Request::Release { size } => size as nat,
        _ => 0,
    }
}

/// Bytes handed out over a history.
pub open spec fn all_handed(h: Seq<Request>) -> nat
    decreases h.len(),
{
    if h.len() == 0 {
        0
    } else {
        all_handed(h.drop_last()) + handed(h.last())
    }
}

/// Bytes taken back over a history.
pub open spec fn all_returned(h: Seq<Request>) -> nat
    decreases h.len(),
{
    if h.len() == 0 {
        0
    } else {
        all_returned(h.drop_last()) + returned(h.last())
    }
}

/// Live bytes are what was handed out and not taken back, whatever was refused
/// in between, as long as the counters hold it and no more was taken back than
/// handed out.
pub proof fn live_bytes_are_handed_out_and_not_returned(h: Seq<Request>)
    requires
        all_returned(h) <= all_handed(h) <= u64::MAX,
    ensures
        counted(h).allocated == all_handed(h),
        counted(h).freed == all_returned(h),
        counted(h).live() == all_handed(h) - all_returned(h),
{
    lemma_counted(h);
}

proof fn lemma_counted(h: Seq<Request>)
    requires
        all_handed(h) <= u64::MAX,
        all_returned(h) <= u64::MAX,
    ensures
        counted(h).allocated == all_handed(h),
        counted(h).freed == all_returned(h),
    decreases h.len(),
{
    if h.len() > 0 {
        lemma_counted(h.drop_last());
    }
}

/// A request that is refused moves no counter.
pub proof fn a_refused_request_moves_nothing(a: CountingAlloc, size: usize, new_size: usize)
    ensures
        a.after(Request::Allocate { size, handed_out: false }) == a,
        a.after(Request::Resize { size, new_size, handed_out: false }) == a,
{
}

} // verus!
