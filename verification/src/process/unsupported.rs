//! Platforms without native counters: measure nothing, claim nothing.

use vstd::prelude::*;

verus! {

pub fn mem_counters() -> (r: (u64, u64, u64))
    ensures
        r == (0u64, 0u64, 0u64),
{
    (0, 0, 0)
}

pub fn page_faults() -> (r: Option<u64>)
    ensures
        r is None,
{
    None
}

pub fn handle_count() -> (r: Option<u32>)
    ensures
        r is None,
{
    None
}

pub fn io_counters() -> (r: Option<(u64, u64, u64, u64)>)
    ensures
        r is None,
{
    None
}

pub fn cpu_time_ms() -> (r: Option<u64>)
    ensures
        r is None,
{
    None
}

pub fn thread_count() -> (r: Option<u32>)
    ensures
        r is None,
{
    None
}

} // verus!
