//! Mounted filesystems: total and free space.

use crate::report::DiskMetrics;
use vstd::prelude::*;

verus! {

/// What the disk list says of one filesystem.
#[derive(Debug, Clone)]
pub struct DiskReading {
    pub name: String,
    /// The mount point.
    pub mount: String,
    /// Length of the mount point in the encoding of the platform.
    pub mount_len: usize,
    pub total: u64,
    pub free: u64,
}

/// The metrics of one filesystem.
pub open spec fn listed(d: DiskReading) -> DiskMetrics {
    DiskMetrics { name: d.name, mount: d.mount, total: d.total, free: d.free }
}

pub fn collect(disks: &Vec<DiskReading>) -> (r: Vec<DiskMetrics>)
    ensures
        r@.len() == disks@.len(),
        forall|i: int| 0 <= i < r@.len() ==> #[trigger] r@[i] == listed(disks@[i]),
{
    let mut r: Vec<DiskMetrics> = Vec::new();
    let mut i: usize = 0;
    while i < disks.len()
        invariant
            i <= disks@.len(),
            r@.len() == i,
            forall|j: int| 0 <= j < i ==> #[trigger] r@[j] == listed(disks@[j]),
        decreases disks@.len() - i,
    {
        let d: &DiskReading = &disks[i];
        r.push(
            DiskMetrics { name: d.name.clone(), mount: d.mount.clone(), total: d.total, free: d.free },
        );
        i = i + 1;
    }
    r
}

/// A filesystem is reported as it was read.
pub proof fn a_filesystem_is_reported_as_it_was_read(d: DiskReading)
    ensures
        listed(d).name == d.name,
        listed(d).mount == d.mount,
        listed(d).total == d.total,
        listed(d).free == d.free,
{
}

} // verus!
