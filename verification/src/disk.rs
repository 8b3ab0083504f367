//! Storage volumes, as far as choosing a root and estimating progress need
//! them.

use vstd::prelude::*;

verus! {

/// One storage volume.
#[derive(Clone, Debug)]
pub struct DiskInfo {
    pub name: String,
    pub mount_point: String,
    pub total_space: u64,
    pub available_space: u64,
}

impl DiskInfo {
    /// Whether the volume has no more space available than it has in all.
    pub open spec fn is_consistent(&self) -> bool {
        self.available_space <= self.total_space
    }

    /// The space in use: the capacity less what is available.
    pub fn used_space(&self) -> (used: u64)
        requires
            self.is_consistent(),
        ensures
            used == self.total_space - self.available_space,
    {
        self.total_space - self.available_space
    }
}

/// Whether no volume before position `end` is mounted at `mount`.
pub open spec fn none_mounted_before(disks: Seq<DiskInfo>, mount: Seq<char>, end: int) -> bool {
    forall|j: int| 0 <= j < end ==> (#[trigger] disks[j]).mount_point@ != mount
}

/// The position of the first volume mounted at `mount`, if there is one.
pub fn find_mounted(disks: &Vec<DiskInfo>, mount: &String) -> (found: Option<usize>)
    ensures
        match found {
            Some(i) => i < disks.len() && disks[i as int].mount_point@ == mount@
                && none_mounted_before(disks@, mount@, i as int),
            None => none_mounted_before(disks@, mount@, disks.len() as int),
        },
{
    let mut i: usize = 0;
    while i < disks.len()
        invariant
            i <= disks.len(),
            none_mounted_before(disks@, mount@, i as int),
        decreases disks.len() - i,
    {
        if disks[i].mount_point == *mount {
            return Some(i);
        }
        i = i + 1;
    }
    None
}

/// The space in use on the first volume mounted at `mount`, against which
/// the bytes scanned are measured; 1 where no volume is mounted there.
pub fn used_space_at(disks: &Vec<DiskInfo>, mount: &String) -> (used: u64)
    requires
        forall|i: int|
            0 <= i < disks.len() && (#[trigger] disks[i]).mount_point@ == mount@
                && none_mounted_before(disks@, mount@, i) ==> disks[i].is_consistent(),
    ensures
        forall|i: int|
            0 <= i < disks.len() && (#[trigger] disks[i]).mount_point@ == mount@
                && none_mounted_before(disks@, mount@, i) ==> used == disks[i].total_space
                - disks[i].available_space,
        none_mounted_before(disks@, mount@, disks.len() as int) ==> used == 1,
{
    match find_mounted(disks, mount) {
        Some(i) => disks[i].used_space(),
        None => 1,
    }
}

} // verus!
