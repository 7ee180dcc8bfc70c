//! The top-level page table of a new address space.
use vstd::prelude::*;

verus! {

/// Entries of a top-level (PML4) page table.
pub const PML4_ENTRIES: usize = 512;

/// First entry of the upper half, which maps the kernel and is shared by every
/// address space.
pub const KERNEL_HALF_START: usize = 256;

/// The entries of a new top-level table: the lower (user) half empty, the upper
/// (kernel) half copied from the running kernel's table `kernel`.
pub fn new_pml4_entries(kernel: &[u64]) -> (r: Vec<u64>)
    requires
        kernel@.len() == PML4_ENTRIES,
    ensures
        r@.len() == PML4_ENTRIES,
        forall|i: int| 0 <= i < KERNEL_HALF_START ==> r@[i] == 0,
        forall|i: int| KERNEL_HALF_START <= i < PML4_ENTRIES ==> r@[i] == kernel@[i],
{
    let mut table: Vec<u64> = Vec::new();
    for i in 0..PML4_ENTRIES
        invariant
            table@.len() == i,
            forall|k: int| 0 <= k < i ==> table@[k] == 0,
    {
        table.push(0);
    }
    for i in KERNEL_HALF_START..PML4_ENTRIES
        invariant
            kernel@.len() == PML4_ENTRIES,
            table@.len() == PML4_ENTRIES,
            forall|k: int| 0 <= k < KERNEL_HALF_START ==> table@[k] == 0,
            forall|k: int| KERNEL_HALF_START <= k < i ==> table@[k] == kernel@[k],
    {
        table.set(i, kernel[i]);
    }
    table
}

} // verus!
