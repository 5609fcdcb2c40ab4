use vstd::prelude::*;

verus! {

/// Where the kernel heap is mapped in virtual memory.
pub const HEAP_START: u64 = 0x4444_4444_0000;

/// The size of the kernel heap: 24 MiB.
pub const HEAP_SIZE: u64 = 0x180_0000;

} // verus!
