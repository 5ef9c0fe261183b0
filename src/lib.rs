use vstd::prelude::*;

pub mod arith;
pub mod free_list;
pub mod free_list_allocator;
pub mod grower;
pub mod heap;
pub mod trivial_allocators;

pub use arith::{full_size, multiple_below, round_up};
pub use free_list::FreeRegion;
pub use free_list_allocator::FreeListAllocator;
pub use grower::{BoundedGrower, MemoryGrower, PageCount, ERROR_PAGE_COUNT};
pub use trivial_allocators::{FailAllocator, LeakingAllocator, LeakingPageAllocator};

verus! {

/// Size of a page of linear memory, in bytes.
pub const PAGE_SIZE: usize = 65536;

/// Size of a free-region header: two machine words (a link and a size).
pub const NODE_SIZE: usize = (usize::BITS / 4) as usize;

} // verus!
