//! A first-fit free-list allocator over two disjoint memory regions.
//!
//! A [`RegionHeap`] keeps the free list of one contiguous address range.
//! A [`RegionPair`] owns two of them and states the policy that joins them:
//! the first region is preferred, the second is overflow, and a released
//! address goes back to the region whose range holds it.  [`EspHeap`] is that
//! same policy for shared use, each region behind its own critical-section
//! mutex.
//!
//! The allocator hands out addresses, never references: block descriptors
//! live in the allocator, not in the memory they describe.

pub mod block;
pub mod free_bytes;
pub mod free_list;
pub mod heap;
pub mod laws;
pub mod pair;
pub mod region;
pub mod request;

pub use block::{Block, MIN_BLOCK_SIZE, REGION_OVERHEAD};
pub use heap::EspHeap;
pub use pair::{RegionId, RegionPair};
pub use region::RegionHeap;
pub use request::{Reply, Request};
