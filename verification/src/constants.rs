//! Sizes shared by both tiers.

use vstd::prelude::*;

verus! {

/// Page size in bytes. Slab pages and the smallest buddy block have this size.
pub const PAGE_SIZE: usize = 4096;

/// Number of buddy size classes (4 KiB up to 1024 KiB).
pub const NUM_OF_BUDDY_SIZE: usize = 9;

/// Size in bytes of the largest buddy block; one buddy tree covers this much.
pub const MAX_BLOCK_SIZE: usize = 0x100000;

/// Number of split-state bits kept per buddy tree.
pub const BITS_PER_TREE: usize = 256;

} // verus!
