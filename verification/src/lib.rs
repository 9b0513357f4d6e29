//! A two-tier allocator for a fixed heap range: a buddy system hands out
//! power-of-two blocks of pages, and slab caches carve single pages into
//! fixed-size objects.
//!
//! The allocator keeps its bookkeeping outside the heap it manages. It deals
//! in addresses only and never reads or writes the managed memory, so every
//! operation is a pure state transition that can be reasoned about.

pub mod buddy;
pub mod constants;
pub mod slab;

pub use crate::slab::SlabAllocator;
