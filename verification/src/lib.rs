//! Memory management for a freestanding RISC-V (sv39) kernel: a physical
//! page-frame allocator over a descriptor store, and a three-level virtual
//! memory page-table manager built on top of it.
//!
//! Physical memory is modeled explicitly: the allocator owns the word
//! contents of the usable heap region, so zero-filling, page-table entry
//! writes and translation walks are all ordinary verified code.

pub mod addr;
pub mod allocator;
pub mod init;
pub mod page;
pub mod table;

use vstd::prelude::*;

verus! {

/// log2 of the page size: pages are 4096 bytes.
pub const PAGE_ORDER: usize = 12;

/// Size of one page frame in bytes.
pub const PAGE_SIZE: u64 = 4096;

} // verus!
