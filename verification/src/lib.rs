//! Virtual-memory core of a small operating-system kernel.
//!
//! The crate provides strongly typed physical and virtual addresses with
//! alignment algebra, a bump-plus-free-list physical frame allocator, a
//! multi-level page table with map/unmap/query, cross-space windows and bulk
//! byte access through a modelled linear window, and per-process memory
//! spaces built from mapping areas.

use vstd::prelude::*;

pub mod align;
pub mod constants;
pub mod cross;
pub mod flags;
pub mod hex_text;
pub mod mapping;
pub mod memory_space;
pub mod frame;
pub mod frame_allocator;
pub mod phys_mem;
pub mod mmu;
pub mod page_table;
pub mod paddr_range;
pub mod phys_page_range;
pub mod pte;
pub mod phys_page;
pub mod phys_addr;
pub mod vaddr_range;
pub mod virt_page;
pub mod virt_page_range;
pub mod virt_addr;

verus! {

} // verus!
