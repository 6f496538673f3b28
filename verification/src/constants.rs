//! Build-time parameters of the kernel's memory layout.

use vstd::prelude::*;

verus! {

/// The base page size, in bytes.
pub const PAGE_SIZE: usize = 0x1000;

/// The size of a 2 MiB huge page, in bytes.
pub const SIZE_2M: usize = 0x200000;

/// The size of a 1 GiB huge page, in bytes.
pub const SIZE_1G: usize = 0x40000000;

/// The size of each user stack, in bytes.
pub const USER_STACK_SIZE: usize = 0x10000;

/// The base of the virtual region where cross-space windows are placed.
pub const CROSS_WINDOW_BASE: usize = 0x8000_0000;

/// The top of the virtual region usable for cross-space windows: the span
/// directly addressable by a three-level table.
pub const CROSS_WINDOW_LIMIT: u64 = 0x80_0000_0000;

/// The kernel-virtual base of the linear window that maps all physical RAM.
pub const LINEAR_WINDOW_BASE: u64 = 0xffff_ffc0_0000_0000;

} // verus!
