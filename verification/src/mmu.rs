//! The hardware-independent MMU surface: error taxonomy, page sizes, and the
//! linear-window address arithmetic.

use vstd::prelude::*;

use crate::constants::{LINEAR_WINDOW_BASE, PAGE_SIZE, SIZE_1G, SIZE_2M};
use crate::virt_addr::VirtAddr;

verus! {

/// Errors visible at the MMU surface.
#[derive(Clone, Copy, PartialEq, Eq, Structural, Debug)]
pub enum MMUError {
    InvalidAddress,
    PrivilegeError,
    /// Mapped, but not to a proper frame.
    AccessFault,
    MisalignedAddress,
    Borrowed,
    CanNotModify,
    PageNotReadable { vaddr: VirtAddr },
    PageNotWritable { vaddr: VirtAddr },
}

/// Errors internal to the page-table implementation.
#[derive(Clone, Copy, PartialEq, Eq, Structural, Debug)]
pub enum PagingError {
    /// The address is not aligned to the page size.
    NotAligned,
    /// The mapping is not present.
    NotMapped,
    /// The mapping is already present.
    AlreadyMapped,
    /// The page table entry represents a huge page, but the target physical
    /// frame is 4 KiB in size.
    MappedToHugePage,
    CanNotModify,
    OutOfMemory,
}

pub type PagingResult<TValue> = Result<TValue, PagingError>;

impl PagingError {
    /// The fixed translation of the paging errors that escape to the MMU
    /// surface: `NotAligned` becomes `MisalignedAddress` and `NotMapped`
    /// becomes `InvalidAddress`. The others indicate caller-side invariant
    /// violations and never escape.
    pub fn to_mmu_error(self) -> (r: MMUError)
        requires
            self == PagingError::NotAligned || self == PagingError::NotMapped,
        ensures
            self == PagingError::NotAligned ==> r == MMUError::MisalignedAddress,
            self == PagingError::NotMapped ==> r == MMUError::InvalidAddress,
    {
        match self {
            PagingError::NotAligned => MMUError::MisalignedAddress,
            _ => MMUError::InvalidAddress,
        }
    }
}

/// The page sizes supported by the hardware page table.
#[derive(Clone, Copy, PartialEq, Eq, Structural, Debug)]
pub enum PageSize {
    /// 4 KiB.
    _4K,
    /// 2 MiB.
    _2M,
    /// 1 GiB.
    _1G,
    /// A custom size in bytes; meaningful when a multiple of the base page
    /// size.
    Custom(usize),
}

impl PageSize {
    /// The size in bytes, as a spec-level function.
    pub open spec fn spec_as_usize(self) -> usize {
        match self {
            PageSize::_4K => PAGE_SIZE,
            PageSize::_2M => SIZE_2M,
            PageSize::_1G => SIZE_1G,
            PageSize::Custom(v) => v,
        }
    }

    /// The size in bytes.
    pub fn as_usize(&self) -> (r: usize)
        ensures
            r == self.spec_as_usize(),
    {
        match self {
            PageSize::_4K => PAGE_SIZE,
            PageSize::_2M => SIZE_2M,
            PageSize::_1G => SIZE_1G,
            PageSize::Custom(v) => *v,
        }
    }
}

impl From<usize> for PageSize {
    fn from(value: usize) -> (r: Self) {
        if value == PAGE_SIZE {
            PageSize::_4K
        } else if value == SIZE_2M {
            PageSize::_2M
        } else if value == SIZE_1G {
            PageSize::_1G
        } else {
            PageSize::Custom(value)
        }
    }
}

impl vstd::std_specs::convert::FromSpecImpl<usize> for PageSize {
    open spec fn obeys_from_spec() -> bool {
        true
    }

    open spec fn from_spec(v: usize) -> Self {
        if v == PAGE_SIZE {
            PageSize::_4K
        } else if v == SIZE_2M {
            PageSize::_2M
        } else if v == SIZE_1G {
            PageSize::_1G
        } else {
            PageSize::Custom(v)
        }
    }
}

/// Checks if a kernel-virtual address lies within the linear mapping window.
pub fn is_linear_window(vaddr: u64) -> (r: bool)
    ensures
        r == (vaddr >= LINEAR_WINDOW_BASE),
{
    vaddr >= LINEAR_WINDOW_BASE
}

/// The kernel-virtual address in the linear mapping window that corresponds
/// to the given physical address: identity plus the window base.
pub fn get_linear_vaddr(paddr: u64) -> (r: u64)
    requires
        paddr < LINEAR_WINDOW_BASE,
        paddr + LINEAR_WINDOW_BASE <= u64::MAX,
    ensures
        r == paddr + LINEAR_WINDOW_BASE,
{
    paddr + LINEAR_WINDOW_BASE
}

} // verus!
