//! Pages of virtual memory: an address paired with a page size.

use vstd::prelude::*;

use crate::align::{spec_align_down, spec_is_aligned};
use crate::constants::{PAGE_SIZE, SIZE_1G, SIZE_2M};
use crate::vaddr_range::VaddrRange;
use crate::virt_addr::VirtAddr;

verus! {

/// A page of virtual memory: a starting address and a size in bytes.
///
/// A well-formed page has a nonzero size and an address aligned to it.
#[derive(Clone, Copy, PartialEq, Eq, Structural, Debug, PartialOrd, Ord, Hash)]
pub struct VirtPage {
    pub addr: VirtAddr,
    pub size: usize,
}

impl VirtPage {
    /// Well-formedness: nonzero size, address aligned to the size.
    pub open spec fn wf(self) -> bool {
        self.size > 0 && spec_is_aligned(self.addr@, self.size as int)
    }

    /// Creates a new 4 KiB page; `None` if the address is not 4 KiB aligned.
    pub fn new_4k(addr: VirtAddr) -> (r: Option<Self>)
        ensures
            r is Some <==> spec_is_aligned(addr@, PAGE_SIZE as int),
            r is Some ==> r->0 == (VirtPage { addr, size: PAGE_SIZE }) && r->0.wf(),
    {
        Self::new_custom(addr, PAGE_SIZE)
    }

    /// Creates a new 4 KiB page, aligning the address down.
    pub fn new_aligned_4k(addr: VirtAddr) -> (r: Self)
        ensures
            r.addr@ == spec_align_down(addr@, PAGE_SIZE as int),
            r.size == PAGE_SIZE,
            r.wf(),
    {
        Self::new_custom_aligned(addr, PAGE_SIZE)
    }

    /// Creates a new 2 MiB page; `None` if the address is not 2 MiB aligned.
    pub fn new_2m(addr: VirtAddr) -> (r: Option<Self>)
        ensures
            r is Some <==> spec_is_aligned(addr@, SIZE_2M as int),
            r is Some ==> r->0 == (VirtPage { addr, size: SIZE_2M }) && r->0.wf(),
    {
        Self::new_custom(addr, SIZE_2M)
    }

    /// Creates a new 2 MiB page, aligning the address down.
    pub fn new_aligned_2m(addr: VirtAddr) -> (r: Self)
        ensures
            r.addr@ == spec_align_down(addr@, SIZE_2M as int),
            r.size == SIZE_2M,
            r.wf(),
    {
        Self::new_custom_aligned(addr, SIZE_2M)
    }

    /// Creates a new 1 GiB page; `None` if the address is not 1 GiB aligned.
    pub fn new_1g(addr: VirtAddr) -> (r: Option<Self>)
        ensures
            r is Some <==> spec_is_aligned(addr@, SIZE_1G as int),
            r is Some ==> r->0 == (VirtPage { addr, size: SIZE_1G }) && r->0.wf(),
    {
        Self::new_custom(addr, SIZE_1G)
    }

    /// Creates a new 1 GiB page, aligning the address down.
    pub fn new_aligned_1g(addr: VirtAddr) -> (r: Self)
        ensures
            r.addr@ == spec_align_down(addr@, SIZE_1G as int),
            r.size == SIZE_1G,
            r.wf(),
    {
        Self::new_custom_aligned(addr, SIZE_1G)
    }

    /// Creates a new page with a custom size; `None` if the size is zero or
    /// the address is not aligned to it.
    pub fn new_custom(addr: VirtAddr, size: usize) -> (r: Option<Self>)
        ensures
            r is Some <==> size != 0 && spec_is_aligned(addr@, size as int),
            r is Some ==> r->0 == (VirtPage { addr, size }) && r->0.wf(),
    {
        if size != 0 && addr.is_aligned(size) {
            Some(VirtPage { addr, size })
        } else {
            None
        }
    }

    /// Creates a new page with a custom size, aligning the address down.
    pub fn new_custom_aligned(addr: VirtAddr, size: usize) -> (r: Self)
        requires
            size > 0,
        ensures
            r.addr@ == spec_align_down(addr@, size as int),
            r.size == size,
            r.wf(),
    {
        proof {
            crate::align::lemma_align_down(addr@, size as int);
        }
        VirtPage { addr: addr.align_down(size), size }
    }

    /// Creates a new page without validating alignment or size.
    pub fn new_custom_unchecked(addr: VirtAddr, size: usize) -> (r: Self)
        ensures
            r == (VirtPage { addr, size }),
    {
        VirtPage { addr, size }
    }

    /// Returns the starting address of this page.
    pub fn addr(&self) -> (r: VirtAddr)
        ensures
            r == self.addr,
    {
        self.addr
    }

    /// Returns the size of this page in bytes.
    pub fn size(&self) -> (r: usize)
        ensures
            r == self.size,
    {
        self.size
    }

    /// Converts this page to the address range it covers.
    pub fn as_range(&self) -> (r: VaddrRange)
        requires
            self.addr@ + self.size <= usize::MAX,
        ensures
            r.start == self.addr,
            r.end@ == self.addr@ + self.size,
            r.wf(),
    {
        VaddrRange { start: self.addr, end: self.addr.add_offset(self.size) }
    }

    /// Attempts to view an address range as a single page of the given size:
    /// the range length must be a multiple of the page size and the start
    /// must be aligned to it.
    pub fn try_from_range(range: VaddrRange, page_size: usize) -> (r: Option<Self>)
        requires
            range.wf(),
        ensures
            r is Some <==> page_size != 0 && (range.end@ - range.start@) % (page_size as int) == 0
                && spec_is_aligned(range.start@, page_size as int),
            r is Some ==> r->0 == (VirtPage { addr: range.start, size: page_size }) && r->0.wf(),
    {
        if page_size == 0 {
            return None;
        }
        let len: usize = range.end.addr - range.start.addr;
        if len % page_size != 0 {
            None
        } else {
            Self::new_custom(range.start, page_size)
        }
    }

    /// Returns the page number: the address divided by the page size.
    pub fn page_num(&self) -> (r: usize)
        requires
            self.size > 0,
        ensures
            r == self.addr@ / (self.size as int),
    {
        self.addr.addr / self.size
    }

    /// The number of pages from this page up to `other`, which must have the
    /// same size and must not lie below this page.
    pub fn diff_page_count(&self, other: Self) -> (r: usize)
        requires
            self.size > 0,
            self.size == other.size,
            self.addr@ <= other.addr@,
        ensures
            r == (other.addr@ - self.addr@) / (self.size as int),
    {
        (other.addr.addr - self.addr.addr) / self.size
    }

    /// Shifts the page up by `n` pages.
    pub fn add_pages(self, n: usize) -> (r: Self)
        requires
            self.size > 0,
            self.addr@ + n * self.size <= usize::MAX,
        ensures
            r.addr@ == self.addr@ + n * self.size,
            r.size == self.size,
            self.wf() ==> r.wf(),
    {
        proof {
            assert(n * self.size >= 0) by (nonlinear_arith)
                requires
                    n >= 0,
                    self.size > 0,
            ;
            if self.wf() {
                vstd::arithmetic::div_mod::lemma_mod_multiples_vanish(
                    n as int,
                    self.addr@,
                    self.size as int,
                );
                assert((self.size as int) * (n as int) == (n as int) * (self.size as int))
                    by (nonlinear_arith);
            }
        }
        VirtPage { addr: self.addr.add_offset(n * self.size), size: self.size }
    }

    /// Shifts the page down by `n` pages.
    pub fn sub_pages(self, n: usize) -> (r: Self)
        requires
            self.size > 0,
            n * self.size <= self.addr@,
        ensures
            r.addr@ == self.addr@ - n * self.size,
            r.size == self.size,
            self.wf() ==> r.wf(),
    {
        proof {
            assert(n * self.size >= 0) by (nonlinear_arith)
                requires
                    n >= 0,
                    self.size > 0,
            ;
            if self.wf() {
                vstd::arithmetic::div_mod::lemma_mod_multiples_vanish(
                    -(n as int),
                    self.addr@,
                    self.size as int,
                );
                assert((self.size as int) * (-(n as int)) == -((n as int) * (self.size as int)))
                    by (nonlinear_arith);
            }
        }
        VirtPage { addr: self.addr.sub_offset(n * self.size), size: self.size }
    }
}

} // verus!
