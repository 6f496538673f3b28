//! Contiguous runs of equally sized physical pages.

use vstd::prelude::*;

use crate::paddr_range::PaddrRange;
use crate::phys_addr::PhysAddr;
use crate::phys_page::PhysPage;

verus! {

/// A contiguous range of pages: a starting page and a page count.
#[derive(Clone, Copy, PartialEq, Eq, Structural, Debug)]
pub struct PhysPageRange {
    pub start: PhysPage,
    pub page_count: usize,
}

impl PhysPageRange {
    /// Well-formedness: nonzero page size and an end address that fits in a
    /// machine word.
    pub open spec fn wf(self) -> bool {
        self.start.size > 0 && self.start.addr@ + self.page_count * self.start.size <= usize::MAX
    }

    /// The first address past the range.
    pub open spec fn spec_end_addr(self) -> int {
        self.start.addr@ + self.page_count * self.start.size
    }

    /// Whether the range contains the page starting at the given address.
    pub open spec fn spec_contains_addr(self, addr: int) -> bool {
        self.start.addr@ <= addr < self.spec_end_addr()
    }

    /// Creates a new page range starting at `start` and covering `page_count`
    /// pages.
    pub fn new(start: PhysPage, page_count: usize) -> (r: Self)
        requires
            start.size > 0,
            start.addr@ + page_count * start.size <= usize::MAX,
        ensures
            r.start == start,
            r.page_count == page_count,
            r.wf(),
    {
        PhysPageRange { start, page_count }
    }

    /// Creates a page range from a start page to an end page (exclusive).
    ///
    /// Defined exactly when the two pages have the same size and the start
    /// does not lie above the end.
    pub fn from_start_end(start: PhysPage, end: PhysPage) -> (r: Option<Self>)
        requires
            start.size > 0,
            (start.size == end.size && start.addr@ <= end.addr@) ==> (end.addr@ - start.addr@) % (
            start.size as int) == 0,
        ensures
            r is Some <==> (start.size == end.size && start.addr@ <= end.addr@),
            r is Some ==> {
                &&& r->0.start == start
                &&& r->0.page_count == (end.addr@ - start.addr@) / (start.size as int)
                &&& r->0.spec_end_addr() == end.addr@
                &&& r->0.wf()
            },
    {
        if start.size != end.size || start.addr.addr > end.addr.addr {
            return None;
        }
        let count: usize = (end.addr.addr - start.addr.addr) / start.size;
        proof {
            let d = end.addr@ - start.addr@;
            let s = start.size as int;
            vstd::arithmetic::div_mod::lemma_fundamental_div_mod(d, s);
            assert(d == s * (d / s));
            assert((d / s) * s == s * (d / s)) by (nonlinear_arith);
        }
        Some(PhysPageRange { start, page_count: count })
    }

    /// Returns the starting page of the range.
    pub fn start(&self) -> (r: PhysPage)
        ensures
            r == self.start,
    {
        self.start
    }

    /// Returns the first page past the range.
    pub fn end(&self) -> (r: PhysPage)
        requires
            self.wf(),
        ensures
            r.addr@ == self.spec_end_addr(),
            r.size == self.start.size,
            self.start.wf() ==> r.wf(),
    {
        self.start.add_pages(self.page_count)
    }

    /// Returns the number of pages in the range.
    pub fn len(&self) -> (r: usize)
        ensures
            r == self.page_count,
    {
        self.page_count
    }

    /// Returns the total length of the range in bytes.
    pub fn addr_len(&self) -> (r: usize)
        requires
            self.wf(),
        ensures
            r == self.page_count * self.start.size,
    {
        proof {
            assert(self.page_count * self.start.size >= 0) by (nonlinear_arith)
                requires
                    self.page_count >= 0,
                    self.start.size > 0,
            ;
        }
        self.page_count * self.start.size
    }

    /// Determines if the range contains zero pages.
    pub fn is_empty(&self) -> (r: bool)
        requires
            self.wf(),
        ensures
            r == (self.page_count == 0),
    {
        proof {
            assert(self.page_count * self.start.size == 0 <==> self.page_count == 0)
                by (nonlinear_arith)
                requires
                    self.start.size > 0,
                    self.page_count >= 0,
            ;
        }
        self.addr_len() == 0
    }

    /// Converts this page range to the address range it covers.
    pub fn as_addr_range(&self) -> (r: PaddrRange)
        requires
            self.wf(),
        ensures
            r.start == self.start.addr,
            r.end@ == self.spec_end_addr(),
            r.wf(),
    {
        proof {
            assert(self.page_count * self.start.size >= 0) by (nonlinear_arith)
                requires
                    self.page_count >= 0,
                    self.start.size > 0,
            ;
        }
        let end = self.end();
        PaddrRange { start: self.start.addr, end: end.addr }
    }

    /// Checks if this range contains a page of the same size.
    pub fn contains(&self, page: PhysPage) -> (r: bool)
        requires
            self.wf(),
            self.start.size == page.size,
        ensures
            r == self.spec_contains_addr(page.addr@),
    {
        let start_addr = self.start.addr.addr;
        let end_addr = self.end().addr.addr;
        let page_addr = page.addr.addr;
        start_addr <= page_addr && page_addr < end_addr
    }

    /// Checks if this range completely contains another range of the same
    /// page size.
    pub fn contains_range(&self, other: Self) -> (r: bool)
        requires
            self.wf(),
            other.wf(),
            self.start.size == other.start.size,
        ensures
            r == (self.start.addr@ <= other.start.addr@ && other.spec_end_addr()
                <= self.spec_end_addr()),
    {
        let self_start = self.start.addr.addr;
        let self_end = self.end().addr.addr;
        let other_start = other.start.addr.addr;
        let other_end = other.end().addr.addr;
        self_start <= other_start && other_end <= self_end
    }

    /// Checks if this range is completely contained by another range.
    pub fn contained_by(&self, other: Self) -> (r: bool)
        requires
            self.wf(),
            other.wf(),
            self.start.size == other.start.size,
        ensures
            r == (other.start.addr@ <= self.start.addr@ && self.spec_end_addr()
                <= other.spec_end_addr()),
    {
        other.contains_range(*self)
    }

    /// Checks if this range shares at least one page with another range of
    /// the same page size.
    pub fn intersects(&self, other: Self) -> (r: bool)
        requires
            self.wf(),
            other.wf(),
            self.start.size == other.start.size,
        ensures
            r == (self.start.addr@ < other.spec_end_addr() && other.start.addr@
                < self.spec_end_addr()),
    {
        let self_start = self.start.addr.addr;
        let self_end = self.end().addr.addr;
        let other_start = other.start.addr.addr;
        let other_end = other.end().addr.addr;
        self_start < other_end && other_start < self_end
    }

    /// Calculates the overlapping portion of two ranges, or `None` if they
    /// do not intersect.
    pub fn intersection(&self, other: Self) -> (r: Option<Self>)
        requires
            self.wf(),
            other.wf(),
            self.start.wf(),
            other.start.wf(),
            self.start.size == other.start.size,
        ensures
            r is Some <==> (self.start.addr@ < other.spec_end_addr() && other.start.addr@
                < self.spec_end_addr()),
            r is Some ==> {
                &&& r->0.start.addr@ == if self.start.addr@ > other.start.addr@ {
                    self.start.addr@
                } else {
                    other.start.addr@
                }
                &&& r->0.spec_end_addr() == if self.spec_end_addr() < other.spec_end_addr() {
                    self.spec_end_addr()
                } else {
                    other.spec_end_addr()
                }
                &&& r->0.start.size == self.start.size
                &&& r->0.wf()
            },
    {
        if !self.intersects(other) {
            return None;
        }
        let self_start = self.start.addr.addr;
        let self_end = self.end().addr.addr;
        let other_start = other.start.addr.addr;
        let other_end = other.end().addr.addr;

        let start_addr: usize = if self_start > other_start {
            self_start
        } else {
            other_start
        };
        let end_addr: usize = if self_end < other_end {
            self_end
        } else {
            other_end
        };

        let start_page = PhysPage::new_custom_unchecked(PhysAddr { addr: start_addr }, self.start.size);
        let end_page = PhysPage::new_custom_unchecked(PhysAddr { addr: end_addr }, self.start.size);
        proof {
            lemma_same_size_diff_divisible(self.start.addr@, other.start.addr@, self.page_count as int, other.page_count as int, start_addr as int, end_addr as int, self.start.size as int);
        }
        Self::from_start_end(start_page, end_page)
    }

    /// Calculates the smallest range that contains both ranges, which must
    /// share one page size.
    pub fn union(&self, other: Self) -> (r: Option<Self>)
        requires
            self.wf(),
            other.wf(),
            self.start.wf(),
            other.start.wf(),
            self.start.size == other.start.size,
        ensures
            r is Some,
            r->0.start.addr@ == if self.start.addr@ < other.start.addr@ {
                self.start.addr@
            } else {
                other.start.addr@
            },
            r->0.spec_end_addr() == if self.spec_end_addr() > other.spec_end_addr() {
                self.spec_end_addr()
            } else {
                other.spec_end_addr()
            },
            r->0.start.size == self.start.size,
            r->0.wf(),
    {
        let self_start = self.start.addr.addr;
        let self_end = self.end().addr.addr;
        let other_start = other.start.addr.addr;
        let other_end = other.end().addr.addr;

        let start_addr: usize = if self_start < other_start {
            self_start
        } else {
            other_start
        };
        let end_addr: usize = if self_end > other_end {
            self_end
        } else {
            other_end
        };

        let start_page = PhysPage::new_custom_unchecked(PhysAddr { addr: start_addr }, self.start.size);
        let end_page = PhysPage::new_custom_unchecked(PhysAddr { addr: end_addr }, self.start.size);
        proof {
            lemma_same_size_diff_divisible(self.start.addr@, other.start.addr@, self.page_count as int, other.page_count as int, start_addr as int, end_addr as int, self.start.size as int);
        }
        Self::from_start_end(start_page, end_page)
    }

    /// Shifts the whole range by a signed byte offset; `None` when the new
    /// start would fall outside the address space.
    pub fn off_by(&self, offset: isize) -> (r: Option<Self>)
        requires
            self.wf(),
        ensures
            r is Some <==> (0 <= self.start.addr@ + offset && self.start.addr@ + offset
                + self.page_count * self.start.size <= usize::MAX),
            r is Some ==> {
                &&& r->0.start.addr@ == self.start.addr@ + offset
                &&& r->0.start.size == self.start.size
                &&& r->0.page_count == self.page_count
                &&& r->0.wf()
            },
    {
        if offset >= 0 {
            let off = offset as usize;
            if off > usize::MAX - self.start.addr.addr || usize::MAX - off - self.start.addr.addr
                < self.addr_len() {
                return None;
            }
            let addr = PhysAddr { addr: self.start.addr.addr + off };
            Some(PhysPageRange {
                start: PhysPage::new_custom_unchecked(addr, self.start.size),
                page_count: self.page_count,
            })
        } else {
            let back: usize = ((-(offset + 1)) as usize) + 1;
            if back > self.start.addr.addr {
                return None;
            }
            let addr = PhysAddr { addr: self.start.addr.addr - back };
            Some(PhysPageRange {
                start: PhysPage::new_custom_unchecked(addr, self.start.size),
                page_count: self.page_count,
            })
        }
    }

    /// Returns every page of the range, in ascending address order.
    pub fn iter(&self) -> (r: Vec<PhysPage>)
        requires
            self.wf(),
        ensures
            r.len() == self.page_count,
            forall|i: int|
                0 <= i < r.len() ==> r[i] == (PhysPage {
                    addr: PhysAddr { addr: (self.start.addr@ + i * self.start.size) as usize },
                    size: self.start.size,
                }),
    {
        let size = self.start.size;
        let count = self.page_count;
        let mut v: Vec<PhysPage> = Vec::new();
        let mut i: usize = 0;
        while i < count
            invariant
                0 < size,
                i <= count,
                size == self.start.size,
                count == self.page_count,
                self.wf(),
                v.len() == i,
                forall|j: int|
                    0 <= j < i ==> v[j] == (PhysPage {
                        addr: PhysAddr { addr: (self.start.addr@ + j * size) as usize },
                        size: size,
                    }),
            decreases count - i,
        {
            proof {
                assert(i * size + size == (i + 1) * size) by (nonlinear_arith);
                assert((i + 1) * size <= count * size) by (nonlinear_arith)
                    requires
                        i + 1 <= count,
                        size > 0,
                ;
                assert(i * size >= 0) by (nonlinear_arith)
                    requires
                        i >= 0,
                        size > 0,
                ;
            }
            let addr = PhysAddr { addr: self.start.addr.addr + i * size };
            v.push(PhysPage { addr, size });
            i = i + 1;
        }
        v
    }
}

/// For two page runs of one size, the gap between any two of the four
/// boundary addresses is a whole number of pages.
proof fn lemma_same_size_diff_divisible(
    a_start: int,
    b_start: int,
    a_count: int,
    b_count: int,
    lo: int,
    hi: int,
    size: int,
)
    requires
        size > 0,
        a_start % size == 0,
        b_start % size == 0,
        a_count >= 0,
        b_count >= 0,
        lo == a_start || lo == b_start || lo == a_start + a_count * size || lo == b_start + b_count
            * size,
        hi == a_start || hi == b_start || hi == a_start + a_count * size || hi == b_start + b_count
            * size,
    ensures
        lo <= hi ==> (hi - lo) % size == 0,
{
    let qa = a_start / size;
    let qb = b_start / size;
    vstd::arithmetic::div_mod::lemma_fundamental_div_mod(a_start, size);
    vstd::arithmetic::div_mod::lemma_fundamental_div_mod(b_start, size);
    assert(a_start == (a_start / size) * size) by (nonlinear_arith)
        requires
            a_start == size * (a_start / size),
    ;
    assert(b_start == (b_start / size) * size) by (nonlinear_arith)
        requires
            b_start == size * (b_start / size),
    ;
    assert(a_start + a_count * size == (qa + a_count) * size) by (nonlinear_arith)
        requires
            a_start == qa * size,
    ;
    assert(b_start + b_count * size == (qb + b_count) * size) by (nonlinear_arith)
        requires
            b_start == qb * size,
    ;
    assert forall|m: int, n: int| #[trigger] ((n * size - m * size) % size) == 0 by {
        assert(n * size - m * size == (n - m) * size) by (nonlinear_arith);
        vstd::arithmetic::div_mod::lemma_mod_multiples_basic(n - m, size);
    }
}

} // verus!
