//! Half-open ranges of physical addresses.

use vstd::prelude::*;

use crate::align::{spec_align_down, spec_align_up};
use crate::phys_addr::PhysAddr;

verus! {

/// A half-open range `[start, end)` of physical addresses.
#[derive(Clone, Copy, PartialEq, Eq, Structural, Debug)]
pub struct PaddrRange {
    pub start: PhysAddr,
    pub end: PhysAddr,
}

impl PaddrRange {
    /// Well-formedness: the start never exceeds the end.
    pub open spec fn wf(self) -> bool {
        self.start@ <= self.end@
    }

    /// Whether the range contains the address.
    pub open spec fn spec_contains_addr(self, addr: int) -> bool {
        self.start@ <= addr < self.end@
    }

    /// Whether the range contains every address of `other`.
    pub open spec fn spec_contains(self, other: Self) -> bool {
        other.start@ >= self.start@ && other.end@ <= self.end@
    }

    /// Whether the ranges share at least one address.
    pub open spec fn spec_overlaps(self, other: Self) -> bool {
        self.start@ < other.end@ && other.start@ < self.end@
    }

    /// Whether one range ends exactly where the other starts.
    pub open spec fn spec_is_adjacent(self, other: Self) -> bool {
        self.end@ == other.start@ || other.end@ == self.start@
    }

    /// Creates a new range from start and end addresses.
    pub fn new(start: PhysAddr, end: PhysAddr) -> (r: Self)
        requires
            start@ <= end@,
        ensures
            r.start == start,
            r.end == end,
            r.wf(),
    {
        PaddrRange { start, end }
    }

    /// Creates a new range from a start address and a length in bytes.
    pub fn from_start_len(start: PhysAddr, len: usize) -> (r: Self)
        requires
            start@ + len <= usize::MAX,
        ensures
            r.start == start,
            r.end@ == start@ + len,
            r.wf(),
    {
        PaddrRange { start, end: start.add_offset(len) }
    }

    /// Returns the start address of the range.
    pub fn start(&self) -> (r: PhysAddr)
        ensures
            r == self.start,
    {
        self.start
    }

    /// Returns the end address of the range (exclusive).
    pub fn end(&self) -> (r: PhysAddr)
        ensures
            r == self.end,
    {
        self.end
    }

    /// Returns the length of the range in bytes.
    pub fn len(&self) -> (r: usize)
        requires
            self.wf(),
        ensures
            r == self.end@ - self.start@,
    {
        self.end.addr - self.start.addr
    }

    /// Checks if the range is empty.
    pub fn is_empty(&self) -> (r: bool)
        ensures
            r == (self.start@ == self.end@),
    {
        self.start.addr == self.end.addr
    }

    /// Checks if the range contains the given address.
    pub fn contains_addr(&self, addr: PhysAddr) -> (r: bool)
        ensures
            r == self.spec_contains_addr(addr@),
    {
        addr.addr >= self.start.addr && addr.addr < self.end.addr
    }

    /// Checks if the range contains every address of `other`.
    pub fn contains(&self, range: PaddrRange) -> (r: bool)
        ensures
            r == self.spec_contains(range),
    {
        range.start.addr >= self.start.addr && range.end.addr <= self.end.addr
    }

    /// Checks if this range overlaps with another range.
    pub fn overlaps(self, other: Self) -> (r: bool)
        ensures
            r == self.spec_overlaps(other),
    {
        self.start.addr < other.end.addr && other.start.addr < self.end.addr
    }

    /// Checks if this range is adjacent to another range: one ends where the
    /// other starts.
    pub fn is_adjacent(self, other: Self) -> (r: bool)
        ensures
            r == self.spec_is_adjacent(other),
    {
        self.end.addr == other.start.addr || other.end.addr == self.start.addr
    }

    /// Checks if this range can be merged with another range: they overlap or
    /// are adjacent.
    pub fn can_merge(self, other: Self) -> (r: bool)
        ensures
            r == (self.spec_overlaps(other) || self.spec_is_adjacent(other)),
    {
        self.overlaps(other) || self.is_adjacent(other)
    }

    /// Merges this range with another range.
    ///
    /// The merge is defined exactly when the ranges overlap or are adjacent;
    /// the result spans from the smaller start to the larger end and contains
    /// both inputs.
    pub fn merge(self, other: Self) -> (r: Option<Self>)
        requires
            self.wf(),
            other.wf(),
        ensures
            r is Some <==> self.spec_overlaps(other) || self.spec_is_adjacent(other),
            r is Some ==> {
                &&& r->0.start@ == if self.start@ < other.start@ {
                    self.start@
                } else {
                    other.start@
                }
                &&& r->0.end@ == if self.end@ > other.end@ {
                    self.end@
                } else {
                    other.end@
                }
                &&& r->0.spec_contains(self)
                &&& r->0.spec_contains(other)
                &&& r->0.wf()
            },
    {
        if self.can_merge(other) {
            let start = if self.start.addr < other.start.addr {
                self.start
            } else {
                other.start
            };
            let end = if self.end.addr > other.end.addr {
                self.end
            } else {
                other.end
            };
            Some(PaddrRange { start, end })
        } else {
            None
        }
    }

    /// Returns the intersection of this range with another range, or `None`
    /// if they do not overlap.
    pub fn intersection(self, other: Self) -> (r: Option<Self>)
        requires
            self.wf(),
            other.wf(),
        ensures
            r is Some <==> self.spec_overlaps(other),
            r is Some ==> {
                &&& r->0.start@ == if self.start@ > other.start@ {
                    self.start@
                } else {
                    other.start@
                }
                &&& r->0.end@ == if self.end@ < other.end@ {
                    self.end@
                } else {
                    other.end@
                }
                &&& self.spec_contains(r->0)
                &&& other.spec_contains(r->0)
                &&& r->0.wf()
            },
    {
        if self.overlaps(other) {
            let start = if self.start.addr > other.start.addr {
                self.start
            } else {
                other.start
            };
            let end = if self.end.addr < other.end.addr {
                self.end
            } else {
                other.end
            };
            Some(PaddrRange { start, end })
        } else {
            None
        }
    }

    /// Aligns the range outward: the start is aligned down and the end is
    /// aligned up.
    pub fn align_to(self, align: usize) -> (r: Self)
        requires
            self.wf(),
            align > 0,
            spec_align_up(self.end@, align as int) <= usize::MAX,
        ensures
            r.start@ == spec_align_down(self.start@, align as int),
            r.end@ == spec_align_up(self.end@, align as int),
            r.wf(),
            r.spec_contains(self),
    {
        proof {
            crate::align::lemma_align_down(self.start@, align as int);
            crate::align::lemma_align_up(self.end@, align as int);
        }
        PaddrRange { start: self.start.align_down(align), end: self.end.align_up(align) }
    }

    /// Returns the addresses of the range, stepping by `step` bytes, or
    /// `None` when the step does not evenly divide the length.
    pub fn iter_step(self, step: usize) -> (r: Option<Vec<PhysAddr>>)
        requires
            self.wf(),
        ensures
            r is Some <==> step != 0 && (self.end@ - self.start@) % (step as int) == 0,
            r is Some ==> {
                &&& r->0.len() == (self.end@ - self.start@) / (step as int)
                &&& forall|i: int|
                    0 <= i < r->0.len() ==> r->0[i]@ == self.start@ + i * step
            },
    {
        let len: usize = self.end.addr - self.start.addr;
        if step == 0 || len % step != 0 {
            return None;
        }
        let count: usize = len / step;
        proof {
            vstd::arithmetic::div_mod::lemma_fundamental_div_mod(len as int, step as int);
        }
        let mut v: Vec<PhysAddr> = Vec::new();
        let mut i: usize = 0;
        while i < count
            invariant
                0 < step,
                i <= count,
                self.wf(),
                count * step == self.end@ - self.start@,
                v.len() == i,
                forall|j: int| 0 <= j < i ==> v[j]@ == self.start@ + j * step,
            decreases count - i,
        {
            proof {
                assert(i * step + step == (i + 1) * step) by (nonlinear_arith);
                assert((i + 1) * step <= count * step) by (nonlinear_arith)
                    requires
                        i + 1 <= count,
                        step > 0,
                ;
                assert(i * step >= 0) by (nonlinear_arith)
                    requires
                        i >= 0,
                        step > 0,
                ;
            }
            let addr = PhysAddr { addr: self.start.addr + i * step };
            v.push(addr);
            i = i + 1;
        }
        Some(v)
    }

    /// Returns every address of the range.
    pub fn iter(self) -> (r: Option<Vec<PhysAddr>>)
        requires
            self.wf(),
        ensures
            r is Some,
            r->0.len() == self.end@ - self.start@,
            forall|i: int| 0 <= i < r->0.len() ==> r->0[i]@ == self.start@ + i,
    {
        let r = self.iter_step(1);
        proof {
            vstd::arithmetic::div_mod::lemma_mod_multiples_basic(self.end@ - self.start@, 1);
            assert((self.end@ - self.start@) * 1 == self.end@ - self.start@) by (nonlinear_arith);
        }
        r
    }

    /// Returns the 4 KiB page boundaries of the range, or `None` when the
    /// length is not a whole number of pages.
    pub fn iter_pages(self) -> (r: Option<Vec<PhysAddr>>)
        requires
            self.wf(),
        ensures
            r is Some <==> (self.end@ - self.start@) % 0x1000 == 0,
            r is Some ==> {
                &&& r->0.len() == (self.end@ - self.start@) / 0x1000
                &&& forall|i: int|
                    0 <= i < r->0.len() ==> r->0[i]@ == self.start@ + i * 0x1000
            },
    {
        self.iter_step(0x1000)
    }

    /// Returns the page boundaries of the range for the given page size, or
    /// `None` when the length is not a whole number of pages.
    pub fn iter_pages_sized(self, page_size: usize) -> (r: Option<Vec<PhysAddr>>)
        requires
            self.wf(),
        ensures
            r is Some <==> page_size != 0 && (self.end@ - self.start@) % (page_size as int) == 0,
            r is Some ==> {
                &&& r->0.len() == (self.end@ - self.start@) / (page_size as int)
                &&& forall|i: int|
                    0 <= i < r->0.len() ==> r->0[i]@ == self.start@ + i * page_size
            },
    {
        self.iter_step(page_size)
    }
}

} // verus!
