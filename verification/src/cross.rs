//! Window accounting for cross-space mappings.
//!
//! A page table that mirrors pages of another address space carves windows
//! out of its own virtual space. The allocator keeps the windows sorted by
//! address and places each new window after the last one; a window, once
//! mapped, keeps a stable address until it is removed.

use vstd::prelude::*;

use crate::vaddr_range::VaddrRange;
use crate::virt_addr::VirtAddr;

verus! {

/// One window: a span of the owner's virtual space mirroring foreign pages.
#[derive(Clone, Copy, PartialEq, Eq, Structural, Debug)]
pub struct CrossMappingWindow {
    pub vaddr: VirtAddr,
    pub size: usize,
    pub mutable: bool,
}

impl CrossMappingWindow {
    /// The virtual addresses the window spans.
    pub fn vaddr_range(&self) -> (r: VaddrRange)
        requires
            self.vaddr@ + self.size <= usize::MAX,
        ensures
            r.start == self.vaddr,
            r.end@ == self.vaddr@ + self.size,
            r.wf(),
    {
        VaddrRange::from_start_len(self.vaddr, self.size)
    }

    /// Whether the window covers the address, as a spec-level function.
    pub open spec fn spec_contains(self, vaddr: int) -> bool {
        self.vaddr@ <= vaddr < self.vaddr@ + self.size
    }
}

/// The sorted set of windows carved from the owner's virtual space.
pub struct CrossMappingAllocator {
    pub base: VirtAddr,
    pub windows: Vec<CrossMappingWindow>,
}

impl CrossMappingAllocator {
    /// Well-formedness: windows lie at or above the base, in ascending
    /// order without overlap, and end within the address space.
    pub open spec fn wf(self) -> bool {
        &&& forall|i: int|
            0 <= i < self.windows@.len() ==> self.base@ <= #[trigger] self.windows@[i].vaddr@
                && self.windows@[i].vaddr@ + self.windows@[i].size <= usize::MAX
        &&& forall|i: int, j: int|
            0 <= i < j < self.windows@.len() ==> #[trigger] self.windows@[i].vaddr@
                + self.windows@[i].size <= #[trigger] self.windows@[j].vaddr@
    }

    /// The address at which the next window will be placed.
    pub open spec fn spec_next(self) -> int {
        if self.windows@.len() == 0 {
            self.base@
        } else {
            self.windows@.last().vaddr@ + self.windows@.last().size
        }
    }

    /// Creates an allocator placing windows from `base` on.
    pub fn new(base: VirtAddr) -> (r: Self)
        ensures
            r.base == base,
            r.windows@.len() == 0,
            r.wf(),
    {
        CrossMappingAllocator { base, windows: Vec::new() }
    }

    /// The address at which the next window will be placed.
    pub fn next_addr(&self) -> (r: usize)
        requires
            self.wf(),
        ensures
            r == self.spec_next(),
    {
        let n = self.windows.len();
        if n == 0 {
            self.base.addr
        } else {
            let last = self.windows[n - 1];
            proof {
                assert(self.windows@[n - 1].vaddr@ + self.windows@[n - 1].size <= usize::MAX);
            }
            last.vaddr.addr + last.size
        }
    }

    /// Reserves a new window of `size` bytes after the last one and returns
    /// its address.
    pub fn alloc_window(&mut self, size: usize, mutable: bool) -> (r: VirtAddr)
        requires
            old(self).wf(),
            old(self).spec_next() + size <= usize::MAX,
        ensures
            (final(self)).wf(),
            r@ == old(self).spec_next(),
            (final(self)).base == old(self).base,
            (final(self)).windows@ == old(self).windows@.push(
                CrossMappingWindow { vaddr: VirtAddr { addr: r.addr }, size, mutable },
            ),
            (final(self)).spec_next() == old(self).spec_next() + size,
    {
        let n = self.windows.len();
        let vaddr = if n == 0 {
            self.base
        } else {
            let last = self.windows[n - 1];
            VirtAddr { addr: last.vaddr.addr + last.size }
        };
        let window = CrossMappingWindow { vaddr, size, mutable };
        self.windows.push(window);
        proof {
            assert forall|i: int, j: int|
                0 <= i < j < self.windows@.len() implies #[trigger] self.windows@[i].vaddr@
                + self.windows@[i].size <= #[trigger] self.windows@[j].vaddr@ by {
                if j < self.windows@.len() - 1 {
                    assert(self.windows@[i] == old(self).windows@[i]);
                    assert(self.windows@[j] == old(self).windows@[j]);
                } else {
                    assert(self.windows@[j] == window);
                    if i < n - 1 {
                        assert(self.windows@[i] == old(self).windows@[i]);
                        assert(old(self).windows@[i].vaddr@ + old(self).windows@[i].size <= old(
                            self,
                        ).windows@[n - 1].vaddr@);
                    }
                }
            }
        }
        vaddr
    }

    /// Removes and returns the window covering `vaddr`, if any.
    pub fn remove(&mut self, vaddr: VirtAddr) -> (r: Option<CrossMappingWindow>)
        requires
            old(self).wf(),
        ensures
            (final(self)).wf(),
            (final(self)).base == old(self).base,
            r is Some <==> exists|i: int|
                0 <= i < old(self).windows@.len() && (#[trigger] old(self).windows@[i]).spec_contains(
                    vaddr@,
                ),
            r is None ==> *final(self) == *old(self),
            r is Some ==> exists|i: int|
                0 <= i < old(self).windows@.len() && (#[trigger] old(self).windows@[i]) == r->0
                    && r->0.spec_contains(vaddr@) && (final(self)).windows@ == old(
                    self,
                ).windows@.remove(i),
    {
        let n = self.windows.len();
        let mut i: usize = 0;
        while i < n
            invariant
                i <= n,
                n == self.windows@.len(),
                *self == *old(self),
                self.wf(),
                forall|k: int|
                    0 <= k < i ==> !(#[trigger] self.windows@[k]).spec_contains(vaddr@),
            decreases n - i,
        {
            let w = self.windows[i];
            if w.vaddr.addr <= vaddr.addr && vaddr.addr - w.vaddr.addr < w.size {
                self.windows.remove(i);
                proof {
                    let pre = old(self).windows@;
                    assert(w == pre[i as int]);
                    assert(w.spec_contains(vaddr@));
                    assert forall|a: int, b: int|
                        0 <= a < b < self.windows@.len() implies #[trigger] self.windows@[a].vaddr@
                        + self.windows@[a].size <= #[trigger] self.windows@[b].vaddr@ by {
                        let a0 = if a < i { a } else { a + 1 };
                        let b0 = if b < i { b } else { b + 1 };
                        assert(self.windows@[a] == pre[a0]);
                        assert(self.windows@[b] == pre[b0]);
                    }
                }
                return Some(w);
            }
            i = i + 1;
        }
        None
    }
}

} // verus!
