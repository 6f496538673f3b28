//! A model of the physical memory reachable through the kernel's linear
//! window.
//!
//! On hardware the kernel touches physical memory through a fixed
//! kernel-virtual window that maps all usable RAM one-to-one
//! (`linear_vaddr(p) = p + LINEAR_WINDOW_BASE`). Here that memory is held as
//! plain bytes, addressed by physical address, so every access the page
//! table and the loader make through the window is verified against it.

use vstd::prelude::*;

use crate::phys_addr::PhysAddr;
use vstd::pervasive::VecAdditionalExecFns;

verus! {

/// The bytes of the physical-memory arena `[base, base + bytes.len())`.
pub struct PhysMem {
    pub base: PhysAddr,
    pub bytes: Vec<u8>,
}

impl PhysMem {
    /// Well-formedness: the arena ends within the address space.
    pub open spec fn wf(self) -> bool {
        self.base@ + self.bytes@.len() <= usize::MAX
    }

    /// Whether `[paddr, paddr + len)` lies inside the arena.
    pub open spec fn spec_in_range(self, paddr: int, len: int) -> bool {
        self.base@ <= paddr && paddr + len <= self.base@ + self.bytes@.len()
    }

    /// The byte stored at physical address `paddr`.
    pub open spec fn spec_byte(self, paddr: int) -> u8 {
        self.bytes@[paddr - self.base@]
    }

    /// The `len` bytes stored from physical address `paddr` on.
    pub open spec fn spec_range(self, paddr: int, len: int) -> Seq<u8> {
        self.bytes@.subrange(paddr - self.base@, paddr - self.base@ + len)
    }

    /// Creates an arena of `size` zeroed bytes starting at `base`.
    pub fn new(base: PhysAddr, size: usize) -> (r: Self)
        requires
            base@ + size <= usize::MAX,
        ensures
            r.base == base,
            r.bytes@.len() == size,
            forall|i: int| 0 <= i < size ==> r.bytes@[i] == 0u8,
            r.wf(),
    {
        let mut bytes: Vec<u8> = Vec::new();
        let mut i: usize = 0;
        while i < size
            invariant
                i <= size,
                bytes@.len() == i,
                forall|j: int| 0 <= j < i ==> bytes@[j] == 0u8,
            decreases size - i,
        {
            bytes.push(0u8);
            i = i + 1;
        }
        PhysMem { base, bytes }
    }

    /// The total size of the arena in bytes.
    pub fn size(&self) -> (r: usize)
        ensures
            r == self.bytes@.len(),
    {
        self.bytes.len()
    }

    /// Checks whether `[paddr, paddr + len)` lies inside the arena.
    pub fn in_range(&self, paddr: PhysAddr, len: usize) -> (r: bool)
        requires
            self.wf(),
        ensures
            r == self.spec_in_range(paddr@, len as int),
    {
        paddr.addr >= self.base.addr && len <= self.bytes.len() && paddr.addr - self.base.addr
            <= self.bytes.len() - len
    }

    /// Copies `len` bytes out of the arena, starting at `paddr`.
    pub fn read_range(&self, paddr: PhysAddr, len: usize) -> (r: Vec<u8>)
        requires
            self.wf(),
            self.spec_in_range(paddr@, len as int),
        ensures
            r@ == self.spec_range(paddr@, len as int),
    {
        let off: usize = paddr.addr - self.base.addr;
        let mut v: Vec<u8> = Vec::new();
        let mut i: usize = 0;
        while i < len
            invariant
                i <= len,
                self.wf(),
                off == paddr@ - self.base@,
                off + len <= self.bytes@.len(),
                self.spec_in_range(paddr@, len as int),
                v@.len() == i,
                forall|j: int| 0 <= j < i ==> v@[j] == self.bytes@[off + j],
            decreases len - i,
        {
            v.push(self.bytes[off + i]);
            i = i + 1;
        }
        proof {
            assert(v@ =~= self.spec_range(paddr@, len as int));
        }
        v
    }

    /// Copies `data` into the arena, starting at `paddr`. Bytes outside the
    /// written range keep their values.
    pub fn write_range(&mut self, paddr: PhysAddr, data: &[u8])
        requires
            old(self).wf(),
            old(self).spec_in_range(paddr@, data@.len() as int),
        ensures
            final(self).base == old(self).base,
            final(self).bytes@.len() == old(self).bytes@.len(),
            final(self).wf(),
            final(self).spec_range(paddr@, data@.len() as int) == data@,
            forall|k: int|
                0 <= k < old(self).bytes@.len() && !(paddr@ - old(self).base@ <= k < paddr@ - old(
                    self,
                ).base@ + data@.len()) ==> (final(self)).bytes@[k] == old(self).bytes@[k],
    {
        let off: usize = paddr.addr - self.base.addr;
        let len: usize = data.len();
        let mut i: usize = 0;
        while i < len
            invariant
                i <= len,
                len == data@.len(),
                off == paddr@ - self.base@,
                off + len <= self.bytes@.len(),
                self.wf(),
                self.base == old(self).base,
                self.bytes@.len() == old(self).bytes@.len(),
                old(self).spec_in_range(paddr@, len as int),
                forall|k: int| off <= k < off + i ==> #[trigger] self.bytes@[k] == data@[k - off],
                forall|k: int|
                    0 <= k < self.bytes@.len() && !(off <= k < off + i) ==> self.bytes@[k] == old(
                        self,
                    ).bytes@[k],
            decreases len - i,
        {
            self.bytes.set(off + i, data[i]);
            i = i + 1;
        }
        proof {
            assert((final(self)).spec_range(paddr@, data@.len() as int) =~= data@);
        }
    }

    /// Fills `[paddr, paddr + len)` with one byte value.
    pub fn fill(&mut self, paddr: PhysAddr, len: usize, value: u8)
        requires
            old(self).wf(),
            old(self).spec_in_range(paddr@, len as int),
        ensures
            final(self).base == old(self).base,
            final(self).bytes@.len() == old(self).bytes@.len(),
            final(self).wf(),
            forall|k: int|
                paddr@ - old(self).base@ <= k < paddr@ - old(self).base@ + len
                    ==> #[trigger] (final(self)).bytes@[k] == value,
            forall|k: int|
                0 <= k < old(self).bytes@.len() && !(paddr@ - old(self).base@ <= k < paddr@ - old(
                    self,
                ).base@ + len) ==> (final(self)).bytes@[k] == old(self).bytes@[k],
    {
        let off: usize = paddr.addr - self.base.addr;
        let mut i: usize = 0;
        while i < len
            invariant
                i <= len,
                off == paddr@ - self.base@,
                off + len <= self.bytes@.len(),
                self.wf(),
                self.base == old(self).base,
                self.bytes@.len() == old(self).bytes@.len(),
                old(self).spec_in_range(paddr@, len as int),
                forall|k: int| off <= k < off + i ==> #[trigger] self.bytes@[k] == value,
                forall|k: int|
                    0 <= k < self.bytes@.len() && !(off <= k < off + i) ==> self.bytes@[k] == old(
                        self,
                    ).bytes@[k],
            decreases len - i,
        {
            self.bytes.set(off + i, value);
            i = i + 1;
        }
    }
}

} // verus!
