//! The per-process memory space: a page table plus its mapping areas.

use vstd::prelude::*;

use crate::align::spec_is_aligned;
use crate::constants::PAGE_SIZE;
use crate::flags::GenericMappingFlags;
use crate::frame::FrameDesc;
use crate::frame_allocator::FrameAllocator;
use crate::mapping::{AreaType, MapType, MappingArea, MappingAreaAllocation};
use crate::mmu::{MMUError, PageSize, PagingError, PagingResult};
use crate::page_table::{same_path, PageTableNative};
use crate::phys_addr::PhysAddr;
use crate::phys_mem::PhysMem;
use crate::vaddr_range::VaddrRange;
use crate::virt_addr::VirtAddr;
use crate::virt_page::VirtPage;
use crate::virt_page_range::VirtPageRange;

verus! {

/// The address of the `k`-th page of an area starting at `base`.
pub open spec fn area_page(base: int, k: int) -> int {
    base + k * (PAGE_SIZE as int)
}

/// The address of byte `off` of the `k`-th page of an area starting at
/// `base`.
pub open spec fn area_byte(base: int, k: int, off: int) -> int {
    base + k * (PAGE_SIZE as int) + off
}

/// Whether a space can certainly build out an area: the area's span lies in
/// the three-level range, every page of it can take a fresh 4 KiB mapping,
/// and the allocator can cover one frame plus up to two table frames per
/// page.
pub open spec fn spec_area_buildable(
    space: MemorySpace,
    alloc: FrameAllocator,
    area: MappingArea,
) -> bool {
    &&& area.range.start.addr@ + area.range.page_count * (PAGE_SIZE as int) <= 0x80_0000_0000
    &&& alloc.spec_available() >= 3 * area.range.page_count
    &&& forall|k: int|
        0 <= k < area.range.page_count ==> crate::page_table::spec_mappable_4k(
            space.pt,
            #[trigger] area_page(area.range.start.addr@, k),
        )
}

/// The one-shot description of a process image's layout: where the brk, the
/// stack and its guards, the loaded executable and the signal trampoline
/// live.
#[derive(Clone, Copy, PartialEq, Eq, Structural, Debug)]
pub struct MemorySpaceAttribute {
    pub brk_area_idx: usize,
    pub brk_start: VirtAddr,
    pub stack_guard_base: VaddrRange,
    pub stack_range: VaddrRange,
    pub stack_guard_top: VaddrRange,
    pub elf_area: VaddrRange,
    pub signal_trampoline: VirtPage,
}

impl Default for MemorySpaceAttribute {
    /// An uninitialized placeholder: all ranges null, the brk index a
    /// sentinel.
    fn default() -> (r: Self)
        ensures
            r.brk_area_idx == usize::MAX,
            r.brk_start@ == 0,
            r.stack_guard_base.start@ == 0 && r.stack_guard_base.end@ == 0,
            r.stack_range.start@ == 0 && r.stack_range.end@ == 0,
            r.stack_guard_top.start@ == 0 && r.stack_guard_top.end@ == 0,
            r.elf_area.start@ == 0 && r.elf_area.end@ == 0,
            r.signal_trampoline.addr@ == 0 && r.signal_trampoline.size == PAGE_SIZE,
    {
        let null_range = VaddrRange { start: VirtAddr { addr: 0 }, end: VirtAddr { addr: 0 } };
        MemorySpaceAttribute {
            brk_area_idx: usize::MAX,
            brk_start: VirtAddr { addr: 0 },
            stack_guard_base: null_range,
            stack_range: null_range,
            stack_guard_top: null_range,
            elf_area: null_range,
            signal_trampoline: VirtPage {
                addr: VirtAddr { addr: 0 },
                size: PAGE_SIZE,
            },
        }
    }
}

/// A process address space: the native page table it owns, its mapping areas
/// in insertion order, and the one-shot layout attribute.
pub struct MemorySpace {
    pub pt: PageTableNative,
    pub mapping_areas: Vec<MappingArea>,
    pub attr: Option<MemorySpaceAttribute>,
}

impl MemorySpace {
    /// Whether the area/frame slot indices are valid.
    pub open spec fn spec_slot_valid(self, i: int, k: int) -> bool {
        &&& 0 <= i < self.mapping_areas@.len()
        &&& self.mapping_areas@[i].allocation is Some
        &&& 0 <= k < self.mapping_areas@[i].allocation->0.frames@.len()
    }

    /// The frame address held by an area/frame slot.
    pub open spec fn spec_slot_addr(self, i: int, k: int) -> int {
        self.mapping_areas@[i].allocation->0.frames@[k].1.paddr@
    }

    /// Well-formedness: the page table is well formed, every area is well
    /// shaped, all held frames are distinct, none of them backs a page table,
    /// and a published attribute names a real brk area.
    pub open spec fn wf(self) -> bool {
        &&& self.pt.wf()
        &&& self.pt.owned
        &&& forall|i: int|
            0 <= i < self.mapping_areas@.len() ==> (#[trigger] self.mapping_areas@[i]).area_ok()
        &&& forall|i1: int, k1: int, i2: int, k2: int|
            self.spec_slot_valid(i1, k1) && self.spec_slot_valid(i2, k2) && !(i1 == i2 && k1 == k2)
                ==> #[trigger] self.spec_slot_addr(i1, k1) != #[trigger] self.spec_slot_addr(
                i2,
                k2,
            )
        &&& forall|i: int, k: int|
            self.spec_slot_valid(i, k) ==> !crate::page_table::has_node(
                self.pt.nodes@,
                #[trigger] self.spec_slot_addr(i, k),
            )
        &&& self.attr is Some ==> {
            &&& self.attr->0.brk_area_idx < self.mapping_areas@.len()
            &&& self.mapping_areas@[self.attr->0.brk_area_idx as int].allocation is Some
        }
    }

    /// Whether the space's frames — the page-table frames and every area
    /// frame — are accounted as outstanding in the allocator.
    pub open spec fn owned_by(self, alloc: FrameAllocator) -> bool {
        &&& self.pt.frames_owned_by(alloc)
        &&& forall|i: int, k: int|
            self.spec_slot_valid(i, k) ==> alloc.taken().contains(
                #[trigger] self.spec_slot_addr(i, k),
            )
    }

    /// Creates an empty memory space around an owned page table.
    pub fn new(pt: PageTableNative) -> (r: Self)
        requires
            pt.wf(),
            pt.owned,
        ensures
            r.pt == pt,
            r.mapping_areas@.len() == 0,
            r.attr is None,
            r.wf(),
            forall|alloc: FrameAllocator| pt.frames_owned_by(alloc) ==> r.owned_by(alloc),
    {
        MemorySpace { pt, mapping_areas: Vec::new(), attr: None }
    }

    /// The memory-management unit of the space.
    pub fn mmu(&self) -> (r: &PageTableNative)
        ensures
            r == &self.pt,
    {
        &self.pt
    }

    /// The mapping areas, in insertion order.
    pub fn mappings(&self) -> (r: &Vec<MappingArea>)
        ensures
            r == &self.mapping_areas,
    {
        &self.mapping_areas
    }

    /// Publishes the layout attribute; a one-shot operation.
    pub fn init(&mut self, attr: MemorySpaceAttribute)
        requires
            old(self).attr is None,
            attr.brk_area_idx < old(self).mapping_areas@.len(),
            old(self).mapping_areas@[attr.brk_area_idx as int].allocation is Some,
        ensures
            (final(self)).pt == old(self).pt,
            (final(self)).mapping_areas == old(self).mapping_areas,
            (final(self)).attr == Some(attr),
            old(self).wf() ==> (final(self)).wf(),
    {
        let ghost pre = *self;
        self.attr = Some(attr);
        proof {
            if pre.wf() {
                assert forall|i1: int, k1: int, i2: int, k2: int|
                    self.spec_slot_valid(i1, k1) && self.spec_slot_valid(i2, k2) && !(i1 == i2 && k1
                        == k2) implies #[trigger] self.spec_slot_addr(i1, k1)
                    != #[trigger] self.spec_slot_addr(i2, k2) by {
                    assert(pre.spec_slot_valid(i1, k1) && pre.spec_slot_valid(i2, k2));
                    assert(pre.spec_slot_addr(i1, k1) != pre.spec_slot_addr(i2, k2));
                }
                assert forall|i: int, k: int|
                    self.spec_slot_valid(i, k) implies !crate::page_table::has_node(
                    self.pt.nodes@,
                    #[trigger] self.spec_slot_addr(i, k),
                ) by {
                    assert(pre.spec_slot_valid(i, k));
                    assert(pre.spec_slot_addr(i, k) == self.spec_slot_addr(i, k));
                }
                assert(self.wf());
            }
        }
    }

    /// The published layout attribute.
    pub fn attr(&self) -> (r: &MemorySpaceAttribute)
        requires
            self.attr is Some,
        ensures
            r == &self.attr->0,
    {
        let a = self.attr.as_ref();
        match a {
            Some(r) => r,
            None => {
                proof {
                    assert(false);
                }
                self.attr.as_ref().unwrap()
            },
        }
    }

    /// The first address of the brk region.
    pub fn brk_start(&self) -> (r: VirtAddr)
        requires
            self.attr is Some,
        ensures
            r == self.attr->0.brk_start,
    {
        self.attr().brk_start
    }

    /// The index of the brk area among the mapping areas.
    pub fn brk_area_idx(&self) -> (r: usize)
        requires
            self.attr is Some,
        ensures
            r == self.attr->0.brk_area_idx,
    {
        self.attr().brk_area_idx
    }

    /// The page span of the brk area.
    pub fn brk_page_range(&self) -> (r: VirtPageRange)
        requires
            self.attr is Some,
            self.attr->0.brk_area_idx < self.mapping_areas@.len(),
        ensures
            r == self.mapping_areas@[self.attr->0.brk_area_idx as int].range,
    {
        let idx = self.brk_area_idx();
        self.mapping_areas[idx].range()
    }

    /// The virtual page reserved for the signal trampoline.
    pub fn signal_trampoline(&self) -> (r: VirtPage)
        requires
            self.attr is Some,
        ensures
            r == self.attr->0.signal_trampoline,
    {
        self.attr().signal_trampoline
    }

    /// Allocates one zeroed frame per page of the area's range, maps each
    /// page to its frame with the area's permissions, attaches the filled
    /// allocation to the area and appends it.
    ///
    /// On success every page of the range translates to its own distinct
    /// fresh frame, every byte of those frames is zero, and all other
    /// translations and arena bytes are untouched.
    pub fn alloc_and_map_area(
        &mut self,
        alloc: &mut FrameAllocator,
        mem: &mut PhysMem,
        area: MappingArea,
    ) -> (r: PagingResult<()>)
        requires
            old(self).wf(),
            old(alloc).wf(),
            old(self).owned_by(*old(alloc)),
            old(mem).wf(),
            old(mem).spec_in_range(old(alloc).bottom@, old(alloc).top@ - old(alloc).bottom@),
            area.allocation is None,
            area.area_ok(),
        ensures
            (final(self)).wf(),
            (final(alloc)).wf(),
            (final(alloc)).bottom == old(alloc).bottom,
            (final(alloc)).top == old(alloc).top,
            (final(self)).owned_by(*final(alloc)),
            (final(mem)).wf(),
            (final(mem)).base == old(mem).base,
            (final(mem)).bytes@.len() == old(mem).bytes@.len(),
            (final(self)).attr == old(self).attr,
            r is Ok ==> {
                let areas = (final(self)).mapping_areas@;
                let n = old(self).mapping_areas@.len() as int;
                &&& areas.len() == n + 1
                &&& (forall|i: int| 0 <= i < n ==> areas[i] == old(self).mapping_areas@[i])
                &&& areas[n].range == area.range
                &&& areas[n].area_type == area.area_type
                &&& areas[n].map_type == area.map_type
                &&& areas[n].permissions == area.permissions
                &&& areas[n].allocation is Some
                &&& areas[n].allocation->0.frames@.len() == area.range.page_count
                &&& (forall|k: int, off: int|
                    0 <= k < area.range.page_count && 0 <= off < PAGE_SIZE ==> (final(self)).pt.spec_query(#[trigger] area_byte(area.range.start.addr@, k, off)) == Some(
                        (
                            areas[n].allocation->0.frames@[k].1.paddr@ + off,
                            area.permissions,
                            PageSize::_4K,
                        ),
                    ))
                &&& (forall|k1: int, k2: int|
                    0 <= k1 < k2 < area.range.page_count
                        ==> (#[trigger] areas[n].allocation->0.frames@[k1]).1.paddr@ != (
                        #[trigger] areas[n].allocation->0.frames@[k2]).1.paddr@)
            },
            r is Err ==> (final(self)).mapping_areas == old(self).mapping_areas,
            spec_area_buildable(*old(self), *old(alloc), area) ==> r is Ok,
    {
        let page_count = area.range.page_count;
        let base_page = area.range.start;
        let mut frames: Vec<(VirtPage, FrameDesc)> = Vec::new();
        let mut i: usize = 0;
        proof {
            lemma_area_inv_init(*self, *alloc, base_page.addr@, area.permissions);
        }
        #[verifier::spinoff_prover]
        #[verifier::rlimit(100)]
        while i < page_count
            invariant
                self.wf(),
                alloc.wf(),
                self.owned_by(*alloc),
                mem.wf(),
                mem.base == old(mem).base,
                mem.bytes@.len() == old(mem).bytes@.len(),
                mem.spec_in_range(alloc.bottom@, alloc.top@ - alloc.bottom@),
                alloc.bottom == old(alloc).bottom,
                alloc.top == old(alloc).top,
                self.mapping_areas == old(self).mapping_areas,
                self.attr == old(self).attr,
                self.pt.owned,
                area.area_ok(),
                page_count == area.range.page_count,
                base_page == area.range.start,
                i <= page_count,
                frames@.len() == i,
                spec_area_inv(*self, *alloc, base_page.addr@, area.permissions, frames@, i as int),
                spec_area_buildable(*old(self), *old(alloc), area) ==> alloc.spec_available() >= 3
                    * (page_count - i),
                spec_area_buildable(*old(self), *old(alloc), area) ==> forall|k: int|
                    i <= k < page_count ==> crate::page_table::spec_mappable_4k(
                        self.pt,
                        #[trigger] area_page(base_page.addr@, k),
                    ),
            decreases page_count - i,
        {
            proof {
                assert(i * PAGE_SIZE + PAGE_SIZE == (i + 1) * PAGE_SIZE) by (nonlinear_arith);
                assert((i + 1) * PAGE_SIZE <= page_count * PAGE_SIZE) by (nonlinear_arith)
                    requires
                        i + 1 <= page_count,
                ;
                assert(i * PAGE_SIZE >= 0) by (nonlinear_arith)
                    requires
                        i >= 0,
                ;
            }
            let ghost self0 = *self;
            let ghost alloc0 = *alloc;
            proof {
                if spec_area_buildable(*old(self), *old(alloc), area) {
                    assert(alloc.spec_available() >= 3);
                    if alloc.recycled@.len() == 0 && alloc.current@ >= alloc.top@ {
                        vstd::arithmetic::div_mod::lemma_basic_div(
                            alloc.top@ - alloc.current@,
                            PAGE_SIZE as int,
                        );
                        assert(false);
                    }
                }
            }
            let frame = match alloc.alloc_frame() {
                Some(f) => f,
                None => {
                    return Err(PagingError::OutOfMemory);
                },
            };
            let pa = frame.paddr;
            proof {
                crate::align::lemma_aligned_gap(pa@, alloc.top@, PAGE_SIZE as int);
            }
            mem.fill(pa, PAGE_SIZE, 0u8);
            let vpn = VirtPage {
                addr: VirtAddr { addr: base_page.addr.addr + i * PAGE_SIZE },
                size: PAGE_SIZE,
            };
            let ghost pre_pt = self.pt;
            let ghost pre_alloc = *alloc;
            proof {
                vstd::arithmetic::div_mod::lemma_mod_multiples_vanish(
                    i as int,
                    base_page.addr@,
                    PAGE_SIZE as int,
                );
                assert((PAGE_SIZE as int) * (i as int) == (i as int) * (PAGE_SIZE as int))
                    by (nonlinear_arith);
                assert(spec_is_aligned(vpn.addr@, PAGE_SIZE as int));
            }
            let mapped = self.pt.map_single(
                alloc,
                vpn.addr,
                pa,
                PageSize::_4K,
                area.permissions,
            );
            proof {
                if spec_area_buildable(*old(self), *old(alloc), area) {
                    // Under the buildable hypothesis the mapping cannot
                    // fail: the page's slot is free and two table frames are
                    // covered.
                    assert(crate::page_table::spec_mappable_4k(
                        pre_pt,
                        area_page(base_page.addr@, i as int),
                    ));
                    assert(vpn.addr@ == area_page(base_page.addr@, i as int));
                    assert(pre_alloc.spec_available() >= 2);
                    assert(mapped is Ok);
                }
            }
            match mapped {
                Ok(_) => {},
                Err(e) => {
                    proof {
                        assert forall|i2: int, k2: int|
                            self.spec_slot_valid(i2, k2) implies alloc0.taken().contains(
                            #[trigger] self.spec_slot_addr(i2, k2),
                        ) && !crate::page_table::has_node(
                            pre_pt.nodes@,
                            self.spec_slot_addr(i2, k2),
                        ) by {
                            assert(self0.spec_slot_valid(i2, k2));
                            assert(self0.spec_slot_addr(i2, k2) == self.spec_slot_addr(i2, k2));
                        }
                        lemma_area_inv_err(
                            *self,
                            pre_pt,
                            alloc0,
                            pre_alloc,
                            *alloc,
                            base_page.addr@,
                            area.permissions,
                            frames@,
                            i as int,
                            pa@,
                        );
                        lemma_space_wf_rebuild(self0, *self);
                    }
                    frame.consume();
                    return Err(e);
                },
            }
            proof {
                assert forall|i2: int, k2: int|
                    self.spec_slot_valid(i2, k2) implies alloc0.taken().contains(
                    #[trigger] self.spec_slot_addr(i2, k2),
                ) && !crate::page_table::has_node(pre_pt.nodes@, self.spec_slot_addr(i2, k2)) by {
                    assert(self0.spec_slot_valid(i2, k2));
                    assert(self0.spec_slot_addr(i2, k2) == self.spec_slot_addr(i2, k2));
                }
                assert(self0.pt == pre_pt);
                if spec_area_buildable(*old(self), *old(alloc), area) {
                    // The later pages of the area stay mappable: they share
                    // no slot path with the page just installed.
                    assert forall|k: int|
                        i + 1 <= k < page_count implies crate::page_table::spec_mappable_4k(
                        self.pt,
                        #[trigger] area_page(base_page.addr@, k),
                    ) by {
                        let pk = area_page(base_page.addr@, k);
                        assert(crate::page_table::spec_mappable_4k(pre_pt, pk));
                        assert(spec_is_aligned(pk, PAGE_SIZE as int)) by {
                            vstd::arithmetic::div_mod::lemma_mod_multiples_vanish(
                                k,
                                base_page.addr@,
                                PAGE_SIZE as int,
                            );
                            assert((PAGE_SIZE as int) * k == k * (PAGE_SIZE as int))
                                by (nonlinear_arith);
                        }
                        assert(pk != vpn.addr@) by {
                            assert((k - i) * (PAGE_SIZE as int) != 0) by (nonlinear_arith)
                                requires
                                    k - i >= 1,
                            ;
                            assert(pk - vpn.addr@ == (k - i) * (PAGE_SIZE as int))
                                by (nonlinear_arith)
                                requires
                                    pk == base_page.addr@ + k * (PAGE_SIZE as int),
                                    vpn.addr@ == base_page.addr@ + (i as int) * (
                                    PAGE_SIZE as int),
                            ;
                        }
                        assert(0 <= pk < 0x80_0000_0000) by {
                            assert(k * (PAGE_SIZE as int) < page_count * (PAGE_SIZE as int))
                                by (nonlinear_arith)
                                requires
                                    k < page_count,
                            ;
                            assert(k * (PAGE_SIZE as int) >= 0) by (nonlinear_arith)
                                requires
                                    k >= 0,
                            ;
                        }
                        assert(0 <= vpn.addr@ < 0x80_0000_0000) by {
                            assert((i as int) * (PAGE_SIZE as int) < page_count * (
                            PAGE_SIZE as int)) by (nonlinear_arith)
                                requires
                                    i < page_count,
                            ;
                        }
                        crate::page_table::lemma_low_pages_distinct_paths(vpn.addr@, pk);
                    }
                }
                lemma_area_inv_step(
                    *old(self),
                    pre_pt,
                    *self,
                    alloc0,
                    pre_alloc,
                    *alloc,
                    base_page.addr@,
                    area.permissions,
                    frames@,
                    i as int,
                    vpn,
                    pa@,
                );
                lemma_space_wf_rebuild(self0, *self);
            }
            frames.push((vpn, frame));
            i = i + 1;
        }
        let filled = MappingArea {
            range: area.range,
            area_type: area.area_type,
            map_type: area.map_type,
            permissions: area.permissions,
            allocation: Some(MappingAreaAllocation { frames }),
        };
        let ghost pre = *self;
        self.mapping_areas.push(filled);
        proof {
            reveal(spec_area_inv);
            lemma_space_push(pre, *self, filled, *alloc);
        }
        Ok(())
    }

    /// Appends an area whose backing is already populated; used when
    /// transferring an area between spaces.
    pub fn map_area(&mut self, alloc: &FrameAllocator, area: MappingArea)
        requires
            old(self).wf(),
            old(self).owned_by(*alloc),
            area.area_ok(),
            area.allocation is Some,
            forall|k: int|
                0 <= k < area.allocation->0.frames@.len() ==> alloc.taken().contains(
                    (#[trigger] area.allocation->0.frames@[k]).1.paddr@,
                ) && !crate::page_table::has_node(
                    old(self).pt.nodes@,
                    area.allocation->0.frames@[k].1.paddr@,
                ),
            forall|k1: int, k2: int|
                0 <= k1 < k2 < area.allocation->0.frames@.len()
                    ==> (#[trigger] area.allocation->0.frames@[k1]).1.paddr@ != (
                #[trigger] area.allocation->0.frames@[k2]).1.paddr@,
            forall|k: int, i2: int, k2: int|
                0 <= k < area.allocation->0.frames@.len() && old(self).spec_slot_valid(i2, k2)
                    ==> (#[trigger] area.allocation->0.frames@[k]).1.paddr@
                    != #[trigger] old(self).spec_slot_addr(i2, k2),
        ensures
            (final(self)).wf(),
            (final(self)).owned_by(*alloc),
            (final(self)).pt == old(self).pt,
            (final(self)).attr == old(self).attr,
            (final(self)).mapping_areas@ == old(self).mapping_areas@.push(area),
    {
        let ghost pre = *self;
        self.mapping_areas.push(area);
        proof {
            lemma_space_push(pre, *self, area, *alloc);
        }
    }
}


/// After mapping one more page of an area, the new page answers with its
/// fresh frame.
#[verifier::spinoff_prover]
#[verifier::rlimit(100)]
proof fn lemma_area_step_new(post: PageTableNative, base: int, i: int, perms: GenericMappingFlags, vpn: int, pa: int)
    requires
        i >= 0,
        vpn >= 0,
        vpn == base + i * (PAGE_SIZE as int),
        spec_is_aligned(vpn, PAGE_SIZE as int),
        forall|w: int|
            same_path(vpn, w, 1) ==> #[trigger] post.spec_query(w) == Some(
                (pa + w % (PAGE_SIZE as int), perms, PageSize::_4K),
            ),
    ensures
        forall|off: int|
            0 <= off < PAGE_SIZE ==> post.spec_query(#[trigger] area_byte(base, i, off)) == Some(
                (pa + off, perms, PageSize::_4K),
            ),
{
    assert forall|off: int| 0 <= off < PAGE_SIZE implies post.spec_query(
        #[trigger] area_byte(base, i, off),
    ) == Some((pa + off, perms, PageSize::_4K)) by {
        crate::page_table::lemma_mapped_range_translates(vpn, off, 1);
        assert(area_byte(base, i, off) == vpn + off);
    }
}

/// After mapping one more page of an area, the earlier pages keep their
/// frames: the new page's slot path cannot touch a page that was mapped.
#[verifier::spinoff_prover]
#[verifier::rlimit(100)]
proof fn lemma_area_step_earlier(
    pre: PageTableNative,
    post: PageTableNative,
    base: int,
    i: int,
    perms: GenericMappingFlags,
    vpn: int,
    frames: Seq<(VirtPage, FrameDesc)>,
)
    requires
        i >= 0,
        frames.len() == i,
        vpn == base + i * (PAGE_SIZE as int),
        forall|w: int|
            !same_path(vpn, w, 1) ==> #[trigger] post.spec_query(w) == pre.spec_query(w),
        forall|w: int| same_path(vpn, w, 1) ==> #[trigger] pre.spec_query(w) is None,
        forall|k: int, off: int|
            0 <= k < i && 0 <= off < PAGE_SIZE ==> pre.spec_query(
                #[trigger] area_byte(base, k, off),
            ) == Some((frames[k].1.paddr@ + off, perms, PageSize::_4K)),
    ensures
        forall|k: int, off: int|
            0 <= k < i && 0 <= off < PAGE_SIZE ==> post.spec_query(
                #[trigger] area_byte(base, k, off),
            ) == Some((frames[k].1.paddr@ + off, perms, PageSize::_4K)),
{
    assert forall|k: int, off: int|
        0 <= k < i && 0 <= off < PAGE_SIZE implies post.spec_query(
        #[trigger] area_byte(base, k, off),
    ) == Some((frames[k].1.paddr@ + off, perms, PageSize::_4K)) by {
        let w = area_byte(base, k, off);
        if same_path(vpn, w, 1) {
            assert(pre.spec_query(w) is None);
            assert(false);
        }
    }
}

/// Appending a well-shaped area whose frames are fresh with respect to
/// everything already held preserves the space's shape and its accounting.
#[verifier::spinoff_prover]
#[verifier::rlimit(100)]
proof fn lemma_space_push(
    pre: MemorySpace,
    post: MemorySpace,
    area: MappingArea,
    alloc: FrameAllocator,
)
    requires
        pre.wf(),
        pre.owned_by(alloc),
        area.area_ok(),
        post.pt == pre.pt,
        post.attr == pre.attr,
        post.mapping_areas@ == pre.mapping_areas@.push(area),
        area.allocation is Some ==> {
            &&& (forall|k: int|
                0 <= k < area.allocation->0.frames@.len() ==> alloc.taken().contains(
                    (#[trigger] area.allocation->0.frames@[k]).1.paddr@,
                ) && !crate::page_table::has_node(
                    pre.pt.nodes@,
                    area.allocation->0.frames@[k].1.paddr@,
                ))
            &&& (forall|k1: int, k2: int|
                0 <= k1 < k2 < area.allocation->0.frames@.len()
                    ==> (#[trigger] area.allocation->0.frames@[k1]).1.paddr@ != (
                #[trigger] area.allocation->0.frames@[k2]).1.paddr@)
            &&& (forall|k: int, i2: int, k2: int|
                0 <= k < area.allocation->0.frames@.len() && pre.spec_slot_valid(i2, k2)
                    ==> (#[trigger] area.allocation->0.frames@[k]).1.paddr@
                    != #[trigger] pre.spec_slot_addr(i2, k2))
        },
    ensures
        post.wf(),
        post.owned_by(alloc),
{
    let n = pre.mapping_areas@.len() as int;
    assert forall|i1: int, k1: int, i2: int, k2: int|
        post.spec_slot_valid(i1, k1) && post.spec_slot_valid(i2, k2) && !(i1 == i2 && k1 == k2)
            implies #[trigger] post.spec_slot_addr(i1, k1) != #[trigger] post.spec_slot_addr(
        i2,
        k2,
    ) by {
        if i1 < n && i2 < n {
            assert(pre.spec_slot_valid(i1, k1) && pre.spec_slot_valid(i2, k2));
            assert(pre.spec_slot_addr(i1, k1) != pre.spec_slot_addr(i2, k2));
            assert(post.spec_slot_addr(i1, k1) == pre.spec_slot_addr(i1, k1));
            assert(post.spec_slot_addr(i2, k2) == pre.spec_slot_addr(i2, k2));
        } else if i1 < n {
            assert(pre.spec_slot_valid(i1, k1));
            assert(post.spec_slot_addr(i1, k1) == pre.spec_slot_addr(i1, k1));
            assert(post.spec_slot_addr(i2, k2) == area.allocation->0.frames@[k2].1.paddr@);
        } else if i2 < n {
            assert(pre.spec_slot_valid(i2, k2));
            assert(post.spec_slot_addr(i2, k2) == pre.spec_slot_addr(i2, k2));
            assert(post.spec_slot_addr(i1, k1) == area.allocation->0.frames@[k1].1.paddr@);
        } else {
            assert(post.spec_slot_addr(i1, k1) == area.allocation->0.frames@[k1].1.paddr@);
            assert(post.spec_slot_addr(i2, k2) == area.allocation->0.frames@[k2].1.paddr@);
        }
    }
    assert forall|i2: int, k2: int|
        post.spec_slot_valid(i2, k2) implies !crate::page_table::has_node(
        post.pt.nodes@,
        #[trigger] post.spec_slot_addr(i2, k2),
    ) && alloc.taken().contains(post.spec_slot_addr(i2, k2)) by {
        if i2 < n {
            assert(pre.spec_slot_valid(i2, k2));
            assert(pre.spec_slot_addr(i2, k2) == post.spec_slot_addr(i2, k2));
        } else {
            assert(post.spec_slot_addr(i2, k2) == area.allocation->0.frames@[k2].1.paddr@);
        }
    }
    assert forall|ii: int| 0 <= ii < post.mapping_areas@.len() implies (
    #[trigger] post.mapping_areas@[ii]).area_ok() by {
        if ii < n {
            assert(post.mapping_areas@[ii] == pre.mapping_areas@[ii]);
        }
    }
    if post.attr is Some {
        assert(post.mapping_areas@[post.attr->0.brk_area_idx as int] == pre.mapping_areas@[pre.attr->0.brk_area_idx as int]);
    }
    assert(post.wf());
}


/// A frame handed out fresh is apart from every frame the space already
/// holds: the area frames and the page-table frames.
#[verifier::spinoff_prover]
#[verifier::rlimit(100)]
proof fn lemma_fresh_frame_apart(
    space: MemorySpace,
    pre_pt: PageTableNative,
    pre_alloc: FrameAllocator,
    alloc0: FrameAllocator,
    pa: int,
)
    requires
        !alloc0.taken().contains(pa),
        pre_alloc.taken() == alloc0.taken().insert(pa),
        forall|i2: int, k2: int|
            space.spec_slot_valid(i2, k2) ==> alloc0.taken().contains(
                #[trigger] space.spec_slot_addr(i2, k2),
            ) && !crate::page_table::has_node(pre_pt.nodes@, space.spec_slot_addr(i2, k2)),
        space.pt.nodes@.len() >= pre_pt.nodes@.len(),
        forall|i: int|
            0 <= i < pre_pt.nodes@.len() ==> (#[trigger] space.pt.nodes@[i]).paddr
                == pre_pt.nodes@[i].paddr,
        forall|i: int|
            0 <= i < pre_pt.nodes@.len() ==> alloc0.taken().contains(
                (#[trigger] pre_pt.nodes@[i]).paddr@,
            ),
        forall|i: int|
            pre_pt.nodes@.len() <= i < space.pt.nodes@.len() ==> !pre_alloc.taken().contains(
                ((#[trigger] space.pt.nodes@[i])).paddr@,
            ),
    ensures
        forall|i2: int, k2: int|
            space.spec_slot_valid(i2, k2) ==> pa != #[trigger] space.spec_slot_addr(i2, k2),
        !crate::page_table::has_node(space.pt.nodes@, pa),
{
    assert forall|i2: int, k2: int|
        space.spec_slot_valid(i2, k2) implies pa != #[trigger] space.spec_slot_addr(i2, k2) by {
        assert(alloc0.taken().contains(space.spec_slot_addr(i2, k2)));
    }
    if crate::page_table::has_node(space.pt.nodes@, pa) {
        let kk = choose|kk: int|
            0 <= kk < space.pt.nodes@.len() && #[trigger] space.pt.nodes@[kk].paddr@ == pa;
        if kk < pre_pt.nodes@.len() {
            assert(space.pt.nodes@[kk].paddr == pre_pt.nodes@[kk].paddr);
            assert(alloc0.taken().contains(pa));
        } else {
            assert(!pre_alloc.taken().contains(space.pt.nodes@[kk].paddr@));
            assert(pre_alloc.taken().contains(pa));
        }
        assert(false);
    }
}


/// The frames held so far — the space's slots, the table frames, and the
/// area frames gathered by the loop — remain accounted and apart from the
/// tables after one more page is mapped.
#[verifier::spinoff_prover]
#[verifier::rlimit(100)]
proof fn lemma_area_loop_frames(
    space: MemorySpace,
    pre_pt: PageTableNative,
    alloc0: FrameAllocator,
    pre_alloc: FrameAllocator,
    alloc_final: FrameAllocator,
    pa: int,
    frames: Seq<(VirtPage, FrameDesc)>,
)
    requires
        !alloc0.taken().contains(pa),
        pre_alloc.taken() == alloc0.taken().insert(pa),
        forall|a: int| pre_alloc.taken().contains(a) ==> alloc_final.taken().contains(a),
        forall|i2: int, k2: int|
            space.spec_slot_valid(i2, k2) ==> alloc0.taken().contains(
                #[trigger] space.spec_slot_addr(i2, k2),
            ),
        forall|i2: int, k2: int|
            space.spec_slot_valid(i2, k2) ==> !crate::page_table::has_node(
                pre_pt.nodes@,
                #[trigger] space.spec_slot_addr(i2, k2),
            ),
        forall|k: int|
            0 <= k < frames.len() ==> alloc0.taken().contains((#[trigger] frames[k]).1.paddr@)
                && !crate::page_table::has_node(pre_pt.nodes@, frames[k].1.paddr@),
        space.pt.nodes@.len() >= pre_pt.nodes@.len(),
        forall|i: int|
            0 <= i < pre_pt.nodes@.len() ==> (#[trigger] space.pt.nodes@[i]).paddr
                == pre_pt.nodes@[i].paddr,
        forall|i: int|
            pre_pt.nodes@.len() <= i < space.pt.nodes@.len() ==> !pre_alloc.taken().contains(
                ((#[trigger] space.pt.nodes@[i])).paddr@,
            ),
    ensures
        forall|i2: int, k2: int|
            space.spec_slot_valid(i2, k2) ==> alloc_final.taken().contains(
                #[trigger] space.spec_slot_addr(i2, k2),
            ) && !crate::page_table::has_node(space.pt.nodes@, space.spec_slot_addr(i2, k2)),
        forall|k: int|
            0 <= k < frames.len() ==> alloc_final.taken().contains(
                (#[trigger] frames[k]).1.paddr@,
            ) && !crate::page_table::has_node(space.pt.nodes@, frames[k].1.paddr@)
                && frames[k].1.paddr@ != pa,
        alloc_final.taken().contains(pa),
{
    assert forall|i2: int, k2: int|
        space.spec_slot_valid(i2, k2) implies alloc_final.taken().contains(
        #[trigger] space.spec_slot_addr(i2, k2),
    ) && !crate::page_table::has_node(space.pt.nodes@, space.spec_slot_addr(i2, k2)) by {
        let a = space.spec_slot_addr(i2, k2);
        assert(alloc0.taken().contains(a));
        assert(pre_alloc.taken().contains(a));
        if crate::page_table::has_node(space.pt.nodes@, a) {
            let kk = choose|kk: int|
                0 <= kk < space.pt.nodes@.len() && #[trigger] space.pt.nodes@[kk].paddr@ == a;
            if kk < pre_pt.nodes@.len() {
                assert(space.pt.nodes@[kk].paddr == pre_pt.nodes@[kk].paddr);
                assert(crate::page_table::has_node(pre_pt.nodes@, a));
            } else {
                assert(!pre_alloc.taken().contains(space.pt.nodes@[kk].paddr@));
            }
            assert(false);
        }
    }
    assert forall|k: int|
        0 <= k < frames.len() implies alloc_final.taken().contains(
        (#[trigger] frames[k]).1.paddr@,
    ) && !crate::page_table::has_node(space.pt.nodes@, frames[k].1.paddr@) && frames[k].1.paddr@
        != pa by {
        let a = frames[k].1.paddr@;
        assert(alloc0.taken().contains(a));
        assert(pre_alloc.taken().contains(a));
        if crate::page_table::has_node(space.pt.nodes@, a) {
            let kk = choose|kk: int|
                0 <= kk < space.pt.nodes@.len() && #[trigger] space.pt.nodes@[kk].paddr@ == a;
            if kk < pre_pt.nodes@.len() {
                assert(space.pt.nodes@[kk].paddr == pre_pt.nodes@[kk].paddr);
                assert(crate::page_table::has_node(pre_pt.nodes@, a));
            } else {
                assert(!pre_alloc.taken().contains(space.pt.nodes@[kk].paddr@));
            }
            assert(false);
        }
    }
    assert(pre_alloc.taken().contains(pa));
}


/// The running facts of an area build-out: the frames gathered so far are
/// page-shaped, fresh, accounted, apart from everything held, and the pages
/// they back translate to them.
#[verifier::opaque]
pub open spec fn spec_area_inv(
    space: MemorySpace,
    alloc: FrameAllocator,
    base: int,
    perms: GenericMappingFlags,
    frames: Seq<(VirtPage, FrameDesc)>,
    i: int,
) -> bool {
    &&& frames.len() == i
    &&& (forall|k: int|
        0 <= k < i ==> (#[trigger] frames[k]).0.addr@ == area_page(base, k) && frames[k].0.size
            == PAGE_SIZE && spec_is_aligned(frames[k].1.paddr@, PAGE_SIZE as int)
            && alloc.taken().contains(frames[k].1.paddr@) && !crate::page_table::has_node(
            space.pt.nodes@,
            frames[k].1.paddr@,
        ) && alloc.bottom@ <= frames[k].1.paddr@ < alloc.top@)
    &&& (forall|k1: int, k2: int|
        0 <= k1 < k2 < i ==> (#[trigger] frames[k1]).1.paddr@ != (#[trigger] frames[k2]).1.paddr@)
    &&& (forall|k: int, i2: int, k2: int|
        0 <= k < i && space.spec_slot_valid(i2, k2) ==> (#[trigger] frames[k]).1.paddr@
            != #[trigger] space.spec_slot_addr(i2, k2))
    &&& (forall|k: int, off: int|
        0 <= k < i && 0 <= off < PAGE_SIZE ==> space.pt.spec_query(
            #[trigger] area_byte(base, k, off),
        ) == Some((frames[k].1.paddr@ + off, perms, PageSize::_4K)))
}

/// Before any page is built the facts hold trivially.
proof fn lemma_area_inv_init(
    space: MemorySpace,
    alloc: FrameAllocator,
    base: int,
    perms: GenericMappingFlags,
)
    ensures
        spec_area_inv(space, alloc, base, perms, Seq::<(VirtPage, FrameDesc)>::empty(), 0),
{
    reveal(spec_area_inv);
}

/// One more page extends the facts: the fresh frame is mapped at its page
/// and everything gathered before is untouched.
#[verifier::spinoff_prover]
#[verifier::rlimit(100)]
proof fn lemma_area_inv_step(
    space0: MemorySpace,
    pre_pt: PageTableNative,
    space: MemorySpace,
    alloc0: FrameAllocator,
    pre_alloc: FrameAllocator,
    alloc_final: FrameAllocator,
    base: int,
    perms: GenericMappingFlags,
    frames: Seq<(VirtPage, FrameDesc)>,
    i: int,
    vpn: VirtPage,
    pa: int,
)
    requires
        i >= 0,
        vpn.addr@ == area_page(base, i),
        vpn.size == PAGE_SIZE,
        spec_is_aligned(vpn.addr@, PAGE_SIZE as int),
        spec_is_aligned(pa, PAGE_SIZE as int),
        alloc0.bottom@ <= pa < alloc0.top@,
        alloc0.bottom == alloc_final.bottom,
        alloc0.top == alloc_final.top,
        !alloc0.taken().contains(pa),
        pre_alloc.taken() == alloc0.taken().insert(pa),
        forall|a: int| pre_alloc.taken().contains(a) ==> alloc_final.taken().contains(a),
        space.mapping_areas == space0.mapping_areas,
        spec_area_inv(
            MemorySpace {
                pt: pre_pt,
                mapping_areas: space.mapping_areas,
                attr: space.attr,
            },
            alloc0,
            base,
            perms,
            frames,
            i,
        ),
        forall|i2: int, k2: int|
            space.spec_slot_valid(i2, k2) ==> alloc0.taken().contains(
                #[trigger] space.spec_slot_addr(i2, k2),
            ) && !crate::page_table::has_node(pre_pt.nodes@, space.spec_slot_addr(i2, k2)),
        space.pt.nodes@.len() >= pre_pt.nodes@.len(),
        forall|ii: int|
            0 <= ii < pre_pt.nodes@.len() ==> (#[trigger] space.pt.nodes@[ii]).paddr
                == pre_pt.nodes@[ii].paddr,
        forall|ii: int|
            0 <= ii < pre_pt.nodes@.len() ==> alloc0.taken().contains(
                (#[trigger] pre_pt.nodes@[ii]).paddr@,
            ),
        forall|ii: int|
            pre_pt.nodes@.len() <= ii < space.pt.nodes@.len() ==> !pre_alloc.taken().contains(
                ((#[trigger] space.pt.nodes@[ii])).paddr@,
            ),
        forall|w: int|
            same_path(vpn.addr@, w, 1) ==> #[trigger] space.pt.spec_query(w) == Some(
                (pa + w % (PAGE_SIZE as int), perms, PageSize::_4K),
            ),
        forall|w: int|
            !same_path(vpn.addr@, w, 1) ==> #[trigger] space.pt.spec_query(w)
                == pre_pt.spec_query(w),
        forall|w: int| same_path(vpn.addr@, w, 1) ==> #[trigger] pre_pt.spec_query(w) is None,
    ensures
        spec_area_inv(
            space,
            alloc_final,
            base,
            perms,
            frames.push((vpn, FrameDesc { paddr: PhysAddr { addr: pa as usize } })),
            i + 1,
        ),
        forall|i2: int, k2: int|
            space.spec_slot_valid(i2, k2) ==> alloc_final.taken().contains(
                #[trigger] space.spec_slot_addr(i2, k2),
            ) && !crate::page_table::has_node(space.pt.nodes@, space.spec_slot_addr(i2, k2)),
{
    reveal(spec_area_inv);
    let pre_space = MemorySpace {
        pt: pre_pt,
        mapping_areas: space.mapping_areas,
        attr: space.attr,
    };
    assert forall|i2: int, k2: int|
        space.spec_slot_valid(i2, k2) implies alloc0.taken().contains(
        #[trigger] space.spec_slot_addr(i2, k2),
    ) && !crate::page_table::has_node(pre_pt.nodes@, space.spec_slot_addr(i2, k2)) by {
        assert(pre_space.spec_slot_valid(i2, k2));
        assert(pre_space.spec_slot_addr(i2, k2) == space.spec_slot_addr(i2, k2));
    }
    lemma_area_step_new(space.pt, base, i, perms, vpn.addr@, pa);
    lemma_area_step_earlier(pre_pt, space.pt, base, i, perms, vpn.addr@, frames);
    lemma_area_loop_frames(space, pre_pt, alloc0, pre_alloc, alloc_final, pa, frames);
    lemma_fresh_frame_apart(space, pre_pt, pre_alloc, alloc0, pa);
    assert forall|k: int, i2: int, k2: int|
        0 <= k < i && space.spec_slot_valid(i2, k2) implies (#[trigger] frames[k]).1.paddr@
        != #[trigger] space.spec_slot_addr(i2, k2) by {
        assert(pre_space.spec_slot_valid(i2, k2));
        assert(pre_space.spec_slot_addr(i2, k2) == space.spec_slot_addr(i2, k2));
    }
    lemma_area_inv_pack(space, alloc_final, base, perms, frames, i, vpn, pa);
}

/// Packs the per-frame and per-page facts into the running invariant.
#[verifier::spinoff_prover]
#[verifier::rlimit(100)]
proof fn lemma_area_inv_pack(
    space: MemorySpace,
    alloc_final: FrameAllocator,
    base: int,
    perms: GenericMappingFlags,
    frames: Seq<(VirtPage, FrameDesc)>,
    i: int,
    vpn: VirtPage,
    pa: int,
)
    requires
        i >= 0,
        frames.len() == i,
        vpn.addr@ == area_page(base, i),
        vpn.size == PAGE_SIZE,
        spec_is_aligned(pa, PAGE_SIZE as int),
        alloc_final.bottom@ <= pa < alloc_final.top@,
        alloc_final.taken().contains(pa),
        !crate::page_table::has_node(space.pt.nodes@, pa),
        forall|k: int|
            0 <= k < i ==> (#[trigger] frames[k]).0.addr@ == area_page(base, k) && frames[k].0.size
                == PAGE_SIZE && spec_is_aligned(frames[k].1.paddr@, PAGE_SIZE as int)
                && alloc_final.taken().contains(frames[k].1.paddr@)
                && !crate::page_table::has_node(space.pt.nodes@, frames[k].1.paddr@)
                && alloc_final.bottom@ <= frames[k].1.paddr@ < alloc_final.top@ && frames[k].1.paddr@
                != pa,
        forall|k1: int, k2: int|
            0 <= k1 < k2 < i ==> (#[trigger] frames[k1]).1.paddr@ != (
            #[trigger] frames[k2]).1.paddr@,
        forall|k: int, i2: int, k2: int|
            0 <= k < i && space.spec_slot_valid(i2, k2) ==> (#[trigger] frames[k]).1.paddr@
                != #[trigger] space.spec_slot_addr(i2, k2),
        forall|i2: int, k2: int|
            space.spec_slot_valid(i2, k2) ==> alloc_final.taken().contains(
                #[trigger] space.spec_slot_addr(i2, k2),
            ),
        forall|i2: int, k2: int|
            space.spec_slot_valid(i2, k2) ==> pa != #[trigger] space.spec_slot_addr(i2, k2),
        forall|k: int, off: int|
            0 <= k < i && 0 <= off < PAGE_SIZE ==> space.pt.spec_query(
                #[trigger] area_byte(base, k, off),
            ) == Some((frames[k].1.paddr@ + off, perms, PageSize::_4K)),
        forall|off: int|
            0 <= off < PAGE_SIZE ==> space.pt.spec_query(#[trigger] area_byte(base, i, off))
                == Some((pa + off, perms, PageSize::_4K)),
    ensures
        spec_area_inv(
            space,
            alloc_final,
            base,
            perms,
            frames.push((vpn, FrameDesc { paddr: PhysAddr { addr: pa as usize } })),
            i + 1,
        ),
{
    reveal(spec_area_inv);
    let frames2 = frames.push((vpn, FrameDesc { paddr: PhysAddr { addr: pa as usize } }));
    assert forall|k: int, i2: int, k2: int|
        0 <= k < i + 1 && space.spec_slot_valid(i2, k2) implies (#[trigger] frames2[k]).1.paddr@
        != #[trigger] space.spec_slot_addr(i2, k2) by {
        if k < i {
            assert(frames2[k] == frames[k]);
        } else {
            assert(frames2[k].1.paddr@ == pa);
        }
    }
    assert forall|k: int|
        0 <= k < i + 1 implies (#[trigger] frames2[k]).0.addr@ == area_page(base, k)
        && frames2[k].0.size == PAGE_SIZE && spec_is_aligned(frames2[k].1.paddr@, PAGE_SIZE as int)
        && alloc_final.taken().contains(frames2[k].1.paddr@) && !crate::page_table::has_node(
        space.pt.nodes@,
        frames2[k].1.paddr@,
    ) && alloc_final.bottom@ <= frames2[k].1.paddr@ < alloc_final.top@ by {
        if k < i {
            assert(frames2[k] == frames[k]);
        } else {
            assert(frames2[k].1.paddr@ == pa);
        }
    }
    assert forall|k1: int, k2: int|
        0 <= k1 < k2 < i + 1 implies (#[trigger] frames2[k1]).1.paddr@ != (
    #[trigger] frames2[k2]).1.paddr@ by {
        if k2 < i {
            assert(frames2[k1] == frames[k1] && frames2[k2] == frames[k2]);
        } else {
            assert(frames2[k1] == frames[k1]);
            assert(frames2[k2].1.paddr@ == pa);
        }
    }
    assert forall|k: int, off: int|
        0 <= k < i + 1 && 0 <= off < PAGE_SIZE implies space.pt.spec_query(
        #[trigger] area_byte(base, k, off),
    ) == Some((frames2[k].1.paddr@ + off, perms, PageSize::_4K)) by {
        if k < i {
            assert(frames2[k] == frames[k]);
        } else {
            assert(frames2[k].1.paddr@ == pa);
        }
    }
}

/// When mapping a page fails midway, the facts gathered so far still hold of
/// the moved state.
#[verifier::spinoff_prover]
#[verifier::rlimit(100)]
proof fn lemma_area_inv_err(
    space: MemorySpace,
    pre_pt: PageTableNative,
    alloc0: FrameAllocator,
    pre_alloc: FrameAllocator,
    alloc_final: FrameAllocator,
    base: int,
    perms: GenericMappingFlags,
    frames: Seq<(VirtPage, FrameDesc)>,
    i: int,
    pa: int,
)
    requires
        i >= 0,
        !alloc0.taken().contains(pa),
        pre_alloc.taken() == alloc0.taken().insert(pa),
        forall|a: int| pre_alloc.taken().contains(a) ==> alloc_final.taken().contains(a),
        alloc0.bottom == alloc_final.bottom,
        alloc0.top == alloc_final.top,
        spec_area_inv(
            MemorySpace {
                pt: pre_pt,
                mapping_areas: space.mapping_areas,
                attr: space.attr,
            },
            alloc0,
            base,
            perms,
            frames,
            i,
        ),
        forall|i2: int, k2: int|
            space.spec_slot_valid(i2, k2) ==> alloc0.taken().contains(
                #[trigger] space.spec_slot_addr(i2, k2),
            ) && !crate::page_table::has_node(pre_pt.nodes@, space.spec_slot_addr(i2, k2)),
        space.pt.nodes@.len() >= pre_pt.nodes@.len(),
        forall|ii: int|
            0 <= ii < pre_pt.nodes@.len() ==> (#[trigger] space.pt.nodes@[ii]).paddr
                == pre_pt.nodes@[ii].paddr,
        forall|ii: int|
            pre_pt.nodes@.len() <= ii < space.pt.nodes@.len() ==> !pre_alloc.taken().contains(
                ((#[trigger] space.pt.nodes@[ii])).paddr@,
            ),
    ensures
        forall|i2: int, k2: int|
            space.spec_slot_valid(i2, k2) ==> alloc_final.taken().contains(
                #[trigger] space.spec_slot_addr(i2, k2),
            ) && !crate::page_table::has_node(space.pt.nodes@, space.spec_slot_addr(i2, k2)),
{
    reveal(spec_area_inv);
    lemma_area_loop_frames(space, pre_pt, alloc0, pre_alloc, alloc_final, pa, frames);
}


/// A space whose areas and attribute are unchanged and whose table is still
/// well formed and apart from the held frames is well formed again.
#[verifier::spinoff_prover]
#[verifier::rlimit(100)]
proof fn lemma_space_wf_rebuild(pre: MemorySpace, post: MemorySpace)
    requires
        pre.wf(),
        post.mapping_areas == pre.mapping_areas,
        post.attr == pre.attr,
        post.pt.wf(),
        post.pt.owned,
        forall|i2: int, k2: int|
            post.spec_slot_valid(i2, k2) ==> !crate::page_table::has_node(
                post.pt.nodes@,
                #[trigger] post.spec_slot_addr(i2, k2),
            ),
    ensures
        post.wf(),
{
    assert forall|ii: int| 0 <= ii < post.mapping_areas@.len() implies (
    #[trigger] post.mapping_areas@[ii]).area_ok() by {
        assert(post.mapping_areas@[ii] == pre.mapping_areas@[ii]);
    }
    assert forall|i1: int, k1: int, i2: int, k2: int|
        post.spec_slot_valid(i1, k1) && post.spec_slot_valid(i2, k2) && !(i1 == i2 && k1 == k2)
            implies #[trigger] post.spec_slot_addr(i1, k1) != #[trigger] post.spec_slot_addr(
        i2,
        k2,
    ) by {
        assert(pre.spec_slot_valid(i1, k1) && pre.spec_slot_valid(i2, k2));
        assert(pre.spec_slot_addr(i1, k1) == post.spec_slot_addr(i1, k1));
        assert(pre.spec_slot_addr(i2, k2) == post.spec_slot_addr(i2, k2));
    }
    if post.attr is Some {
        assert(post.mapping_areas@[post.attr->0.brk_area_idx as int] == pre.mapping_areas@[pre.attr->0.brk_area_idx as int]);
    }
}

} // verus!
