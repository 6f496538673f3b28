//! The native multi-level page table.
//!
//! A three-level walker in the style of a RISC-V Sv39 layout: 512 entries
//! per table, 9-bit indices, leaves at any level (huge pages at the upper
//! two). Table frames are allocated from the frame allocator and owned by
//! the page-table object; their contents — which on hardware live in
//! physical memory behind the linear window — are carried alongside each
//! frame address as the entries of a [`PtNode`].
//!
//! The observable behaviour of a table is its translation function
//! [`PageTableNative::spec_query`]; every mutating operation's contract
//! states how that function changes, at the affected addresses and at all
//! others.

use vstd::prelude::*;

use crate::align::{spec_align_up, spec_is_aligned, lemma_aligned_gap};
use crate::constants::{PAGE_SIZE, SIZE_1G, SIZE_2M};
use crate::cross::CrossMappingAllocator;
use crate::flags::GenericMappingFlags;
use crate::frame::FrameDesc;
use crate::frame_allocator::FrameAllocator;
use crate::mmu::{MMUError, PageSize, PagingError, PagingResult};
use crate::phys_addr::PhysAddr;
use crate::phys_mem::PhysMem;
use crate::pte::Pte;
use crate::virt_addr::VirtAddr;

verus! {

/// The level-3 index of a virtual address: bits 30 to 38.
pub open spec fn p3_index(v: int) -> int {
    (v / (SIZE_1G as int)) % 512
}

/// The level-2 index of a virtual address: bits 21 to 29.
pub open spec fn p2_index(v: int) -> int {
    (v / (SIZE_2M as int)) % 512
}

/// The level-1 index of a virtual address: bits 12 to 20.
pub open spec fn p1_index(v: int) -> int {
    (v / (PAGE_SIZE as int)) % 512
}

/// The page size mapped by a leaf at the given level.
pub open spec fn spec_level_size(level: int) -> int {
    if level == 3 {
        SIZE_1G as int
    } else if level == 2 {
        SIZE_2M as int
    } else {
        PAGE_SIZE as int
    }
}

/// The level at which a mapping of the given page size is installed.
pub open spec fn spec_level_of(size: PageSize) -> int {
    match size {
        PageSize::_1G => 3,
        PageSize::_2M => 2,
        _ => 1,
    }
}

/// Whether a whole entry points at a next-level table.
pub open spec fn is_table_entry(pte: Pte) -> bool {
    pte.spec_present() && !pte.spec_leaf()
}

/// Whether the window accounting stays at page granularity: the base and
/// every window boundary are page aligned.
#[verifier::opaque]
pub open spec fn spec_windows_page_aligned(c: CrossMappingAllocator) -> bool {
    &&& spec_is_aligned(c.base@, PAGE_SIZE as int)
    &&& forall|i: int|
        0 <= i < c.windows@.len() ==> spec_is_aligned(
            (#[trigger] c.windows@[i]).vaddr@,
            PAGE_SIZE as int,
        ) && c.windows@[i].size % PAGE_SIZE == 0
}

/// One table of the multi-level page table: the physical frame backing it
/// and its 512 entries.
pub struct PtNode {
    pub paddr: PhysAddr,
    pub level: usize,
    pub entries: Vec<Pte>,
}

/// Whether a single table is internally well formed.
pub open spec fn node_ok(n: PtNode) -> bool {
    &&& n.entries@.len() == 512
    &&& spec_is_aligned(n.paddr@, PAGE_SIZE as int)
    &&& 1 <= n.level <= 3
    &&& forall|e: int|
        0 <= e < 512 ==> (#[trigger] n.entries@[e]).spec_paddr() <= usize::MAX
    &&& forall|e: int|
        0 <= e < 512 && (#[trigger] n.entries@[e]).spec_leaf() ==> spec_is_aligned(
            n.entries@[e].spec_paddr(),
            spec_level_size(n.level as int),
        )
    &&& n.level == 1 ==> forall|e: int|
        0 <= e < 512 && (#[trigger] n.entries@[e]).spec_present() ==> n.entries@[e].spec_leaf()
}

/// How the tables link into a tree: every table pointer leads to a table one
/// level down, and no two table pointers share a target.
#[verifier::opaque]
pub open spec fn nodes_linked(nodes: Seq<PtNode>) -> bool {
    &&& forall|i: int, e: int|
        0 <= i < nodes.len() && 0 <= e < 512 && is_table_entry(
            #[trigger] nodes[i].entries@[e],
        ) ==> nodes[i].level >= 2 && has_node_at(
            nodes,
            nodes[i].entries@[e].spec_paddr(),
            nodes[i].level - 1,
        )
    &&& forall|i1: int, e1: int, i2: int, e2: int|
        0 <= i1 < nodes.len() && 0 <= e1 < 512 && 0 <= i2 < nodes.len() && 0 <= e2 < 512
            && is_table_entry(#[trigger] nodes[i1].entries@[e1]) && is_table_entry(
            #[trigger] nodes[i2].entries@[e2],
        ) && !(i1 == i2 && e1 == e2) ==> nodes[i1].entries@[e1].spec_paddr()
            != nodes[i2].entries@[e2].spec_paddr()
}

/// Whether the node list holds a table at the given frame address.
pub open spec fn has_node(s: Seq<PtNode>, paddr: int) -> bool {
    exists|k: int| 0 <= k < s.len() && #[trigger] s[k].paddr@ == paddr
}

/// The index of the table at the given frame address.
pub open spec fn node_idx(s: Seq<PtNode>, paddr: int) -> int {
    choose|k: int| 0 <= k < s.len() && #[trigger] s[k].paddr@ == paddr
}

/// The native page table: the root frame address and the tables hanging off
/// it. A borrowed table (`owned == false`) holds only the root and cannot be
/// read or modified here; an owned table carries every table frame it
/// allocated and the accounting of its cross-space windows.
pub struct PageTableNative {
    pub root: PhysAddr,
    pub nodes: Vec<PtNode>,
    pub owned: bool,
    pub frames: Vec<FrameDesc>,
    pub cross_mappings: CrossMappingAllocator,
}

impl PageTableNative {
    /// Well-formedness of the whole table tree.
    pub open spec fn wf(self) -> bool {
        &&& self.owned ==> self.nodes@.len() >= 1 && self.nodes@[0].paddr == self.root
            && self.nodes@[0].level == 3
        &&& !self.owned ==> self.nodes@.len() == 0
        &&& forall|i: int| 0 <= i < self.nodes@.len() ==> node_ok(#[trigger] self.nodes@[i])
        &&& forall|i: int| 1 <= i < self.nodes@.len() ==> (#[trigger] self.nodes@[i]).level <= 2
        &&& forall|i: int, j: int|
            0 <= i < j < self.nodes@.len() ==> (#[trigger] self.nodes@[i]).paddr@ != (
            #[trigger] self.nodes@[j]).paddr@
        &&& nodes_linked(self.nodes@)
        &&& self.cross_mappings.wf()
        &&& spec_windows_page_aligned(self.cross_mappings)
        &&& self.frames@.len() == self.nodes@.len()
        &&& forall|i: int|
            0 <= i < self.nodes@.len() ==> (#[trigger] self.frames@[i]).paddr
                == self.nodes@[i].paddr
    }

    /// Whether every table frame is accounted as outstanding in the given
    /// allocator.
    pub open spec fn frames_owned_by(self, alloc: FrameAllocator) -> bool {
        forall|i: int|
            0 <= i < self.nodes@.len() ==> alloc.taken().contains(
                (#[trigger] self.nodes@[i]).paddr@,
            )
    }

    /// The entry the three-level walk finds for a virtual address, together
    /// with the page size of its level; `None` when the walk hits a missing
    /// table.
    pub open spec fn spec_entry_lookup(self, v: int) -> Option<(Pte, PageSize)> {
        if self.nodes@.len() == 0 {
            None
        } else {
            let e3 = self.nodes@[0].entries@[p3_index(v)];
            if e3.spec_leaf() {
                Some((e3, PageSize::_1G))
            } else if !e3.spec_present() {
                None
            } else {
                let n2 = self.nodes@[node_idx(self.nodes@, e3.spec_paddr())];
                let e2 = n2.entries@[p2_index(v)];
                if e2.spec_leaf() {
                    Some((e2, PageSize::_2M))
                } else if !e2.spec_present() {
                    None
                } else {
                    let n1 = self.nodes@[node_idx(self.nodes@, e2.spec_paddr())];
                    Some((n1.entries@[p1_index(v)], PageSize::_4K))
                }
            }
        }
    }

    /// The translation function of the table: the physical address (with the
    /// offset within the page), the permission flags and the page size a
    /// virtual address resolves to, or `None` where it is unmapped.
    pub open spec fn spec_query(self, v: int) -> Option<(int, GenericMappingFlags, PageSize)> {
        match self.spec_entry_lookup(v) {
            Option::None => None,
            Option::Some((e, sz)) => if e.spec_is_empty() {
                None
            } else {
                Some(
                    (
                        e.spec_paddr() + v % (sz.spec_as_usize() as int),
                        e.spec_flags(),
                        sz,
                    ),
                )
            },
        }
    }

    /// Attaches to an existing page-table root without taking ownership.
    ///
    /// A borrowed table cannot be modified, and — unlike the native kernel,
    /// which walks the attached tree through the linear window — this model
    /// does not read the attached root's memory either: the borrowed read
    /// path is dropped. Its translations are deliberately left unspecified;
    /// at run time every query reports `NotMapped` and every mutation fails
    /// with `CanNotModify`.
    pub fn new(root: PhysAddr) -> (r: Self)
        ensures
            r.root == root,
            !r.owned,
            r.wf(),
    {
        let r = PageTableNative {
            root,
            nodes: Vec::new(),
            owned: false,
            frames: Vec::new(),
            cross_mappings: CrossMappingAllocator::new(VirtAddr { addr: crate::constants::CROSS_WINDOW_BASE }),
        };
        proof {
            assert(spec_windows_page_aligned(r.cross_mappings)) by {
                reveal(spec_windows_page_aligned);
                assert((crate::constants::CROSS_WINDOW_BASE as int) % (PAGE_SIZE as int) == 0);
            }
            assert(nodes_linked(r.nodes@)) by {
                reveal(nodes_linked);
            }
        }
        r
    }

    /// Allocates a fresh root table frame and returns an owned, empty page
    /// table whose translation is undefined everywhere.
    pub fn alloc_root(alloc: &mut FrameAllocator) -> (r: Self)
        requires
            old(alloc).wf(),
            old(alloc).spec_available() >= 1,
        ensures
            (final(alloc)).wf(),
            (final(alloc)).bottom == old(alloc).bottom,
            (final(alloc)).top == old(alloc).top,
            r.wf(),
            r.owned,
            r.cross_mappings.windows@.len() == 0,
            r.frames_owned_by(*final(alloc)),
            forall|a: int|
                old(alloc).taken().contains(a) ==> (final(alloc)).taken().contains(a),
            forall|a: int|
                (final(alloc)).taken().contains(a) ==> old(alloc).taken().contains(a) || a
                    == r.root@,
            !old(alloc).taken().contains(r.root@),
            forall|w: int| r.spec_query(w) is None,
    {
        proof {
            if old(alloc).recycled@.len() == 0 && old(alloc).current@ >= old(alloc).top@ {
                vstd::arithmetic::div_mod::lemma_basic_div(
                    old(alloc).top@ - old(alloc).current@,
                    PAGE_SIZE as int,
                );
            }
        }
        let frame = alloc.alloc_frame();
        match frame {
            Some(f) => {
                let root = f.paddr;
                let node = PtNode { paddr: root, level: 3, entries: empty_entries() };
                let mut nodes: Vec<PtNode> = Vec::new();
                nodes.push(node);
                let mut frames: Vec<FrameDesc> = Vec::new();
                frames.push(f);
                let r = PageTableNative {
                    root,
                    nodes,
                    owned: true,
                    frames,
                    cross_mappings: CrossMappingAllocator::new(VirtAddr { addr: crate::constants::CROSS_WINDOW_BASE }),
                };
                proof {
                    assert(spec_windows_page_aligned(r.cross_mappings)) by {
                        reveal(spec_windows_page_aligned);
                        assert((crate::constants::CROSS_WINDOW_BASE as int) % (PAGE_SIZE as int)
                            == 0);
                    }
                    assert(nodes_linked(r.nodes@)) by {
                        reveal(nodes_linked);
                        assert forall|i: int, e: int|
                            0 <= i < r.nodes@.len() && 0 <= e < 512 implies !is_table_entry(
                            #[trigger] r.nodes@[i].entries@[e],
                        ) by {
                            assert(r.nodes@[i].entries@[e].bits == 0);
                        }
                    }
                    assert forall|w: int| r.spec_query(w) is None by {
                        assert(r.nodes@[0].entries@[p3_index(w)].bits == 0);
                        vstd::arithmetic::div_mod::lemma_mod_division_less_than_divisor(
                            w / (SIZE_1G as int),
                            512,
                        );
                    }
                }
                r
            },
            None => {
                proof {
                    assert(false);
                }
                PageTableNative {
                    root: PhysAddr { addr: 0 },
                    nodes: Vec::new(),
                    owned: false,
                    frames: Vec::new(),
                    cross_mappings: CrossMappingAllocator::new(VirtAddr { addr: crate::constants::CROSS_WINDOW_BASE }),
                }
            },
        }
    }

    /// The architecture-specific identifier of the page-table root, suitable
    /// for programming the hardware register that activates the address
    /// space.
    pub fn platform_payload(&self) -> (r: usize)
        ensures
            r == self.root@,
    {
        self.root.addr
    }

    /// The root frame address.
    pub fn root(&self) -> (r: PhysAddr)
        ensures
            r == self.root,
    {
        self.root
    }

    /// Finds the table backed by the given frame address.
    fn find_node(&self, paddr: PhysAddr) -> (r: Option<usize>)
        requires
            self.wf(),
        ensures
            r is Some <==> has_node(self.nodes@, paddr@),
            r is Some ==> r->0 < self.nodes@.len() && self.nodes@[r->0 as int].paddr == paddr
                && node_idx(self.nodes@, paddr@) == r->0,
    {
        let n = self.nodes.len();
        let mut i: usize = 0;
        while i < n
            invariant
                i <= n,
                n == self.nodes@.len(),
                self.wf(),
                forall|k: int| 0 <= k < i ==> (#[trigger] self.nodes@[k]).paddr@ != paddr@,
            decreases n - i,
        {
            if self.nodes[i].paddr.addr == paddr.addr {
                proof {
                    assert(self.nodes@[i as int].paddr@ == paddr@);
                    assert(self.nodes@[i as int].paddr == paddr) by {
                        assert(self.nodes@[i as int].paddr.addr == paddr.addr);
                    }
                    lemma_node_idx_is(self.nodes@, paddr@, i as int);
                }
                return Some(i);
            }
            i = i + 1;
        }
        None
    }

    /// Walks the table for a virtual address, tolerating huge leaves at the
    /// upper levels; the read path of the walker.
    fn get_entry(&self, vaddr: VirtAddr) -> (r: PagingResult<(Pte, PageSize)>)
        requires
            self.wf(),
        ensures
            match self.spec_entry_lookup(vaddr@) {
                Option::None => r == PagingResult::<(Pte, PageSize)>::Err(PagingError::NotMapped),
                Option::Some(es) => r == PagingResult::<(Pte, PageSize)>::Ok(es),
            },
            r is Ok ==> (r->Ok_0.1 == PageSize::_4K || r->Ok_0.1 == PageSize::_2M || r->Ok_0.1
                == PageSize::_1G),
    {
        proof {
            reveal(nodes_linked);
        }
        if self.nodes.len() == 0 {
            return Err(PagingError::NotMapped);
        }
        let i3 = index_of_level(vaddr, 3);
        let e3 = self.nodes[0].entries[i3];
        if e3.is_leaf() {
            return Ok((e3, PageSize::_1G));
        }
        if !e3.is_present() {
            return Err(PagingError::NotMapped);
        }
        proof {
            assert(is_table_entry(self.nodes@[0].entries@[i3 as int]));
        }
        let k2 = match self.find_node(e3.paddr()) {
            Some(k) => k,
            None => {
                proof {
                    assert(has_node_at(self.nodes@, e3.spec_paddr(), 2));
                    assert(has_node(self.nodes@, e3.spec_paddr()));
                    assert(false);
                }
                return Err(PagingError::NotMapped);
            },
        };
        let i2 = index_of_level(vaddr, 2);
        let e2 = self.nodes[k2].entries[i2];
        if e2.is_leaf() {
            return Ok((e2, PageSize::_2M));
        }
        if !e2.is_present() {
            return Err(PagingError::NotMapped);
        }
        proof {
            assert(is_table_entry(self.nodes@[k2 as int].entries@[i2 as int]));
        }
        let k1 = match self.find_node(e2.paddr()) {
            Some(k) => k,
            None => {
                proof {
                    assert(has_node_at(self.nodes@, e2.spec_paddr(), 1));
                    assert(has_node(self.nodes@, e2.spec_paddr()));
                    assert(false);
                }
                return Err(PagingError::NotMapped);
            },
        };
        let i1 = index_of_level(vaddr, 1);
        let e1 = self.nodes[k1].entries[i1];
        Ok((e1, PageSize::_4K))
    }

    /// Translates a virtual address: the physical address including the
    /// offset within the page, the permission flags, and the page size.
    pub fn query_virtual(&self, vaddr: VirtAddr) -> (r: PagingResult<
        (PhysAddr, GenericMappingFlags, PageSize),
    >)
        requires
            self.wf(),
        ensures
            match self.spec_query(vaddr@) {
                Option::None => r == PagingResult::<(PhysAddr, GenericMappingFlags, PageSize)>::Err(
                    PagingError::NotMapped,
                ),
                Option::Some((pa, fl, sz)) => r == PagingResult::<
                    (PhysAddr, GenericMappingFlags, PageSize),
                >::Ok((PhysAddr { addr: pa as usize }, fl, sz)) && pa <= usize::MAX,
            },
    {
        let looked = self.get_entry(vaddr);
        match looked {
            Err(e) => Err(e),
            Ok((entry, size)) => {
                if entry.is_empty() {
                    return Err(PagingError::NotMapped);
                }
                proof {
                    lemma_lookup_entry_in_some_node(*self, vaddr@);
                }
                let size_bytes = size.as_usize();
                let offset = vaddr.offset_from_alignment(size_bytes);
                let base = entry.paddr();
                proof {
                    let lvl = spec_lookup_level(size);
                    vstd::arithmetic::div_mod::lemma_mod_division_less_than_divisor(
                        vaddr@,
                        size_bytes as int,
                    );
                    lemma_aligned_paddr_plus_offset(base@, size_bytes as int, offset as int);
                }
                Ok((PhysAddr { addr: base.addr + offset }, entry.flags(), size))
            },
        }
    }
}

/// The level a lookup result's page size belongs to.
pub open spec fn spec_lookup_level(size: PageSize) -> int {
    spec_level_of(size)
}

/// Whether the node list holds a table at the given frame address and level.
pub open spec fn has_node_at(s: Seq<PtNode>, paddr: int, level: int) -> bool {
    exists|k: int|
        0 <= k < s.len() && #[trigger] s[k].paddr@ == paddr && s[k].level == level
}

/// A fresh table: 512 zeroed entries.
fn empty_entries() -> (r: Vec<Pte>)
    ensures
        r@.len() == 512,
        forall|e: int| 0 <= e < 512 ==> (#[trigger] r@[e]).bits == 0,
{
    let mut v: Vec<Pte> = Vec::new();
    let mut i: usize = 0;
    while i < 512
        invariant
            i <= 512,
            v@.len() == i,
            forall|e: int| 0 <= e < i ==> (#[trigger] v@[e]).bits == 0,
        decreases 512 - i,
    {
        v.push(Pte { bits: 0 });
        i = i + 1;
    }
    v
}

/// The table index of a virtual address at the given level.
fn index_of_level(vaddr: VirtAddr, level: usize) -> (r: usize)
    requires
        1 <= level <= 3,
    ensures
        level == 3 ==> r == p3_index(vaddr@),
        level == 2 ==> r == p2_index(vaddr@),
        level == 1 ==> r == p1_index(vaddr@),
        r < 512,
    {
    let divisor: usize = if level == 3 {
        SIZE_1G
    } else if level == 2 {
        SIZE_2M
    } else {
        PAGE_SIZE
    };
    proof {
        vstd::arithmetic::div_mod::lemma_mod_division_less_than_divisor(
            vaddr@ / (divisor as int),
            512,
        );
    }
    (vaddr.addr / divisor) % 512
}

/// In a list with distinct frame addresses, `node_idx` picks the index that
/// holds the address.
proof fn lemma_node_idx_is(s: Seq<PtNode>, paddr: int, i: int)
    requires
        0 <= i < s.len(),
        s[i].paddr@ == paddr,
        forall|a: int, b: int|
            0 <= a < b < s.len() ==> (#[trigger] s[a]).paddr@ != (#[trigger] s[b]).paddr@,
    ensures
        has_node(s, paddr),
        node_idx(s, paddr) == i,
{
    assert(has_node(s, paddr));
    let k = node_idx(s, paddr);
    assert(0 <= k < s.len() && s[k].paddr@ == paddr);
    if k != i {
        if k < i {
            assert(s[k].paddr@ != s[i].paddr@);
        } else {
            assert(s[i].paddr@ != s[k].paddr@);
        }
        assert(false);
    }
}

/// The entry a lookup returns lies in one of the table's nodes, so the
/// bounds of `node_ok` apply to it.
proof fn lemma_lookup_entry_in_some_node(pt: PageTableNative, v: int)
    requires
        pt.wf(),
        pt.spec_entry_lookup(v) is Some,
    ensures
        (pt.spec_entry_lookup(v)->0).0.spec_paddr() <= usize::MAX,
        (pt.spec_entry_lookup(v)->0).0.spec_leaf() ==> spec_is_aligned(
            (pt.spec_entry_lookup(v)->0).0.spec_paddr(),
            spec_level_size(spec_lookup_level((pt.spec_entry_lookup(v)->0).1)),
        ),
{
    reveal(nodes_linked);
    let e3 = pt.nodes@[0].entries@[p3_index(v)];
    vstd::arithmetic::div_mod::lemma_mod_division_less_than_divisor(v / (SIZE_1G as int), 512);
    vstd::arithmetic::div_mod::lemma_mod_division_less_than_divisor(v / (SIZE_2M as int), 512);
    vstd::arithmetic::div_mod::lemma_mod_division_less_than_divisor(v / (PAGE_SIZE as int), 512);
    if e3.spec_leaf() {
    } else if e3.spec_present() {
        assert(is_table_entry(e3));
        let k2 = node_idx(pt.nodes@, e3.spec_paddr());
        assert(has_node_at(pt.nodes@, e3.spec_paddr(), 2));
        lemma_has_node_at_idx(pt, e3.spec_paddr(), 2);
        let e2 = pt.nodes@[k2].entries@[p2_index(v)];
        if e2.spec_leaf() {
        } else if e2.spec_present() {
            assert(is_table_entry(e2));
            assert(pt.nodes@[k2].level >= 2);
            assert(pt.nodes@[k2].level - 1 == 1);
            lemma_has_node_at_idx(pt, e2.spec_paddr(), 1);
        }
    }
}

/// When a node with the given address and level exists, `node_idx` finds a
/// node with that address, and by distinctness it is that very node.
proof fn lemma_has_node_at_idx(pt: PageTableNative, paddr: int, level: int)
    requires
        pt.wf(),
        has_node_at(pt.nodes@, paddr, level),
    ensures
        has_node(pt.nodes@, paddr),
        0 <= node_idx(pt.nodes@, paddr) < pt.nodes@.len(),
        pt.nodes@[node_idx(pt.nodes@, paddr)].paddr@ == paddr,
        pt.nodes@[node_idx(pt.nodes@, paddr)].level == level,
{
    let w = choose|k: int|
        0 <= k < pt.nodes@.len() && #[trigger] pt.nodes@[k].paddr@ == paddr && pt.nodes@[k].level
            == level;
    lemma_node_idx_is(pt.nodes@, paddr, w);
}

/// A page-aligned base plus an in-page offset stays within the machine word.
proof fn lemma_aligned_paddr_plus_offset(base: int, size: int, offset: int)
    requires
        size == PAGE_SIZE || size == SIZE_2M || size == SIZE_1G,
        spec_is_aligned(base, size),
        0 <= base <= usize::MAX,
        0 <= offset < size,
    ensures
        base + offset <= usize::MAX,
{
    let words: int = usize::MAX as int + 1;
    assert(words % size == 0) by {
        if usize::MAX as int == 0xffff_ffff_ffff_ffffint {
            assert((0x1_0000_0000_0000_0000int % (PAGE_SIZE as int)) == 0);
            assert((0x1_0000_0000_0000_0000int % (SIZE_2M as int)) == 0);
            assert((0x1_0000_0000_0000_0000int % (SIZE_1G as int)) == 0);
        } else {
            assert((0x1_0000_0000int % (PAGE_SIZE as int)) == 0);
            assert((0x1_0000_0000int % (SIZE_2M as int)) == 0);
            assert((0x1_0000_0000int % (SIZE_1G as int)) == 0);
        }
    }
    if base + size > words {
        lemma_aligned_gap(base, words, size);
        assert(false);
    }
}


/// Whether two virtual addresses walk through the same slot at the given
/// level: their indices agree at that level and at every level above it.
pub open spec fn same_path(v: int, w: int, level: int) -> bool {
    &&& p3_index(w) == p3_index(v)
    &&& level <= 2 ==> p2_index(w) == p2_index(v)
    &&& level <= 1 ==> p1_index(w) == p1_index(v)
}

/// The table index a walk uses at the given level.
pub open spec fn spec_index_at(v: int, level: int) -> int {
    if level == 3 {
        p3_index(v)
    } else if level == 2 {
        p2_index(v)
    } else {
        p1_index(v)
    }
}

/// Whether the entry is visible to a query when it sits at the given level:
/// at the bottom level any non-zero entry answers; above, only leaves do.
pub open spec fn spec_visible(pte: Pte, level: int) -> bool {
    if level == 1 {
        !pte.spec_is_empty()
    } else {
        pte.spec_leaf()
    }
}

/// The page size a lookup reports for a leaf at the given level.
pub open spec fn spec_size_at(level: int) -> PageSize {
    if level == 3 {
        PageSize::_1G
    } else if level == 2 {
        PageSize::_2M
    } else {
        PageSize::_4K
    }
}

impl PageTableNative {
    /// Whether the walk of `v` reaches a table at the given level without
    /// being stopped by a leaf or a missing table above it.
    pub open spec fn spec_path_exists(self, v: int, level: int) -> bool {
        if self.nodes@.len() == 0 {
            false
        } else if level == 3 {
            true
        } else {
            let e3 = self.nodes@[0].entries@[p3_index(v)];
            if !is_table_entry(e3) {
                false
            } else if level == 2 {
                true
            } else {
                let n2 = self.nodes@[node_idx(self.nodes@, e3.spec_paddr())];
                is_table_entry(n2.entries@[p2_index(v)])
            }
        }
    }

    /// The index of the node the walk of `v` visits at the given level.
    pub open spec fn spec_path_node(self, v: int, level: int) -> int {
        if level == 3 {
            0
        } else {
            let e3 = self.nodes@[0].entries@[p3_index(v)];
            if level == 2 {
                node_idx(self.nodes@, e3.spec_paddr())
            } else {
                let n2 = self.nodes@[node_idx(self.nodes@, e3.spec_paddr())];
                node_idx(self.nodes@, n2.entries@[p2_index(v)].spec_paddr())
            }
        }
    }

    /// Whether the walk of `w` reads the slot `(k, e)`.
    pub open spec fn spec_walk_reads(self, w: int, k: int, e: int) -> bool {
        if self.nodes@.len() == 0 {
            false
        } else if k == 0 && p3_index(w) == e {
            true
        } else {
            let e3 = self.nodes@[0].entries@[p3_index(w)];
            if !is_table_entry(e3) {
                false
            } else {
                let k2 = node_idx(self.nodes@, e3.spec_paddr());
                if k2 == k && p2_index(w) == e {
                    true
                } else {
                    let e2 = self.nodes@[k2].entries@[p2_index(w)];
                    if !is_table_entry(e2) {
                        false
                    } else {
                        node_idx(self.nodes@, e2.spec_paddr()) == k && p1_index(w) == e
                    }
                }
            }
        }
    }

    /// The walk of `v`, returning the location of the entry it stops at.
    fn locate_entry(&self, vaddr: VirtAddr) -> (r: PagingResult<(usize, usize, Pte, PageSize)>)
        requires
            self.wf(),
        ensures
            r is Err ==> r->Err_0 == PagingError::NotMapped && self.spec_entry_lookup(vaddr@)
                is None,
            r is Ok ==> {
                let (k, e, pte, sz) = r->Ok_0;
                let level = spec_level_of(sz);
                &&& self.spec_entry_lookup(vaddr@) == Some((pte, sz))
                &&& self.spec_path_exists(vaddr@, level)
                &&& k == self.spec_path_node(vaddr@, level)
                &&& e == spec_index_at(vaddr@, level)
                &&& k < self.nodes@.len()
                &&& e < 512
                &&& self.nodes@[k as int].entries@[e as int] == pte
                &&& self.nodes@[k as int].level == level
                &&& sz == spec_size_at(level)
                &&& !is_table_entry(pte)
            },
    {
        proof {
            reveal(nodes_linked);
            lemma_index_bounds_all();
        }
        if self.nodes.len() == 0 {
            return Err(PagingError::NotMapped);
        }
        let i3 = index_of_level(vaddr, 3);
        let e3 = self.nodes[0].entries[i3];
        if e3.is_leaf() {
            return Ok((0, i3, e3, PageSize::_1G));
        }
        if !e3.is_present() {
            return Err(PagingError::NotMapped);
        }
        proof {
            assert(is_table_entry(self.nodes@[0].entries@[i3 as int]));
        }
        let k2 = match self.find_node(e3.paddr()) {
            Some(k) => k,
            None => {
                proof {
                    assert(has_node_at(self.nodes@, e3.spec_paddr(), 2));
                    assert(has_node(self.nodes@, e3.spec_paddr()));
                    assert(false);
                }
                return Err(PagingError::NotMapped);
            },
        };
        let i2 = index_of_level(vaddr, 2);
        let e2 = self.nodes[k2].entries[i2];
        if e2.is_leaf() {
            proof {
                lemma_has_node_at_idx(*self, e3.spec_paddr(), 2);
            }
            return Ok((k2, i2, e2, PageSize::_2M));
        }
        if !e2.is_present() {
            return Err(PagingError::NotMapped);
        }
        proof {
            assert(is_table_entry(self.nodes@[k2 as int].entries@[i2 as int]));
            lemma_has_node_at_idx(*self, e3.spec_paddr(), 2);
        }
        let k1 = match self.find_node(e2.paddr()) {
            Some(k) => k,
            None => {
                proof {
                    assert(has_node_at(self.nodes@, e2.spec_paddr(), 1));
                    assert(has_node(self.nodes@, e2.spec_paddr()));
                    assert(false);
                }
                return Err(PagingError::NotMapped);
            },
        };
        let i1 = index_of_level(vaddr, 1);
        let e1 = self.nodes[k1].entries[i1];
        proof {
            lemma_has_node_at_idx(*self, e2.spec_paddr(), 1);
            assert(self.nodes@[k1 as int].level == 1);
            if is_table_entry(e1) {
                assert(self.nodes@[k1 as int].entries@[i1 as int].spec_present());
                assert(self.nodes@[k1 as int].entries@[i1 as int].spec_leaf());
                assert(false);
            }
        }
        Ok((k1, i1, e1, PageSize::_4K))
    }

    /// Replaces one entry of one node, leaving the table otherwise
    /// unchanged.
    fn write_slot(&mut self, k: usize, e: usize, pte: Pte)
        requires
            k < old(self).nodes@.len(),
            e < 512,
            old(self).nodes@[k as int].entries@.len() == 512,
        ensures
            (final(self)).root == old(self).root,
            (final(self)).owned == old(self).owned,
            (final(self)).frames == old(self).frames,
            (final(self)).cross_mappings == old(self).cross_mappings,
            (final(self)).nodes@.len() == old(self).nodes@.len(),
            forall|i: int|
                0 <= i < old(self).nodes@.len() ==> ((final(self)).nodes@[i]).paddr == old(self).nodes@[i].paddr && ((final(self)).nodes@[i]).level == old(self).nodes@[i].level
                    && ((final(self)).nodes@[i]).entries@.len() == old(self).nodes@[i].entries@.len(),
            forall|i: int, e2: int|
                0 <= i < old(self).nodes@.len() && 0 <= e2
                    < old(self).nodes@[i].entries@.len() && !(i == k && e2 == e) ==> ((final(self)).nodes@[i]).entries@[e2] == old(self).nodes@[i].entries@[e2],
            (final(self)).nodes@[k as int].entries@[e as int] == pte,
    {
        let mut node = self.nodes.remove(k);
        node.entries.set(e, pte);
        self.nodes.insert(k, node);
        proof {
            assert forall|i: int|
                0 <= i < old(self).nodes@.len() && i != k implies (final(self)).nodes@[i] == old(self).nodes@[i] by {
                if i < k {
                } else {
                }
            }
        }
    }
}

/// Bounds for the three index functions, for every address.
proof fn lemma_index_bounds_all()
    ensures
        forall|w: int| 0 <= #[trigger] p3_index(w) < 512,
        forall|w: int| 0 <= #[trigger] p2_index(w) < 512,
        forall|w: int| 0 <= #[trigger] p1_index(w) < 512,
{
    assert forall|w: int| 0 <= #[trigger] p3_index(w) < 512 by {
        vstd::arithmetic::div_mod::lemma_mod_division_less_than_divisor(w / (SIZE_1G as int), 512);
    }
    assert forall|w: int| 0 <= #[trigger] p2_index(w) < 512 by {
        vstd::arithmetic::div_mod::lemma_mod_division_less_than_divisor(w / (SIZE_2M as int), 512);
    }
    assert forall|w: int| 0 <= #[trigger] p1_index(w) < 512 by {
        vstd::arithmetic::div_mod::lemma_mod_division_less_than_divisor(w / (PAGE_SIZE as int), 512);
    }
}

/// The node a path-exists walk lands on is a real node of the tree, at the
/// right level.
proof fn lemma_path_node_in_range(pt: PageTableNative, v: int, level: int)
    requires
        pt.wf(),
        1 <= level <= 3,
        pt.spec_path_exists(v, level),
    ensures
        0 <= pt.spec_path_node(v, level) < pt.nodes@.len(),
        pt.nodes@[pt.spec_path_node(v, level)].level == level,
{
    reveal(nodes_linked);
    lemma_index_bounds_all();
    if level == 3 {
    } else {
        let e3 = pt.nodes@[0].entries@[p3_index(v)];
        assert(is_table_entry(e3));
        assert(has_node_at(pt.nodes@, e3.spec_paddr(), 2));
        lemma_has_node_at_idx(pt, e3.spec_paddr(), 2);
        if level == 1 {
            let n2 = pt.nodes@[node_idx(pt.nodes@, e3.spec_paddr())];
            let e2 = n2.entries@[p2_index(v)];
            assert(is_table_entry(e2));
            assert(has_node_at(pt.nodes@, e2.spec_paddr(), 1));
            lemma_has_node_at_idx(pt, e2.spec_paddr(), 1);
        }
    }
}

/// `has_node_at` carries over between node lists that agree on address and
/// level at every index of the first.
proof fn lemma_has_node_at_preserved(s1: Seq<PtNode>, s2: Seq<PtNode>, paddr: int, level: int)
    requires
        s2.len() >= s1.len(),
        forall|i: int|
            0 <= i < s1.len() ==> (#[trigger] s2[i]).paddr == s1[i].paddr && s2[i].level
                == s1[i].level,
        has_node_at(s1, paddr, level),
    ensures
        has_node_at(s2, paddr, level),
{
    let w = choose|k: int|
        0 <= k < s1.len() && #[trigger] s1[k].paddr@ == paddr && s1[k].level == level;
    assert(s2[w].paddr@ == paddr && s2[w].level == level);
}

/// When the walk of `w` never reads a replaced slot, its outcome does not
/// change.
proof fn lemma_same_subwalk(pre: PageTableNative, post: PageTableNative, k: int, e: int, w: int)
    requires
        pre.wf(),
        0 <= k < pre.nodes@.len(),
        0 <= e < 512,
        post.nodes@.len() == pre.nodes@.len(),
        forall|i: int|
            0 <= i < post.nodes@.len() ==> (#[trigger] post.nodes@[i]).paddr == pre.nodes@[i].paddr
                && post.nodes@[i].level == pre.nodes@[i].level && post.nodes@[i].entries@.len()
                == 512,
        forall|i: int, e2: int|
            0 <= i < post.nodes@.len() && 0 <= e2 < 512 && !(i == k && e2 == e)
                ==> (#[trigger] post.nodes@[i].entries@[e2]) == pre.nodes@[i].entries@[e2],
        !pre.spec_walk_reads(w, k, e),
    ensures
        post.spec_query(w) == pre.spec_query(w),
        post.spec_entry_lookup(w) == pre.spec_entry_lookup(w),
        post.spec_path_constructible(w, 1) == pre.spec_path_constructible(w, 1),
        spec_slot_pte(post, w, 1) == spec_slot_pte(pre, w, 1),
{
    reveal(nodes_linked);
    lemma_index_bounds_all();
    if pre.nodes@.len() == 0 {
        return;
    }
    let e3_pre = pre.nodes@[0].entries@[p3_index(w)];
    let e3_post = post.nodes@[0].entries@[p3_index(w)];
    assert(e3_post == e3_pre) by {
        assert(!(0 == k && p3_index(w) == e));
    }
    if e3_pre.spec_leaf() {
    } else if !e3_pre.spec_present() {
    } else {
        assert(is_table_entry(e3_pre));
        lemma_has_node_at_idx(pre, e3_pre.spec_paddr(), 2);
        let k2 = node_idx(pre.nodes@, e3_pre.spec_paddr());
        lemma_node_idx_is(post.nodes@, e3_pre.spec_paddr(), k2);
        let e2_pre = pre.nodes@[k2].entries@[p2_index(w)];
        let e2_post = post.nodes@[k2].entries@[p2_index(w)];
        assert(e2_post == e2_pre) by {
            assert(!(k2 == k && p2_index(w) == e));
        }
        if e2_pre.spec_leaf() {
        } else if !e2_pre.spec_present() {
        } else {
            assert(is_table_entry(e2_pre));
            lemma_has_node_at_idx(pre, e2_pre.spec_paddr(), 1);
            let k1 = node_idx(pre.nodes@, e2_pre.spec_paddr());
            lemma_node_idx_is(post.nodes@, e2_pre.spec_paddr(), k1);
            assert(post.nodes@[k1].entries@[p1_index(w)] == pre.nodes@[k1].entries@[p1_index(w)])
                by {
                assert(!(k1 == k && p1_index(w) == e));
            }
        }
    }
}

/// A walk that does not share the updated slot's path never reads the slot.
proof fn lemma_unrelated_walk_misses_slot(
    pre: PageTableNative,
    v: int,
    level: int,
    w: int,
)
    requires
        pre.wf(),
        1 <= level <= 3,
        pre.spec_path_exists(v, level),
        !same_path(v, w, level),
    ensures
        !pre.spec_walk_reads(w, pre.spec_path_node(v, level), spec_index_at(v, level)),
{
    reveal(nodes_linked);
    lemma_index_bounds_all();
    let k = pre.spec_path_node(v, level);
    let e = spec_index_at(v, level);
    lemma_path_node_in_range(pre, v, level);
    if pre.spec_walk_reads(w, k, e) {
        if k == 0 && p3_index(w) == e {
            // Slot in the root: level 3 and the third-level index matches.
            assert(level == 3) by {
                assert(pre.nodes@[k].level == level);
                assert(pre.nodes@[0].level == 3);
            }
            assert(p3_index(w) == p3_index(v));
            assert(false);
        } else {
            let e3w = pre.nodes@[0].entries@[p3_index(w)];
            assert(is_table_entry(e3w));
            lemma_has_node_at_idx(pre, e3w.spec_paddr(), 2);
            let k2w = node_idx(pre.nodes@, e3w.spec_paddr());
            if k2w == k && p2_index(w) == e {
                assert(level == 2) by {
                    assert(pre.nodes@[k].level == level);
                    assert(pre.nodes@[k2w].level == 2);
                }
                // Same level-2 node means the same root slot, by pointer
                // injectivity.
                let e3v = pre.nodes@[0].entries@[p3_index(v)];
                assert(is_table_entry(e3v));
                lemma_has_node_at_idx(pre, e3v.spec_paddr(), 2);
                assert(node_idx(pre.nodes@, e3v.spec_paddr()) == k);
                assert(e3v.spec_paddr() == pre.nodes@[k].paddr@);
                assert(e3w.spec_paddr() == pre.nodes@[k].paddr@);
                if p3_index(w) != p3_index(v) {
                    assert(e3v.spec_paddr() != e3w.spec_paddr());
                    assert(false);
                }
                assert(p2_index(w) == p2_index(v));
                assert(false);
            } else {
                let e2w = pre.nodes@[k2w].entries@[p2_index(w)];
                assert(is_table_entry(e2w));
                lemma_has_node_at_idx(pre, e2w.spec_paddr(), 1);
                let k1w = node_idx(pre.nodes@, e2w.spec_paddr());
                assert(k1w == k && p1_index(w) == e);
                assert(level == 1) by {
                    assert(pre.nodes@[k].level == level);
                    assert(pre.nodes@[k1w].level == 1);
                }
                let e3v = pre.nodes@[0].entries@[p3_index(v)];
                assert(is_table_entry(e3v));
                lemma_has_node_at_idx(pre, e3v.spec_paddr(), 2);
                let k2v = node_idx(pre.nodes@, e3v.spec_paddr());
                let e2v = pre.nodes@[k2v].entries@[p2_index(v)];
                assert(is_table_entry(e2v));
                lemma_has_node_at_idx(pre, e2v.spec_paddr(), 1);
                assert(node_idx(pre.nodes@, e2v.spec_paddr()) == k);
                assert(e2v.spec_paddr() == pre.nodes@[k].paddr@);
                assert(e2w.spec_paddr() == pre.nodes@[k].paddr@);
                // The two level-2 slots carrying these pointers coincide.
                if !(k2w == k2v && p2_index(w) == p2_index(v)) {
                    assert(e2v.spec_paddr() != e2w.spec_paddr());
                    assert(false);
                }
                if p3_index(w) != p3_index(v) {
                    assert(e3v.spec_paddr() != e3w.spec_paddr());
                    assert(k2w != k2v) by {
                        assert(pre.nodes@[k2w].paddr@ == e3w.spec_paddr());
                        assert(pre.nodes@[k2v].paddr@ == e3v.spec_paddr());
                    }
                    assert(false);
                }
                assert(p1_index(w) == p1_index(v));
                assert(false);
            }
        }
    }
}

/// After one non-table entry of the tree is replaced by another non-table
/// entry, queries through that slot see the new entry and every other query
/// is unchanged.
#[verifier::spinoff_prover]
#[verifier::rlimit(100)]
proof fn lemma_query_after_slot_update(
    pre: PageTableNative,
    post: PageTableNative,
    v: int,
    level: int,
    pte: Pte,
)
    requires
        pre.wf(),
        pre.owned,
        1 <= level <= 3,
        pre.spec_path_exists(v, level),
        !is_table_entry(pre.nodes@[pre.spec_path_node(v, level)].entries@[spec_index_at(v, level)]),
        !is_table_entry(pte),
        pte.spec_paddr() <= usize::MAX,
        pte.spec_leaf() ==> spec_is_aligned(pte.spec_paddr(), spec_level_size(level)),
        post.root == pre.root,
        post.owned,
        post.frames == pre.frames,
        post.cross_mappings == pre.cross_mappings,
        post.nodes@.len() == pre.nodes@.len(),
        forall|i: int|
            0 <= i < post.nodes@.len() ==> (#[trigger] post.nodes@[i]).paddr == pre.nodes@[i].paddr
                && post.nodes@[i].level == pre.nodes@[i].level && post.nodes@[i].entries@.len()
                == pre.nodes@[i].entries@.len(),
        forall|i: int, e2: int|
            0 <= i < post.nodes@.len() && 0 <= e2 < 512 && !(i == pre.spec_path_node(v, level) && e2
                == spec_index_at(v, level)) ==> (#[trigger] post.nodes@[i].entries@[e2])
                == pre.nodes@[i].entries@[e2],
        post.nodes@[pre.spec_path_node(v, level)].entries@[spec_index_at(v, level)] == pte,
    ensures
        post.wf(),
        forall|w: int|
            same_path(v, w, level) ==> post.spec_query(w) == (if spec_visible(pte, level) {
                Some(
                    (
                        pte.spec_paddr() + w % spec_level_size(level),
                        pte.spec_flags(),
                        spec_size_at(level),
                    ),
                )
            } else {
                Option::<(int, GenericMappingFlags, PageSize)>::None
            }),
        forall|w: int| !same_path(v, w, level) ==> post.spec_query(w) == pre.spec_query(w),
        forall|w: int|
            !same_path(v, w, level) ==> #[trigger] spec_mappable_4k(post, w) == spec_mappable_4k(
                pre,
                w,
            ),
{
    reveal(nodes_linked);
    let k = pre.spec_path_node(v, level);
    let e = spec_index_at(v, level);
    lemma_index_bounds_all();
    lemma_path_node_in_range(pre, v, level);

    // Well-formedness of the updated tree.
    assert forall|i: int| 0 <= i < post.nodes@.len() implies node_ok(#[trigger] post.nodes@[i]) by {
        assert(node_ok(pre.nodes@[i]));
        assert forall|e2: int|
            0 <= e2 < 512 implies (#[trigger] post.nodes@[i].entries@[e2]).spec_paddr()
            <= usize::MAX by {
            if !(i == k && e2 == e) {
                assert(post.nodes@[i].entries@[e2] == pre.nodes@[i].entries@[e2]);
            }
        }
        assert forall|e2: int|
            0 <= e2 < 512 && (#[trigger] post.nodes@[i].entries@[e2]).spec_leaf() implies
            spec_is_aligned(
                post.nodes@[i].entries@[e2].spec_paddr(),
                spec_level_size(post.nodes@[i].level as int),
            ) by {
            if !(i == k && e2 == e) {
                assert(post.nodes@[i].entries@[e2] == pre.nodes@[i].entries@[e2]);
            } else {
                assert(post.nodes@[i].level == level);
            }
        }
        if post.nodes@[i].level == 1 {
            assert forall|e2: int|
                0 <= e2 < 512 && (#[trigger] post.nodes@[i].entries@[e2]).spec_present() implies
                post.nodes@[i].entries@[e2].spec_leaf() by {
                if !(i == k && e2 == e) {
                    assert(post.nodes@[i].entries@[e2] == pre.nodes@[i].entries@[e2]);
                } else {
                    assert(!is_table_entry(pte));
                }
            }
        }
    }
    assert forall|i: int, e2: int|
        0 <= i < post.nodes@.len() && 0 <= e2 < 512 && is_table_entry(
            #[trigger] post.nodes@[i].entries@[e2],
        ) implies post.nodes@[i].level >= 2 && has_node_at(
        post.nodes@,
        post.nodes@[i].entries@[e2].spec_paddr(),
        post.nodes@[i].level - 1,
    ) by {
        assert(!(i == k && e2 == e));
        assert(post.nodes@[i].entries@[e2] == pre.nodes@[i].entries@[e2]);
        assert(has_node_at(
            pre.nodes@,
            pre.nodes@[i].entries@[e2].spec_paddr(),
            pre.nodes@[i].level - 1,
        ));
        lemma_has_node_at_preserved(
            pre.nodes@,
            post.nodes@,
            pre.nodes@[i].entries@[e2].spec_paddr(),
            pre.nodes@[i].level - 1,
        );
    }
    assert forall|i1: int, e1: int, i2: int, e2: int|
        0 <= i1 < post.nodes@.len() && 0 <= e1 < 512 && 0 <= i2 < post.nodes@.len() && 0 <= e2
            < 512 && is_table_entry(#[trigger] post.nodes@[i1].entries@[e1]) && is_table_entry(
            #[trigger] post.nodes@[i2].entries@[e2],
        ) && !(i1 == i2 && e1 == e2) implies post.nodes@[i1].entries@[e1].spec_paddr()
        != post.nodes@[i2].entries@[e2].spec_paddr() by {
        assert(!(i1 == k && e1 == e));
        assert(!(i2 == k && e2 == e));
        assert(post.nodes@[i1].entries@[e1] == pre.nodes@[i1].entries@[e1]);
        assert(post.nodes@[i2].entries@[e2] == pre.nodes@[i2].entries@[e2]);
    }
    assert(post.wf());

    // Queries and mappability elsewhere are unchanged.
    assert forall|w: int| !same_path(v, w, level) implies post.spec_query(w) == pre.spec_query(w)
        && #[trigger] spec_mappable_4k(post, w) == spec_mappable_4k(pre, w) by {
        lemma_unrelated_walk_misses_slot(pre, v, level, w);
        lemma_same_subwalk(pre, post, k, e, w);
    }

    // Queries through the slot see the new entry.
    assert forall|w: int| same_path(v, w, level) implies post.spec_query(w) == (if spec_visible(
        pte,
        level,
    ) {
        Some(
            (
                pte.spec_paddr() + w % spec_level_size(level),
                pte.spec_flags(),
                spec_size_at(level),
            ),
        )
    } else {
        Option::<(int, GenericMappingFlags, PageSize)>::None
    }) by {
        lemma_covered_walk_sees_slot(pre, post, v, level, pte, w);
    }
}

/// A walk sharing the slot's path sees the new entry.
proof fn lemma_covered_walk_sees_slot(
    pre: PageTableNative,
    post: PageTableNative,
    v: int,
    level: int,
    pte: Pte,
    w: int,
)
    requires
        pre.wf(),
        post.wf(),
        pre.owned,
        1 <= level <= 3,
        pre.spec_path_exists(v, level),
        !is_table_entry(pte),
        post.nodes@.len() == pre.nodes@.len(),
        forall|i: int|
            0 <= i < post.nodes@.len() ==> (#[trigger] post.nodes@[i]).paddr == pre.nodes@[i].paddr
                && post.nodes@[i].level == pre.nodes@[i].level && post.nodes@[i].entries@.len()
                == pre.nodes@[i].entries@.len(),
        forall|i: int, e2: int|
            0 <= i < post.nodes@.len() && 0 <= e2 < 512 && !(i == pre.spec_path_node(v, level) && e2
                == spec_index_at(v, level)) ==> (#[trigger] post.nodes@[i].entries@[e2])
                == pre.nodes@[i].entries@[e2],
        post.nodes@[pre.spec_path_node(v, level)].entries@[spec_index_at(v, level)] == pte,
        same_path(v, w, level),
    ensures
        post.spec_query(w) == (if spec_visible(pte, level) {
            Some(
                (
                    pte.spec_paddr() + w % spec_level_size(level),
                    pte.spec_flags(),
                    spec_size_at(level),
                ),
            )
        } else {
            Option::<(int, GenericMappingFlags, PageSize)>::None
        }),
{
    reveal(nodes_linked);
    lemma_index_bounds_all();
    let k = pre.spec_path_node(v, level);
    let e = spec_index_at(v, level);
    lemma_path_node_in_range(pre, v, level);
    if level == 3 {
        assert(post.nodes@[0].entries@[p3_index(w)] == pte);
        if pte.spec_leaf() {
            assert(post.spec_entry_lookup(w) == Some((pte, PageSize::_1G)));
            assert(!pte.spec_is_empty());
        } else {
            assert(!pte.spec_present());
            assert(post.spec_entry_lookup(w) is None);
        }
    } else {
        assert(k != 0) by {
            assert(pre.nodes@[k].level == level);
            assert(pre.nodes@[0].level == 3);
        }
        let e3v = pre.nodes@[0].entries@[p3_index(v)];
        assert(is_table_entry(e3v));
        lemma_has_node_at_idx(pre, e3v.spec_paddr(), 2);
        let k2v = node_idx(pre.nodes@, e3v.spec_paddr());
        assert(post.nodes@[0].entries@[p3_index(w)] == e3v);
        lemma_node_idx_is(post.nodes@, e3v.spec_paddr(), k2v);
        if level == 2 {
            assert(k2v == k);
            assert(post.nodes@[k].entries@[p2_index(w)] == pte);
            if pte.spec_leaf() {
                assert(post.spec_entry_lookup(w) == Some((pte, PageSize::_2M)));
                assert(!pte.spec_is_empty());
            } else {
                assert(!pte.spec_present());
                assert(post.spec_entry_lookup(w) is None);
            }
        } else {
            let e2v = pre.nodes@[k2v].entries@[p2_index(v)];
            assert(is_table_entry(e2v));
            lemma_has_node_at_idx(pre, e2v.spec_paddr(), 1);
            assert(node_idx(pre.nodes@, e2v.spec_paddr()) == k);
            assert(k2v != k) by {
                assert(pre.nodes@[k2v].level == 2);
                assert(pre.nodes@[k].level == 1);
            }
            assert(post.nodes@[k2v].entries@[p2_index(w)] == e2v) by {
                assert(!(k2v == k && p2_index(w) == e));
            }
            lemma_node_idx_is(post.nodes@, e2v.spec_paddr(), k);
            assert(post.nodes@[k].entries@[p1_index(w)] == pte);
            assert(post.spec_entry_lookup(w) == Some((pte, PageSize::_4K)));
        }
    }
}


/// The table-pointer entry has no page size of its own; the slot the walk of
/// `v` stops at, or the empty entry where the walk has no table to read.
pub open spec fn spec_slot_pte(pt: PageTableNative, v: int, level: int) -> Pte {
    if pt.spec_path_exists(v, level) {
        pt.nodes@[pt.spec_path_node(v, level)].entries@[spec_index_at(v, level)]
    } else {
        Pte { bits: 0 }
    }
}

/// Whether a fresh 4 KiB mapping can be installed at `w`: the walk towards
/// the bottom level meets only tables or empty slots, and the bottom slot
/// itself is empty.
pub open spec fn spec_mappable_4k(pt: PageTableNative, w: int) -> bool {
    pt.spec_path_constructible(w, 1) && spec_slot_pte(pt, w, 1).bits == 0
}

/// After an empty slot of the tree is turned into a pointer to a fresh,
/// zeroed table, every query is unchanged, and the walk now reaches the new
/// table one level down.
#[verifier::spinoff_prover]
#[verifier::rlimit(100)]
proof fn lemma_query_after_table_create(
    pre: PageTableNative,
    post: PageTableNative,
    v: int,
    level: int,
    fresh: int,
)
    requires
        pre.wf(),
        pre.owned,
        2 <= level <= 3,
        pre.spec_path_exists(v, level),
        pre.nodes@[pre.spec_path_node(v, level)].entries@[spec_index_at(v, level)].bits == 0,
        spec_is_aligned(fresh, PAGE_SIZE as int),
        0 <= fresh <= usize::MAX,
        forall|i: int| 0 <= i < pre.nodes@.len() ==> (#[trigger] pre.nodes@[i]).paddr@ != fresh,
        post.root == pre.root,
        post.owned,
        post.cross_mappings == pre.cross_mappings,
        post.frames@.len() == post.nodes@.len(),
        forall|i: int|
            0 <= i < post.nodes@.len() ==> (#[trigger] post.frames@[i]).paddr
                == post.nodes@[i].paddr,
        post.nodes@.len() == pre.nodes@.len() + 1,
        forall|i: int|
            0 <= i < pre.nodes@.len() ==> (#[trigger] post.nodes@[i]).paddr == pre.nodes@[i].paddr
                && post.nodes@[i].level == pre.nodes@[i].level && post.nodes@[i].entries@.len()
                == pre.nodes@[i].entries@.len(),
        forall|i: int, e2: int|
            0 <= i < pre.nodes@.len() && 0 <= e2 < 512 && !(i == pre.spec_path_node(v, level) && e2
                == spec_index_at(v, level)) ==> (#[trigger] post.nodes@[i].entries@[e2])
                == pre.nodes@[i].entries@[e2],
        is_table_entry(post.nodes@[pre.spec_path_node(v, level)].entries@[spec_index_at(v, level)]),
        post.nodes@[pre.spec_path_node(v, level)].entries@[spec_index_at(v, level)].spec_paddr()
            == fresh,
        post.nodes@.last().paddr@ == fresh,
        post.nodes@.last().level == level - 1,
        post.nodes@.last().entries@.len() == 512,
        forall|e2: int| 0 <= e2 < 512 ==> (#[trigger] post.nodes@.last().entries@[e2]).bits == 0,
    ensures
        post.wf(),
        forall|w: int| post.spec_query(w) == pre.spec_query(w),
        forall|w: int|
            #[trigger] spec_mappable_4k(post, w) == spec_mappable_4k(pre, w),
        post.spec_path_exists(v, level - 1),
        post.spec_path_node(v, level - 1) == pre.nodes@.len(),
        spec_slot_pte(post, v, level - 1).bits == 0,
        forall|w: int, l: int|
            1 <= l <= 3 && pre.spec_path_exists(w, l) ==> post.spec_path_exists(w, l)
                && post.spec_path_node(w, l) == pre.spec_path_node(w, l)
                && post.nodes@[pre.spec_path_node(w, l)].level == l,
{
    reveal(nodes_linked);
    let k = pre.spec_path_node(v, level);
    let e = spec_index_at(v, level);
    let knew = pre.nodes@.len() as int;
    lemma_index_bounds_all();
    lemma_path_node_in_range(pre, v, level);
    let newpte = post.nodes@[k].entries@[e];

    // Well-formedness of the extended tree.
    assert forall|i: int| 0 <= i < post.nodes@.len() implies node_ok(#[trigger] post.nodes@[i]) by {
        if i < knew {
            assert(node_ok(pre.nodes@[i]));
            assert forall|e2: int|
                0 <= e2 < 512 implies (#[trigger] post.nodes@[i].entries@[e2]).spec_paddr()
                <= usize::MAX by {
                if !(i == k && e2 == e) {
                    assert(post.nodes@[i].entries@[e2] == pre.nodes@[i].entries@[e2]);
                } else {
                    assert(post.nodes@[i].entries@[e2].spec_paddr() == fresh);
                }
            }
            assert forall|e2: int|
                0 <= e2 < 512 && (#[trigger] post.nodes@[i].entries@[e2]).spec_leaf() implies
                spec_is_aligned(
                    post.nodes@[i].entries@[e2].spec_paddr(),
                    spec_level_size(post.nodes@[i].level as int),
                ) by {
                if !(i == k && e2 == e) {
                    assert(post.nodes@[i].entries@[e2] == pre.nodes@[i].entries@[e2]);
                } else {
                    assert(!post.nodes@[i].entries@[e2].spec_leaf());
                }
            }
            if post.nodes@[i].level == 1 {
                assert forall|e2: int|
                    0 <= e2 < 512 && (#[trigger] post.nodes@[i].entries@[e2]).spec_present()
                        implies post.nodes@[i].entries@[e2].spec_leaf() by {
                    if !(i == k && e2 == e) {
                        assert(post.nodes@[i].entries@[e2] == pre.nodes@[i].entries@[e2]);
                    } else {
                        assert(pre.nodes@[k].level == level);
                        assert(level >= 2);
                    }
                }
            }
        } else {
            assert(post.nodes@[i] == post.nodes@.last());
            assert forall|e2: int|
                0 <= e2 < 512 implies ((#[trigger] post.nodes@[i].entries@[e2]).spec_paddr()
                <= usize::MAX && !post.nodes@[i].entries@[e2].spec_leaf()
                && !post.nodes@[i].entries@[e2].spec_present()) by {
                assert(post.nodes@[i].entries@[e2].bits == 0);
            }
        }
    }
    assert forall|i: int, j: int|
        0 <= i < j < post.nodes@.len() implies (#[trigger] post.nodes@[i]).paddr@ != (
    #[trigger] post.nodes@[j]).paddr@ by {
        if j == knew {
            assert(post.nodes@[i].paddr@ == pre.nodes@[i].paddr@);
            assert(post.nodes@[j].paddr@ == fresh);
        } else {
            assert(post.nodes@[i].paddr@ == pre.nodes@[i].paddr@);
            assert(post.nodes@[j].paddr@ == pre.nodes@[j].paddr@);
        }
    }
    assert forall|i: int, e2: int|
        0 <= i < post.nodes@.len() && 0 <= e2 < 512 && is_table_entry(
            #[trigger] post.nodes@[i].entries@[e2],
        ) implies post.nodes@[i].level >= 2 && has_node_at(
        post.nodes@,
        post.nodes@[i].entries@[e2].spec_paddr(),
        post.nodes@[i].level - 1,
    ) by {
        if i == knew {
            assert(post.nodes@[i].entries@[e2].bits == 0);
            assert(false);
        } else if i == k && e2 == e {
            assert(post.nodes@[knew].paddr@ == fresh);
            assert(post.nodes@[knew].level == level - 1);
            assert(post.nodes@[i].level == level);
        } else {
            assert(post.nodes@[i].entries@[e2] == pre.nodes@[i].entries@[e2]);
            assert(has_node_at(
                pre.nodes@,
                pre.nodes@[i].entries@[e2].spec_paddr(),
                pre.nodes@[i].level - 1,
            ));
            lemma_has_node_at_preserved(
                pre.nodes@,
                post.nodes@,
                pre.nodes@[i].entries@[e2].spec_paddr(),
                pre.nodes@[i].level - 1,
            );
        }
    }
    assert forall|i1: int, e1: int, i2: int, e2: int|
        0 <= i1 < post.nodes@.len() && 0 <= e1 < 512 && 0 <= i2 < post.nodes@.len() && 0 <= e2
            < 512 && is_table_entry(#[trigger] post.nodes@[i1].entries@[e1]) && is_table_entry(
            #[trigger] post.nodes@[i2].entries@[e2],
        ) && !(i1 == i2 && e1 == e2) implies post.nodes@[i1].entries@[e1].spec_paddr()
        != post.nodes@[i2].entries@[e2].spec_paddr() by {
        assert(i1 != knew && i2 != knew);
        if i1 == k && e1 == e {
            assert(post.nodes@[i2].entries@[e2] == pre.nodes@[i2].entries@[e2]);
            assert(has_node_at(
                pre.nodes@,
                pre.nodes@[i2].entries@[e2].spec_paddr(),
                pre.nodes@[i2].level - 1,
            ));
            let t = choose|x: int|
                0 <= x < pre.nodes@.len() && #[trigger] pre.nodes@[x].paddr@ == pre.nodes@[
                    i2
                ].entries@[e2].spec_paddr() && pre.nodes@[x].level == pre.nodes@[i2].level - 1;
            assert(pre.nodes@[t].paddr@ != fresh);
        } else if i2 == k && e2 == e {
            assert(post.nodes@[i1].entries@[e1] == pre.nodes@[i1].entries@[e1]);
            assert(has_node_at(
                pre.nodes@,
                pre.nodes@[i1].entries@[e1].spec_paddr(),
                pre.nodes@[i1].level - 1,
            ));
            let t = choose|x: int|
                0 <= x < pre.nodes@.len() && #[trigger] pre.nodes@[x].paddr@ == pre.nodes@[
                    i1
                ].entries@[e1].spec_paddr() && pre.nodes@[x].level == pre.nodes@[i1].level - 1;
            assert(pre.nodes@[t].paddr@ != fresh);
        } else {
            assert(post.nodes@[i1].entries@[e1] == pre.nodes@[i1].entries@[e1]);
            assert(post.nodes@[i2].entries@[e2] == pre.nodes@[i2].entries@[e2]);
        }
    }
    assert(post.wf());

    // The walk of v now reaches the fresh table.
    lemma_node_idx_is(post.nodes@, fresh, knew);
    if level == 3 {
        assert(post.spec_path_exists(v, 2));
        assert(post.spec_path_node(v, 2) == knew);
    } else {
        assert(k != 0) by {
            assert(pre.nodes@[k].level == level);
            assert(pre.nodes@[0].level == 3);
        }
        let e3v = pre.nodes@[0].entries@[p3_index(v)];
        assert(post.nodes@[0].entries@[p3_index(v)] == e3v);
        assert(is_table_entry(e3v));
        lemma_has_node_at_idx(pre, e3v.spec_paddr(), 2);
        let k2v = node_idx(pre.nodes@, e3v.spec_paddr());
        assert(k2v == k);
        lemma_node_idx_is(post.nodes@, e3v.spec_paddr(), k2v);
        assert(post.nodes@[k].entries@[p2_index(v)] == newpte);
        assert(post.spec_path_exists(v, 1));
        assert(post.spec_path_node(v, 1) == knew);
    }
    assert(spec_slot_pte(post, v, level - 1).bits == 0);

    // Every query — and whether a fresh page could be installed — is
    // unchanged.
    assert forall|w: int|
        post.spec_query(w) == pre.spec_query(w) && #[trigger] spec_mappable_4k(post, w)
            == spec_mappable_4k(pre, w) by {
        lemma_create_preserves_query(pre, post, v, level, fresh, w);
    }

    // Existing paths and their nodes are unchanged.
    assert forall|w: int, l: int|
        1 <= l <= 3 && pre.spec_path_exists(w, l) implies post.spec_path_exists(w, l)
        && post.spec_path_node(w, l) == pre.spec_path_node(w, l)
        && post.nodes@[pre.spec_path_node(w, l)].level == l by {
        lemma_path_node_in_range(pre, w, l);
        if l < 3 {
            let e3w = pre.nodes@[0].entries@[p3_index(w)];
            assert(is_table_entry(e3w));
            assert(!(0 == k && p3_index(w) == e) || !is_table_entry(pre.nodes@[k].entries@[e]));
            assert(post.nodes@[0].entries@[p3_index(w)] == e3w);
            lemma_has_node_at_idx(pre, e3w.spec_paddr(), 2);
            let k2w = node_idx(pre.nodes@, e3w.spec_paddr());
            lemma_node_idx_is(post.nodes@, e3w.spec_paddr(), k2w);
            if l < 2 {
                let e2w = pre.nodes@[k2w].entries@[p2_index(w)];
                assert(is_table_entry(e2w));
                assert(post.nodes@[k2w].entries@[p2_index(w)] == e2w) by {
                    assert(!(k2w == k && p2_index(w) == e) || !is_table_entry(
                        pre.nodes@[k].entries@[e],
                    ));
                }
                lemma_has_node_at_idx(pre, e2w.spec_paddr(), 1);
                let k1w = node_idx(pre.nodes@, e2w.spec_paddr());
                lemma_node_idx_is(post.nodes@, e2w.spec_paddr(), k1w);
            }
        }
    }
}

/// Creating a table under an empty slot leaves every translation unchanged:
/// addresses whose walk used to stop at the empty slot now walk into a table
/// of empty entries.
proof fn lemma_create_preserves_query(
    pre: PageTableNative,
    post: PageTableNative,
    v: int,
    level: int,
    fresh: int,
    w: int,
)
    requires
        pre.wf(),
        post.wf(),
        2 <= level <= 3,
        pre.spec_path_exists(v, level),
        pre.nodes@[pre.spec_path_node(v, level)].entries@[spec_index_at(v, level)].bits == 0,
        post.nodes@.len() == pre.nodes@.len() + 1,
        forall|i: int|
            0 <= i < pre.nodes@.len() ==> (#[trigger] post.nodes@[i]).paddr == pre.nodes@[i].paddr
                && post.nodes@[i].level == pre.nodes@[i].level && post.nodes@[i].entries@.len()
                == pre.nodes@[i].entries@.len(),
        forall|i: int, e2: int|
            0 <= i < pre.nodes@.len() && 0 <= e2 < 512 && !(i == pre.spec_path_node(v, level) && e2
                == spec_index_at(v, level)) ==> (#[trigger] post.nodes@[i].entries@[e2])
                == pre.nodes@[i].entries@[e2],
        is_table_entry(post.nodes@[pre.spec_path_node(v, level)].entries@[spec_index_at(v, level)]),
        post.nodes@[pre.spec_path_node(v, level)].entries@[spec_index_at(v, level)].spec_paddr()
            == fresh,
        forall|i: int| 0 <= i < pre.nodes@.len() ==> (#[trigger] pre.nodes@[i]).paddr@ != fresh,
        post.nodes@.last().paddr@ == fresh,
        post.nodes@.last().level == level - 1,
        post.nodes@.last().entries@.len() == 512,
        forall|e2: int| 0 <= e2 < 512 ==> (#[trigger] post.nodes@.last().entries@[e2]).bits == 0,
    ensures
        post.spec_query(w) == pre.spec_query(w),
        spec_mappable_4k(post, w) == spec_mappable_4k(pre, w),
{
    reveal(nodes_linked);
    lemma_index_bounds_all();
    let k = pre.spec_path_node(v, level);
    let e = spec_index_at(v, level);
    let knew = pre.nodes@.len() as int;
    lemma_path_node_in_range(pre, v, level);
    lemma_node_idx_is(post.nodes@, fresh, knew);

    let e3_pre = pre.nodes@[0].entries@[p3_index(w)];
    let e3_post = post.nodes@[0].entries@[p3_index(w)];
    if 0 == k && p3_index(w) == e {
        // The root slot itself was filled: the walk of w now descends into
        // the fresh, empty level-2 table. Both before and after, w is
        // unmapped and a 4 KiB mapping could be installed there.
        assert(e3_pre.bits == 0);
        assert(pre.spec_query(w) is None);
        assert(e3_post.spec_paddr() == fresh);
        assert(post.nodes@[node_idx(post.nodes@, fresh)].entries@[p2_index(w)].bits == 0);
        assert(post.spec_query(w) is None);
        assert(pre.spec_path_constructible(w, 1) && !pre.spec_path_exists(w, 1));
        assert(post.spec_path_constructible(w, 1) && !post.spec_path_exists(w, 1));
    } else {
        assert(e3_post == e3_pre);
        if e3_pre.spec_leaf() {
        } else if !e3_pre.spec_present() {
        } else {
            assert(is_table_entry(e3_pre));
            lemma_has_node_at_idx(pre, e3_pre.spec_paddr(), 2);
            let k2 = node_idx(pre.nodes@, e3_pre.spec_paddr());
            lemma_node_idx_is(post.nodes@, e3_pre.spec_paddr(), k2);
            let e2_pre = pre.nodes@[k2].entries@[p2_index(w)];
            let e2_post = post.nodes@[k2].entries@[p2_index(w)];
            if k2 == k && p2_index(w) == e {
                // The filled slot sits in w's level-2 table: the walk of w
                // now descends into the fresh, empty level-1 table. The
                // bottom slot exists now, but it is empty, so w remains
                // unmapped and mappable.
                assert(e2_pre.bits == 0);
                assert(pre.spec_query(w) is None);
                assert(e2_post.spec_paddr() == fresh);
                assert(post.nodes@[node_idx(post.nodes@, fresh)].entries@[p1_index(w)].bits == 0);
                assert(post.spec_query(w) is None);
                assert(pre.spec_path_constructible(w, 1) && !pre.spec_path_exists(w, 1));
                assert(post.spec_path_constructible(w, 1) && post.spec_path_exists(w, 1));
                assert(spec_slot_pte(post, w, 1).bits == 0);
            } else {
                assert(e2_post == e2_pre);
                if e2_pre.spec_leaf() {
                } else if !e2_pre.spec_present() {
                } else {
                    assert(is_table_entry(e2_pre));
                    lemma_has_node_at_idx(pre, e2_pre.spec_paddr(), 1);
                    let k1 = node_idx(pre.nodes@, e2_pre.spec_paddr());
                    lemma_node_idx_is(post.nodes@, e2_pre.spec_paddr(), k1);
                    assert(post.nodes@[k1].entries@[p1_index(w)] == pre.nodes@[k1].entries@[
                        p1_index(w)
                    ]) by {
                        assert(!(k1 == k && p1_index(w) == e) || !is_table_entry(
                            pre.nodes@[k].entries@[e],
                        ));
                    }
                }
            }
        }
    }
}


/// A value aligned to a multiple of a stride is aligned to the stride.
proof fn lemma_aligned_divides(a: int, n: int, m: int)
    requires
        m > 0,
        n > 0,
        n % m == 0,
        a >= 0,
        spec_is_aligned(a, n),
    ensures
        spec_is_aligned(a, m),
{
    let q = a / n;
    let p = n / m;
    vstd::arithmetic::div_mod::lemma_fundamental_div_mod(a, n);
    vstd::arithmetic::div_mod::lemma_fundamental_div_mod(n, m);
    assert(a == (q * p) * m) by (nonlinear_arith)
        requires
            a == n * q,
            n == m * p,
    ;
    vstd::arithmetic::div_mod::lemma_mod_multiples_basic(q * p, m);
}

impl PageTableNative {
    /// Whether the walk of `v` towards the given level meets only tables or
    /// empty slots, so that the missing tables can be created.
    pub open spec fn spec_path_constructible(self, v: int, level: int) -> bool {
        if self.nodes@.len() == 0 {
            false
        } else if level == 3 {
            true
        } else {
            let e3 = self.nodes@[0].entries@[p3_index(v)];
            if e3.bits == 0 {
                true
            } else if !is_table_entry(e3) {
                false
            } else if level == 2 {
                true
            } else {
                let n2 = self.nodes@[node_idx(self.nodes@, e3.spec_paddr())];
                let e2 = n2.entries@[p2_index(v)];
                e2.bits == 0 || is_table_entry(e2)
            }
        }
    }

    /// Allocates a fresh zeroed table one level below `level` and installs a
    /// pointer to it in the (empty) slot the walk of `vaddr` reads at
    /// `level`.
    fn create_child(
        &mut self,
        alloc: &mut FrameAllocator,
        vaddr: VirtAddr,
        level: usize,
        k: usize,
        e: usize,
    ) -> (r: PagingResult<usize>)
        requires
            old(self).wf(),
            old(self).owned,
            old(alloc).wf(),
            old(self).frames_owned_by(*old(alloc)),
            2 <= level <= 3,
            old(self).spec_path_exists(vaddr@, level as int),
            k == old(self).spec_path_node(vaddr@, level as int),
            e == spec_index_at(vaddr@, level as int),
            k < old(self).nodes@.len(),
            e < 512,
            old(self).nodes@[k as int].entries@[e as int].bits == 0,
        ensures
            (final(alloc)).wf(),
            (final(alloc)).bottom == old(alloc).bottom,
            (final(alloc)).top == old(alloc).top,
            forall|a: int| old(alloc).taken().contains(a) ==> (final(alloc)).taken().contains(a),
            (final(self)).wf(),
            (final(self)).root == old(self).root,
            (final(self)).owned,
            (final(self)).cross_mappings == old(self).cross_mappings,
            (final(self)).frames_owned_by(*final(alloc)),
            r is Err ==> r->Err_0 == PagingError::OutOfMemory && *final(self) == *old(self)
                && *final(alloc) == *old(alloc) && old(alloc).spec_available() == 0,
            r is Ok ==> {
                &&& (final(alloc)).spec_available() == old(alloc).spec_available() - 1
                &&& (forall|w: int| (final(self)).spec_query(w) == old(self).spec_query(w))
                &&& (forall|w: int|
                    #[trigger] spec_mappable_4k(*final(self), w) == spec_mappable_4k(
                        *old(self),
                        w,
                    ))
                &&& (final(self)).spec_path_exists(vaddr@, level - 1)
                &&& (final(self)).spec_path_node(vaddr@, level - 1) == old(self).nodes@.len()
                &&& r->Ok_0 == old(self).nodes@.len()
                &&& spec_slot_pte(*final(self), vaddr@, level - 1).bits == 0
                &&& (final(self)).nodes@.len() == old(self).nodes@.len() + 1
                &&& (final(self)).nodes@[r->Ok_0 as int].level == level - 1
                &&& (forall|w: int, l: int|
                    1 <= l <= 3 && old(self).spec_path_exists(w, l) ==> (final(self)).spec_path_exists(w, l) && (final(self)).spec_path_node(w, l) == old(self).spec_path_node(w, l) && (final(self)).nodes@[old(self).spec_path_node(
                        w,
                        l,
                    )].level == l)
                &&& (forall|i: int|
                    0 <= i < old(self).nodes@.len() ==> ((final(self)).nodes@[i]).paddr == old(self).nodes@[i].paddr)
                &&& (forall|i: int|
                    old(self).nodes@.len() <= i < (final(self)).nodes@.len() ==> !old(
                        alloc,
                    ).taken().contains(((final(self)).nodes@[i]).paddr@))
            },
    {
        proof {
            if old(alloc).recycled@.len() == 0 && old(alloc).current@ >= old(alloc).top@ {
                vstd::arithmetic::div_mod::lemma_basic_div(
                    old(alloc).top@ - old(alloc).current@,
                    PAGE_SIZE as int,
                );
            }
        }
        let frame = alloc.alloc_frame();
        match frame {
            None => Err(PagingError::OutOfMemory),
            Some(f) => {
                let fresh = f.paddr;
                proof {
                    assert forall|i: int|
                        0 <= i < old(self).nodes@.len() implies (#[trigger] old(self).nodes@[i]).paddr@ != fresh@ by {
                        assert(old(alloc).taken().contains(old(self).nodes@[i].paddr@));
                    }
                }
                let pte = Pte::new_table(fresh);
                self.write_slot(k, e, pte);
                let node = PtNode { paddr: fresh, level: level - 1, entries: empty_entries() };
                let new_idx = self.nodes.len();
                self.nodes.push(node);
                self.frames.push(f);
                proof {
                    assert((final(self)).nodes@.last().paddr@ == fresh@);
                    assert((final(self)).nodes@.last().level == level - 1);
                    assert(!pte.spec_leaf() && pte.spec_present());
                    assert(is_table_entry(
                        (final(self)).nodes@[k as int].entries@[e as int],
                    ));
                    lemma_query_after_table_create(
                        *old(self),
                        *final(self),
                        vaddr@,
                        level as int,
                        fresh@,
                    );
                }
                Ok(new_idx)
            },
        }
    }

    /// The write path of the walker: descends towards the level of the given
    /// page size, creating intermediate tables as needed, and returns the
    /// location of the slot for `vaddr`. The translation function is
    /// unchanged: fresh tables hold only empty entries.
    fn get_create_entry(
        &mut self,
        alloc: &mut FrameAllocator,
        vaddr: VirtAddr,
        size: PageSize,
    ) -> (r: PagingResult<(usize, usize)>)
        requires
            old(self).wf(),
            old(alloc).wf(),
            old(self).frames_owned_by(*old(alloc)),
        ensures
            (final(alloc)).wf(),
            (final(alloc)).bottom == old(alloc).bottom,
            (final(alloc)).top == old(alloc).top,
            forall|a: int| old(alloc).taken().contains(a) ==> (final(alloc)).taken().contains(a),
            (final(self)).wf(),
            (final(self)).root == old(self).root,
            (final(self)).owned == old(self).owned,
            (final(self)).cross_mappings == old(self).cross_mappings,
            (final(self)).frames_owned_by(*final(alloc)),
            forall|w: int| (final(self)).spec_query(w) == old(self).spec_query(w),
            forall|w: int|
                #[trigger] spec_mappable_4k(*final(self), w) == spec_mappable_4k(*old(self), w),
            forall|i: int|
                0 <= i < old(self).nodes@.len() ==> ((final(self)).nodes@[i]).paddr == old(self).nodes@[i].paddr,
            (final(self)).nodes@.len() >= old(self).nodes@.len(),
            forall|i: int|
                old(self).nodes@.len() <= i < (final(self)).nodes@.len() ==> !old(
                    alloc,
                ).taken().contains(((final(self)).nodes@[i]).paddr@),
            r is Err ==> {
                ||| r->Err_0 == PagingError::CanNotModify
                ||| r->Err_0 == PagingError::NotAligned
                ||| r->Err_0 == PagingError::MappedToHugePage
                ||| r->Err_0 == PagingError::NotMapped
                ||| r->Err_0 == PagingError::OutOfMemory
            },
            (old(self).owned && spec_is_aligned(vaddr@, PAGE_SIZE as int) && old(self).spec_path_constructible(vaddr@, spec_level_of(size)) && old(alloc).spec_available()
                >= 2) ==> r is Ok,
            (old(self).owned && spec_is_aligned(vaddr@, PAGE_SIZE as int) && old(
                self,
            ).spec_path_exists(vaddr@, spec_level_of(size))) ==> r is Ok,
            !old(self).owned ==> r == PagingResult::<(usize, usize)>::Err(
                PagingError::CanNotModify,
            ),
            (final(alloc)).spec_available() >= old(alloc).spec_available() - 2,
            r is Ok ==> {
                let lvl = spec_level_of(size);
                &&& old(self).owned
                &&& spec_is_aligned(vaddr@, PAGE_SIZE as int)
                &&& (final(self)).spec_path_exists(vaddr@, lvl)
                &&& r->Ok_0.0 == (final(self)).spec_path_node(vaddr@, lvl)
                &&& r->Ok_0.1 == spec_index_at(vaddr@, lvl)
                &&& r->Ok_0.0 < (final(self)).nodes@.len()
                &&& r->Ok_0.1 < 512
                &&& (final(self)).nodes@[r->Ok_0.0 as int].level == lvl
                &&& (final(self)).nodes@[r->Ok_0.0 as int].entries@[r->Ok_0.1 as int]
                    == spec_slot_pte(*old(self), vaddr@, lvl)
            },
    {
        if !self.owned {
            return Err(PagingError::CanNotModify);
        }
        if !vaddr.is_aligned(PAGE_SIZE) {
            return Err(PagingError::NotAligned);
        }
        proof {
            reveal(nodes_linked);
            lemma_index_bounds_all();
        }
        let lvl: usize = match size {
            PageSize::_1G => 3,
            PageSize::_2M => 2,
            _ => 1,
        };
        let i3 = index_of_level(vaddr, 3);
        if lvl == 3 {
            return Ok((0, i3));
        }
        let e3 = self.nodes[0].entries[i3];
        let k2: usize;
        if e3.is_empty() {
            k2 = match self.create_child(alloc, vaddr, 3, 0, i3) {
                Ok(kk) => kk,
                Err(err) => {
                    return Err(err);
                },
            };
        } else if e3.is_leaf() {
            return Err(PagingError::MappedToHugePage);
        } else if !e3.is_present() {
            return Err(PagingError::NotMapped);
        } else {
            proof {
                assert(is_table_entry(old(self).nodes@[0].entries@[i3 as int]));
                assert(has_node_at(self.nodes@, e3.spec_paddr(), 2));
                lemma_has_node_at_idx(*self, e3.spec_paddr(), 2);
            }
            k2 = match self.find_node(e3.paddr()) {
                Some(kk) => kk,
                None => {
                    proof {
                        assert(has_node(self.nodes@, e3.spec_paddr()));
                        assert(false);
                    }
                    return Err(PagingError::NotMapped);
                },
            };
        }
        let ghost mid = *self;
        let i2 = index_of_level(vaddr, 2);
        if lvl == 2 {
            return Ok((k2, i2));
        }
        let e2 = self.nodes[k2].entries[i2];
        let k1: usize;
        if e2.is_empty() {
            k1 = match self.create_child(alloc, vaddr, 2, k2, i2) {
                Ok(kk) => kk,
                Err(err) => {
                    proof {
                        if old(self).owned && spec_is_aligned(vaddr@, PAGE_SIZE as int) && old(self).spec_path_constructible(vaddr@, 1) && old(alloc).spec_available() >= 2 {
                            assert(false);
                        }
                    }
                    return Err(err);
                },
            };
        } else if e2.is_leaf() {
            return Err(PagingError::MappedToHugePage);
        } else if !e2.is_present() {
            return Err(PagingError::NotMapped);
        } else {
            proof {
                assert(is_table_entry(mid.nodes@[k2 as int].entries@[i2 as int]));
                assert(has_node_at(self.nodes@, e2.spec_paddr(), 1));
                lemma_has_node_at_idx(*self, e2.spec_paddr(), 1);
            }
            k1 = match self.find_node(e2.paddr()) {
                Some(kk) => kk,
                None => {
                    proof {
                        assert(has_node(self.nodes@, e2.spec_paddr()));
                        assert(false);
                    }
                    return Err(PagingError::NotMapped);
                },
            };
        }
        let i1 = index_of_level(vaddr, 1);
        Ok((k1, i1))
    }

    /// Installs a leaf mapping `vaddr -> target` of the given page size.
    ///
    /// Fails with `NotAligned` when the addresses or the size are not
    /// aligned, `AlreadyMapped` when the slot is occupied, `MappedToHugePage`
    /// when a huge leaf blocks the walk, `CanNotModify` on a borrowed table
    /// and `OutOfMemory` when a needed intermediate table cannot be
    /// allocated. On failure the translation function is unchanged.
    pub fn map_single(
        &mut self,
        alloc: &mut FrameAllocator,
        vaddr: VirtAddr,
        target: PhysAddr,
        size: PageSize,
        flags: GenericMappingFlags,
    ) -> (r: PagingResult<()>)
        requires
            old(self).wf(),
            old(alloc).wf(),
            old(self).frames_owned_by(*old(alloc)),
        ensures
            (final(alloc)).wf(),
            (final(alloc)).bottom == old(alloc).bottom,
            (final(alloc)).top == old(alloc).top,
            forall|a: int| old(alloc).taken().contains(a) ==> (final(alloc)).taken().contains(a),
            (final(self)).wf(),
            (final(self)).root == old(self).root,
            (final(self)).owned == old(self).owned,
            (final(self)).cross_mappings == old(self).cross_mappings,
            (final(self)).frames_owned_by(*final(alloc)),
            forall|i: int|
                0 <= i < old(self).nodes@.len() ==> ((final(self)).nodes@[i]).paddr == old(self).nodes@[i].paddr,
            (final(self)).nodes@.len() >= old(self).nodes@.len(),
            forall|i: int|
                old(self).nodes@.len() <= i < (final(self)).nodes@.len() ==> !old(
                    alloc,
                ).taken().contains(((final(self)).nodes@[i]).paddr@),
            (final(alloc)).spec_available() >= old(alloc).spec_available() - 2,
            r is Err ==> forall|w: int| (final(self)).spec_query(w) == old(self).spec_query(w),
            r is Err ==> forall|w: int|
                #[trigger] spec_mappable_4k(*final(self), w) == spec_mappable_4k(*old(self), w),
            r is Ok ==> {
                let lvl = spec_level_of(size);
                &&& (forall|w: int|
                    same_path(vaddr@, w, lvl) ==> (final(self)).spec_query(w) == Some(
                        (target@ + w % spec_level_size(lvl), flags, spec_size_at(lvl)),
                    ))
                &&& (forall|w: int|
                    !same_path(vaddr@, w, lvl) ==> (final(self)).spec_query(w) == old(self).spec_query(w))
                &&& (forall|w: int|
                    same_path(vaddr@, w, lvl) ==> old(self).spec_query(w) is None)
                &&& (forall|w: int|
                    !same_path(vaddr@, w, lvl) ==> #[trigger] spec_mappable_4k(*final(self), w)
                        == spec_mappable_4k(*old(self), w))
            },
            (size.spec_as_usize() == 0 || size.spec_as_usize() % PAGE_SIZE != 0) ==> r
                == PagingResult::<()>::Err(PagingError::NotAligned),
            (size.spec_as_usize() > 0 && size.spec_as_usize() % PAGE_SIZE == 0 && (
            !spec_is_aligned(target@, size.spec_as_usize() as int) || !spec_is_aligned(
                vaddr@,
                size.spec_as_usize() as int,
            ))) ==> r == PagingResult::<()>::Err(PagingError::NotAligned),
            (!old(self).owned && size.spec_as_usize() > 0 && size.spec_as_usize() % PAGE_SIZE == 0
                && spec_is_aligned(target@, size.spec_as_usize() as int) && spec_is_aligned(
                vaddr@,
                size.spec_as_usize() as int,
            )) ==> r == PagingResult::<()>::Err(PagingError::CanNotModify),
            (old(self).owned && size.spec_as_usize() > 0 && size.spec_as_usize() % PAGE_SIZE == 0
                && spec_is_aligned(target@, size.spec_as_usize() as int) && spec_is_aligned(
                vaddr@,
                size.spec_as_usize() as int,
            ) && old(self).spec_path_constructible(vaddr@, spec_level_of(size)) && spec_slot_pte(
                *old(self),
                vaddr@,
                spec_level_of(size),
            ).bits == 0 && old(alloc).spec_available() >= 2) ==> r is Ok,
            (old(self).owned && size.spec_as_usize() > 0 && size.spec_as_usize() % PAGE_SIZE == 0
                && spec_is_aligned(target@, size.spec_as_usize() as int) && spec_is_aligned(
                vaddr@,
                size.spec_as_usize() as int,
            ) && spec_slot_pte(*old(self), vaddr@, spec_level_of(size)).bits != 0) ==> r
                == PagingResult::<()>::Err(PagingError::AlreadyMapped),
    {
        let size_bytes = size.as_usize();
        if size_bytes == 0 || size_bytes % PAGE_SIZE != 0 {
            return Err(PagingError::NotAligned);
        }
        if !target.is_aligned(size_bytes) {
            return Err(PagingError::NotAligned);
        }
        if !vaddr.is_aligned(size_bytes) {
            return Err(PagingError::NotAligned);
        }
        proof {
            lemma_aligned_divides(vaddr@, size_bytes as int, PAGE_SIZE as int);
            if spec_slot_pte(*old(self), vaddr@, spec_level_of(size)).bits != 0 {
                assert(old(self).spec_path_exists(vaddr@, spec_level_of(size)));
            }
        }
        let lvl: usize = match size {
            PageSize::_1G => 3,
            PageSize::_2M => 2,
            _ => 1,
        };
        let located = self.get_create_entry(alloc, vaddr, size);
        let (k, e) = match located {
            Ok(p) => p,
            Err(err) => {
                return Err(err);
            },
        };
        let slot = self.nodes[k].entries[e];
        if !slot.is_empty() {
            return Err(PagingError::AlreadyMapped);
        }
        proof {
            lemma_aligned_divides(target@, size_bytes as int, PAGE_SIZE as int);
            if lvl == 3 {
                assert(size_bytes == SIZE_1G);
            } else if lvl == 2 {
                assert(size_bytes == SIZE_2M);
            } else {
                lemma_aligned_divides(target@, size_bytes as int, PAGE_SIZE as int);
            }
        }
        let pte = Pte::new_page(target, flags);
        let ghost mid = *self;
        self.write_slot(k, e, pte);
        proof {
            assert(spec_is_aligned(pte.spec_paddr(), spec_level_size(lvl as int))) by {
                if lvl == 1 {
                    lemma_aligned_divides(target@, size_bytes as int, PAGE_SIZE as int);
                }
            }
            lemma_query_after_slot_update(mid, *final(self), vaddr@, lvl as int, pte);
            assert(spec_visible(pte, lvl as int));
            assert forall|w: int|
                !same_path(vaddr@, w, lvl as int) implies #[trigger] spec_mappable_4k(
                *final(self),
                w,
            ) == spec_mappable_4k(*old(self), w) by {
                assert(spec_mappable_4k(*final(self), w) == spec_mappable_4k(mid, w));
                assert(spec_mappable_4k(mid, w) == spec_mappable_4k(*old(self), w));
            }
            assert forall|w: int| same_path(vaddr@, w, lvl as int) implies old(self).spec_query(
                w,
            ) is None by {
                lemma_covered_walk_sees_slot(mid, mid, vaddr@, lvl as int, Pte { bits: 0 }, w);
                assert(!spec_visible(Pte { bits: 0 }, lvl as int));
            }
        }
        Ok(())
    }

    /// Removes the mapping the walk of `vaddr` reaches, returning its target
    /// and page size. Afterwards nothing under the removed slot resolves;
    /// every other translation is unchanged.
    pub fn unmap_single(&mut self, vaddr: VirtAddr) -> (r: PagingResult<(PhysAddr, PageSize)>)
        requires
            old(self).wf(),
        ensures
            (final(self)).wf(),
            (final(self)).root == old(self).root,
            (final(self)).owned == old(self).owned,
            (final(self)).frames == old(self).frames,
            (final(self)).cross_mappings == old(self).cross_mappings,
            (final(self)).nodes@.len() == old(self).nodes@.len(),
            forall|i: int|
                0 <= i < old(self).nodes@.len() ==> ((final(self)).nodes@[i]).paddr == old(self).nodes@[i].paddr,
            !old(self).owned ==> r == PagingResult::<(PhysAddr, PageSize)>::Err(
                PagingError::CanNotModify,
            ) && *final(self) == *old(self),
            old(self).owned && old(self).spec_entry_lookup(vaddr@) is None ==> r
                == PagingResult::<(PhysAddr, PageSize)>::Err(PagingError::NotMapped) && *final(self) == *old(self),
            old(self).owned && old(self).spec_entry_lookup(vaddr@) is Some ==> {
                let (pte, sz) = old(self).spec_entry_lookup(vaddr@)->0;
                let lvl = spec_level_of(sz);
                &&& (forall|w: int|
                    same_path(vaddr@, w, lvl) ==> (final(self)).spec_query(w) is None)
                &&& (forall|w: int|
                    !same_path(vaddr@, w, lvl) ==> (final(self)).spec_query(w) == old(self).spec_query(w))
                &&& (pte.spec_present() ==> r == PagingResult::<(PhysAddr, PageSize)>::Ok(
                    (PhysAddr { addr: pte.spec_paddr() as usize }, sz),
                ))
                &&& (!pte.spec_present() ==> r == PagingResult::<(PhysAddr, PageSize)>::Err(
                    PagingError::NotMapped,
                ))
            },
    {
        if !self.owned {
            return Err(PagingError::CanNotModify);
        }
        let located = self.locate_entry(vaddr);
        let (k, e, pte, sz) = match located {
            Ok(l) => l,
            Err(err) => {
                return Err(err);
            },
        };
        let lvl: usize = match sz {
            PageSize::_1G => 3,
            PageSize::_2M => 2,
            _ => 1,
        };
        let ghost pre = *self;
        self.write_slot(k, e, Pte::empty());
        proof {
            lemma_query_after_slot_update(pre, *final(self), vaddr@, lvl as int, Pte { bits: 0 });
            assert(!spec_visible(Pte { bits: 0 }, lvl as int));
        }
        if pte.is_present() {
            proof {
                assert(pre.nodes@[k as int].entries@[e as int].spec_paddr() <= usize::MAX);
            }
            Ok((pte.paddr(), sz))
        } else {
            Err(PagingError::NotMapped)
        }
    }

    /// Redirects an existing mapping to a new target with new flags,
    /// returning the page size of the affected entry.
    pub fn remap_single(
        &mut self,
        vaddr: VirtAddr,
        new_target: PhysAddr,
        flags: GenericMappingFlags,
    ) -> (r: PagingResult<PageSize>)
        requires
            old(self).wf(),
        ensures
            (final(self)).wf(),
            (final(self)).root == old(self).root,
            (final(self)).owned == old(self).owned,
            (final(self)).frames == old(self).frames,
            (final(self)).cross_mappings == old(self).cross_mappings,
            (final(self)).nodes@.len() == old(self).nodes@.len(),
            forall|i: int|
                0 <= i < old(self).nodes@.len() ==> ((final(self)).nodes@[i]).paddr == old(self).nodes@[i].paddr,
            r is Err ==> *final(self) == *old(self) && {
                ||| r->Err_0 == PagingError::NotAligned
                ||| r->Err_0 == PagingError::CanNotModify
                ||| r->Err_0 == PagingError::NotMapped
            },
            !spec_is_aligned(new_target@, PAGE_SIZE as int) ==> r == PagingResult::<
                PageSize,
            >::Err(PagingError::NotAligned),
            (spec_is_aligned(new_target@, PAGE_SIZE as int) && !old(self).owned) ==> r
                == PagingResult::<PageSize>::Err(PagingError::CanNotModify),
            (spec_is_aligned(new_target@, PAGE_SIZE as int) && old(self).owned && old(
                self,
            ).spec_entry_lookup(vaddr@) is None) ==> r == PagingResult::<PageSize>::Err(
                PagingError::NotMapped,
            ),
            (spec_is_aligned(new_target@, PAGE_SIZE as int) && old(self).owned && old(
                self,
            ).spec_entry_lookup(vaddr@) is Some && !spec_is_aligned(
                new_target@,
                (old(self).spec_entry_lookup(vaddr@)->0).1.spec_as_usize() as int,
            )) ==> r == PagingResult::<PageSize>::Err(PagingError::NotAligned),
            (spec_is_aligned(new_target@, PAGE_SIZE as int) && old(self).owned && old(
                self,
            ).spec_entry_lookup(vaddr@) is Some && spec_is_aligned(
                new_target@,
                (old(self).spec_entry_lookup(vaddr@)->0).1.spec_as_usize() as int,
            )) ==> r == PagingResult::<PageSize>::Ok(
                (old(self).spec_entry_lookup(vaddr@)->0).1,
            ),
            r is Ok ==> {
                let sz = r->Ok_0;
                let lvl = spec_level_of(sz);
                &&& old(self).spec_entry_lookup(vaddr@) is Some
                &&& (old(self).spec_entry_lookup(vaddr@)->0).1 == sz
                &&& spec_is_aligned(new_target@, sz.spec_as_usize() as int)
                &&& (forall|w: int|
                    same_path(vaddr@, w, lvl) ==> (final(self)).spec_query(w) == Some(
                        (new_target@ + w % spec_level_size(lvl), flags, spec_size_at(lvl)),
                    ))
                &&& (forall|w: int|
                    !same_path(vaddr@, w, lvl) ==> (final(self)).spec_query(w) == old(self).spec_query(w))
            },
    {
        if !new_target.is_aligned(PAGE_SIZE) {
            return Err(PagingError::NotAligned);
        }
        if !self.owned {
            return Err(PagingError::CanNotModify);
        }
        let located = self.locate_entry(vaddr);
        let (k, e, pte, sz) = match located {
            Ok(l) => l,
            Err(err) => {
                return Err(err);
            },
        };
        let size_bytes = sz.as_usize();
        if !new_target.is_aligned(size_bytes) {
            return Err(PagingError::NotAligned);
        }
        let lvl: usize = match sz {
            PageSize::_1G => 3,
            PageSize::_2M => 2,
            _ => 1,
        };
        let mut updated = pte;
        updated.set_paddr(new_target);
        updated.set_flags(flags);
        let ghost pre = *self;
        self.write_slot(k, e, updated);
        proof {
            lemma_query_after_slot_update(pre, *final(self), vaddr@, lvl as int, updated);
            assert(spec_visible(updated, lvl as int));
        }
        Ok(sz)
    }

    /// Walks to the slot for `vaddr` at the level of the given page size,
    /// creating intermediate tables as needed, then installs the given target
    /// or flags (or both) in it. Refuses to edit a slot that carries a table
    /// pointer.
    pub fn create_or_update_single(
        &mut self,
        alloc: &mut FrameAllocator,
        vaddr: VirtAddr,
        size: PageSize,
        paddr: Option<PhysAddr>,
        flags: Option<GenericMappingFlags>,
    ) -> (r: PagingResult<()>)
        requires
            old(self).wf(),
            old(alloc).wf(),
            old(self).frames_owned_by(*old(alloc)),
        ensures
            (final(alloc)).wf(),
            (final(alloc)).bottom == old(alloc).bottom,
            (final(alloc)).top == old(alloc).top,
            forall|a: int| old(alloc).taken().contains(a) ==> (final(alloc)).taken().contains(a),
            (final(self)).wf(),
            (final(self)).root == old(self).root,
            (final(self)).owned == old(self).owned,
            (final(self)).cross_mappings == old(self).cross_mappings,
            (final(self)).frames_owned_by(*final(alloc)),
            forall|i: int|
                0 <= i < old(self).nodes@.len() ==> ((final(self)).nodes@[i]).paddr == old(self).nodes@[i].paddr,
            (final(self)).nodes@.len() >= old(self).nodes@.len(),
            forall|i: int|
                old(self).nodes@.len() <= i < (final(self)).nodes@.len() ==> !old(
                    alloc,
                ).taken().contains(((final(self)).nodes@[i]).paddr@),
            r is Err ==> forall|w: int| (final(self)).spec_query(w) == old(self).spec_query(w),
            (old(self).owned && spec_is_aligned(vaddr@, PAGE_SIZE as int) && old(
                self,
            ).spec_path_constructible(vaddr@, spec_level_of(size)) && old(alloc).spec_available()
                >= 2 && !is_table_entry(spec_slot_pte(*old(self), vaddr@, spec_level_of(size))) && (
            paddr is Some ==> spec_is_aligned(
                paddr->0@,
                spec_level_size(spec_level_of(size)),
            )) && (flags is Some ==> spec_is_aligned(
                if paddr is Some {
                    paddr->0@
                } else {
                    spec_slot_pte(*old(self), vaddr@, spec_level_of(size)).spec_paddr()
                },
                spec_level_size(spec_level_of(size)),
            ))) ==> r is Ok,
            r is Ok ==> exists|p: Pte|
                #![trigger p.spec_flags()]
                {
                    let lvl = spec_level_of(size);
                    &&& !is_table_entry(p)
                    &&& (paddr is Some ==> p.spec_paddr() == paddr->0@)
                    &&& (flags is Some ==> p.spec_present() && p.spec_leaf() && p.spec_flags()
                        == flags->0)
                    &&& (paddr is None && flags is None ==> p == spec_slot_pte(
                        *old(self),
                        vaddr@,
                        lvl,
                    ))
                    &&& (forall|w: int|
                        same_path(vaddr@, w, lvl) ==> #[trigger] (final(self)).spec_query(w) == (
                        if spec_visible(p, lvl) {
                            Some(
                                (
                                    p.spec_paddr() + w % spec_level_size(lvl),
                                    p.spec_flags(),
                                    spec_size_at(lvl),
                                ),
                            )
                        } else {
                            Option::<(int, GenericMappingFlags, PageSize)>::None
                        }))
                    &&& (forall|w: int|
                        !same_path(vaddr@, w, lvl) ==> #[trigger] (final(self)).spec_query(w)
                            == old(self).spec_query(w))
                },
    {
        let lvl: usize = match size {
            PageSize::_1G => 3,
            PageSize::_2M => 2,
            _ => 1,
        };
        let lvl_size: usize = if lvl == 3 {
            SIZE_1G
        } else if lvl == 2 {
            SIZE_2M
        } else {
            PAGE_SIZE
        };
        let located = self.get_create_entry(alloc, vaddr, size);
        let (k, e) = match located {
            Ok(p) => p,
            Err(err) => {
                return Err(err);
            },
        };
        let slot = self.nodes[k].entries[e];
        proof {
            assert(slot == spec_slot_pte(*old(self), vaddr@, lvl as int));
        }
        if slot.is_present() && !slot.is_leaf() {
            proof {
                assert(is_table_entry(spec_slot_pte(*old(self), vaddr@, lvl as int)));
            }
            return Err(PagingError::CanNotModify);
        }
        let mut updated = slot;
        match paddr {
            Some(pa) => {
                if !pa.is_aligned(lvl_size) {
                    return Err(PagingError::NotAligned);
                }
                proof {
                    lemma_aligned_divides(pa@, lvl_size as int, PAGE_SIZE as int);
                }
                updated.set_paddr(pa);
            },
            None => {},
        }
        match flags {
            Some(f) => {
                proof {
                    assert(self.nodes@[k as int].entries@[e as int].spec_paddr() <= usize::MAX);
                }
                let cur = updated.paddr();
                proof {
                    if paddr is Some {
                        assert(cur@ == paddr->0@);
                    } else {
                        assert(cur@ == spec_slot_pte(*old(self), vaddr@, lvl as int).spec_paddr());
                    }
                }
                if !cur.is_aligned(lvl_size) {
                    return Err(PagingError::NotAligned);
                }
                updated.set_flags(f);
            },
            None => {},
        }
        proof {
            if updated.spec_leaf() && paddr is None && flags is None {
                assert(updated == spec_slot_pte(*old(self), vaddr@, lvl as int));
            }
        }
        let ghost pre = *self;
        self.write_slot(k, e, updated);
        proof {
            assert(updated.spec_paddr() <= usize::MAX) by {
                assert(pre.nodes@[k as int].entries@[e as int].spec_paddr() <= usize::MAX);
            }
            assert(updated.spec_leaf() ==> spec_is_aligned(
                updated.spec_paddr(),
                spec_level_size(lvl as int),
            )) by {
                if updated.spec_leaf() {
                    if flags is Some {
                    } else if paddr is Some {
                        lemma_aligned_divides(paddr->0@, lvl_size as int, lvl_size as int);
                    } else {
                        assert(pre.nodes@[k as int].level == lvl);
                    }
                }
            }
            lemma_query_after_slot_update(pre, *final(self), vaddr@, lvl as int, updated);
        }
        Ok(())
    }
}


/// Adding an in-remainder offset moves the remainder and keeps the quotient.
proof fn lemma_div_unchanged(v: int, d: int, m: int)
    requires
        m > 0,
        v >= 0,
        0 <= d,
        v % m + d < m,
    ensures
        (v + d) / m == v / m,
        (v + d) % m == v % m + d,
{
    vstd::arithmetic::div_mod::lemma_fundamental_div_mod(v, m);
    vstd::arithmetic::div_mod::lemma_mod_division_less_than_divisor(v, m);
    vstd::arithmetic::div_mod::lemma_div_pos_is_pos(v, m);
    assert(v + d == (v / m) * m + (v % m + d)) by (nonlinear_arith)
        requires
            v == m * (v / m) + v % m,
    ;
    vstd::arithmetic::div_mod::lemma_fundamental_div_mod_converse(v + d, m, v / m, v % m + d);
}

/// An in-remainder offset at a level keeps every coarser remainder in range.
proof fn lemma_rem_within(v: int, d: int, ls: int, m: int)
    requires
        v >= 0,
        0 <= d,
        ls > 0,
        m > 0,
        m % ls == 0,
        m >= ls,
        v % ls + d < ls,
    ensures
        v % m + d < m,
        (v + d) / m == v / m,
    {
    let f = m / ls;
    vstd::arithmetic::div_mod::lemma_fundamental_div_mod(m, ls);
    assert(m == ls * f);
    assert(f >= 1) by (nonlinear_arith)
        requires
            m == ls * f,
            m >= ls,
            ls > 0,
    ;
    vstd::arithmetic::div_mod::lemma_mod_mod(v, ls, f);
    assert((v % (ls * f)) % ls == v % ls);
    let a = v % m;
    vstd::arithmetic::div_mod::lemma_mod_division_less_than_divisor(v, m);
    vstd::arithmetic::div_mod::lemma_fundamental_div_mod(a, ls);
    vstd::arithmetic::div_mod::lemma_mod_division_less_than_divisor(a, ls);
    vstd::arithmetic::div_mod::lemma_div_pos_is_pos(a, ls);
    let j = a / ls;
    assert(a == ls * j + v % ls);
    assert(j < f) by (nonlinear_arith)
        requires
            a == ls * j + v % ls,
            a < m,
            m == ls * f,
            ls > 0,
            v % ls >= 0,
            j >= 0,
    ;
    assert(ls * j + ls <= ls * f) by (nonlinear_arith)
        requires
            j + 1 <= f,
            ls > 0,
    ;
    lemma_div_unchanged(v, d, m);
}

/// Every address within a mapped page walks the same slot as the page base,
/// and its page offset advances with it: the translation a query returns for
/// `v + off` is the page target plus `off`.
pub proof fn lemma_offset_same_path(v: int, off: int, level: int)
    requires
        v >= 0,
        1 <= level <= 3,
        0 <= off,
        v % spec_level_size(level) + off < spec_level_size(level),
    ensures
        same_path(v, v + off, level),
        (v + off) % spec_level_size(level) == v % spec_level_size(level) + off,
{
    let ls = spec_level_size(level);
    lemma_div_unchanged(v, off, ls);
    if level == 1 {
        lemma_rem_within(v, off, ls, SIZE_2M as int);
        lemma_rem_within(v, off, ls, SIZE_1G as int);
        lemma_rem_within(v, off, ls, PAGE_SIZE as int);
    } else if level == 2 {
        lemma_rem_within(v, off, ls, SIZE_1G as int);
        lemma_rem_within(v, off, ls, SIZE_2M as int);
    } else {
        lemma_rem_within(v, off, ls, SIZE_1G as int);
    }
}

/// An aligned base has page offset zero, so a mapped range `[v, v + size)`
/// translates offset by offset: with `map_single(v, p, size, fl)` installed,
/// `query(v + off)` yields `(p + off, fl, size)` for every `off < size`.
pub proof fn lemma_mapped_range_translates(v: int, off: int, level: int)
    requires
        v >= 0,
        1 <= level <= 3,
        0 <= off < spec_level_size(level),
        spec_is_aligned(v, spec_level_size(level)),
    ensures
        same_path(v, v + off, level),
        (v + off) % spec_level_size(level) == off,
{
    lemma_offset_same_path(v, off, level);
}


/// One physically contiguous piece of a bulk access: the physical address it
/// starts at, its length, and its offset into the request.
#[derive(Clone, Copy, PartialEq, Eq, Structural, Debug)]
pub struct MemChunk {
    pub paddr: PhysAddr,
    pub len: usize,
    pub offset: usize,
}

/// Whether flags admit an access: user-mode accesses need the user and
/// readable permissions, and the writable permission to write. Kernel-mode
/// accesses through the linear window are not policed.
pub open spec fn spec_perm_ok(fl: GenericMappingFlags, user: bool, write: bool) -> bool {
    user ==> (fl.user && fl.readable && (write ==> fl.writable))
}

impl PageTableNative {
    /// Whether a bulk access of `len` bytes at `v` can be carried out: the
    /// address is not null, every byte translates, the permissions admit the
    /// access, and every translated byte lies in the physical arena.
    pub open spec fn spec_access_ok(
        self,
        mem: PhysMem,
        v: int,
        len: int,
        user: bool,
        write: bool,
    ) -> bool {
        &&& v != 0
        &&& (forall|j: int|
            0 <= j < len ==> (#[trigger] self.spec_query(v + j)) is Some && spec_perm_ok(
                (self.spec_query(v + j)->0).1,
                user,
                write,
            ) && mem.spec_in_range((self.spec_query(v + j)->0).0, 1))
        &&& (len == 0 ==> self.spec_query(v) is Some && spec_perm_ok(
            (self.spec_query(v)->0).1,
            user,
            write,
        ))
    }

    /// Whether a chunk list describes the bulk access `[v, v + len)`:
    /// the chunks tile the request in order and each chunk byte translates
    /// to the chunk's physical bytes.
    #[verifier::opaque]
    pub open spec fn spec_chunks_describe(
        self,
        mem: PhysMem,
        cs: Seq<MemChunk>,
        v: int,
        len: int,
    ) -> bool {
        &&& (len == 0 ==> cs.len() == 0)
        &&& (len > 0 ==> cs.len() > 0 && cs[0].offset == 0 && cs.last().offset + cs.last().len
            == len)
        &&& (forall|i: int| 0 <= i < cs.len() ==> (#[trigger] cs[i]).len > 0)
        &&& (forall|i: int|
            0 < i < cs.len() ==> (#[trigger] cs[i]).offset == cs[i - 1].offset + cs[i - 1].len)
        &&& (forall|i: int|
            0 <= i < cs.len() ==> (#[trigger] cs[i]).offset + cs[i].len <= len)
        &&& (forall|i: int, d: int|
            0 <= i < cs.len() && 0 <= d < cs[i].len ==> mem.spec_in_range(
                #[trigger] (cs[i].paddr@ + d),
                1,
            ) && self.spec_query(v + cs[i].offset + d) is Some && (self.spec_query(
                v + cs[i].offset + d,
            )->0).0 == cs[i].paddr@ + d)
    }

    /// Walks `[vaddr, vaddr + len)` and returns the physically contiguous
    /// chunks it covers, checking translation, permissions and arena bounds.
    #[verifier::rlimit(100)]
    fn collect_chunks(
        &self,
        mem: &PhysMem,
        vaddr: VirtAddr,
        len: usize,
        user: bool,
        write: bool,
    ) -> (r: Result<Vec<MemChunk>, MMUError>)
        requires
            self.wf(),
            mem.wf(),
            vaddr@ + len <= usize::MAX,
        ensures
            r is Ok <==> self.spec_access_ok(*mem, vaddr@, len as int, user, write),
            r is Ok ==> self.spec_chunks_describe(*mem, r->Ok_0@, vaddr@, len as int),
            r is Err ==> {
                ||| r->Err_0 == MMUError::InvalidAddress
                ||| r->Err_0 == MMUError::PrivilegeError
                ||| r->Err_0 == (MMUError::PageNotReadable { vaddr })
                ||| r->Err_0 == (MMUError::PageNotWritable { vaddr })
                ||| r->Err_0 == MMUError::AccessFault
            },
            r is Err && r->Err_0 == MMUError::InvalidAddress ==> vaddr@ == 0 || (exists|j: int|
                0 <= j <= len && (#[trigger] self.spec_query(vaddr@ + j)) is None),
            r is Err && r->Err_0 == MMUError::PrivilegeError ==> user && (exists|j: int|
                0 <= j <= len && (#[trigger] self.spec_query(vaddr@ + j)) is Some && !(self.spec_query(
                    vaddr@ + j,
                )->0).1.user),
            r is Err && r->Err_0 == (MMUError::PageNotReadable { vaddr }) ==> user && (exists|j: int|
                0 <= j <= len && (#[trigger] self.spec_query(vaddr@ + j)) is Some && (self.spec_query(
                    vaddr@ + j,
                )->0).1.user && !(self.spec_query(vaddr@ + j)->0).1.readable),
            r is Err && r->Err_0 == (MMUError::PageNotWritable { vaddr }) ==> user && write && (
            exists|j: int|
                0 <= j <= len && (#[trigger] self.spec_query(vaddr@ + j)) is Some && (self.spec_query(
                    vaddr@ + j,
                )->0).1.user && (self.spec_query(vaddr@ + j)->0).1.readable && !(self.spec_query(
                    vaddr@ + j,
                )->0).1.writable),
            r is Err && r->Err_0 == MMUError::AccessFault ==> exists|j: int|
                0 <= j < len && (#[trigger] self.spec_query(vaddr@ + j)) is Some && !mem.spec_in_range(
                    (self.spec_query(vaddr@ + j)->0).0,
                    1,
                ),
    {
        if vaddr.is_null() {
            return Err(MMUError::InvalidAddress);
        }
        let mut chunks: Vec<MemChunk> = Vec::new();
        let mut cur = vaddr;
        let mut remaining = len;
        proof {
            lemma_collect_init(*self, *mem, vaddr@, len as int, user, write);
        }
        loop
            invariant_except_break
                self.wf(),
                mem.wf(),
                vaddr@ != 0,
                vaddr@ + len <= usize::MAX,
                remaining <= len,
                remaining > 0 || remaining == len,
                cur@ == vaddr@ + (len - remaining),
                len == 0 ==> chunks@.len() == 0 && remaining == 0,
                spec_collect_inv(
                    *self,
                    *mem,
                    vaddr@,
                    len as int,
                    chunks@,
                    (len - remaining) as int,
                    user,
                    write,
                ),
            ensures
                self.spec_access_ok(*mem, vaddr@, len as int, user, write),
                self.spec_chunks_describe(*mem, chunks@, vaddr@, len as int),
            decreases remaining,
        {
            let queried = self.query_virtual(cur);
            let (paddr, fl, size) = match queried {
                Ok(q) => q,
                Err(_) => {
                    proof {
                        lemma_access_not_ok_at(
                            *self,
                            *mem,
                            vaddr@,
                            len as int,
                            (len - remaining) as int,
                            user,
                            write,
                        );
                        assert(self.spec_query(vaddr@ + (len - remaining)) is None);
                    }
                    return Err(MMUError::InvalidAddress);
                },
            };
            if user {
                if !fl.user {
                    proof {
                        lemma_access_not_ok_at(*self, *mem, vaddr@, len as int, (len - remaining) as int, user, write);
                        assert(self.spec_query(vaddr@ + (len - remaining)) is Some && !(
                        self.spec_query(vaddr@ + (len - remaining))->0).1.user);
                    }
                    return Err(MMUError::PrivilegeError);
                }
                if !fl.readable {
                    proof {
                        lemma_access_not_ok_at(*self, *mem, vaddr@, len as int, (len - remaining) as int, user, write);
                        assert(self.spec_query(vaddr@ + (len - remaining)) is Some && (
                        self.spec_query(vaddr@ + (len - remaining))->0).1.user && !(self.spec_query(
                            vaddr@ + (len - remaining),
                        )->0).1.readable);
                    }
                    return Err(MMUError::PageNotReadable { vaddr });
                }
                if write && !fl.writable {
                    proof {
                        lemma_access_not_ok_at(*self, *mem, vaddr@, len as int, (len - remaining) as int, user, write);
                        assert(self.spec_query(vaddr@ + (len - remaining)) is Some && (
                        self.spec_query(vaddr@ + (len - remaining))->0).1.user && (self.spec_query(
                            vaddr@ + (len - remaining),
                        )->0).1.readable && !(self.spec_query(vaddr@ + (len - remaining))->0).1.writable);
                    }
                    return Err(MMUError::PageNotWritable { vaddr });
                }
            }
            if remaining == 0 {
                proof {
                    lemma_collect_finish(*self, *mem, vaddr@, len as int, chunks@, user, write);
                }
                break;
            }
            let size_bytes = size.as_usize();
            let off_in = paddr.offset_from_alignment(size_bytes);
            proof {
                lemma_query_offset_shape(*self, cur@);
            }
            let frame_remain = size_bytes - off_in;
            let avail = if remaining < frame_remain {
                remaining
            } else {
                frame_remain
            };
            if !mem.in_range(paddr, avail) {
                proof {
                    let lvl = spec_level_of(size);
                    let j0 = (len - remaining) as int;
                    if paddr@ < mem.base@ {
                        assert(!mem.spec_in_range((self.spec_query(vaddr@ + j0)->0).0, 1));
                        lemma_access_not_ok_at(*self, *mem, vaddr@, len as int, j0, user, write);
                        assert(0 <= j0 < len && self.spec_query(vaddr@ + j0) is Some);
                    } else {
                        let d = avail - 1;
                        lemma_offset_same_path(cur@, d as int, lvl);
                        assert(self.spec_query(cur@ + d) is Some);
                        assert((self.spec_query(cur@ + d)->0).0 == paddr@ + d);
                        assert(!mem.spec_in_range(paddr@ + d, 1));
                        lemma_access_not_ok_at(*self, *mem, vaddr@, len as int, j0 + d, user, write);
                        assert(0 <= j0 + d < len && self.spec_query(vaddr@ + (j0 + d)) is Some
                            && !mem.spec_in_range((self.spec_query(vaddr@ + (j0 + d))->0).0, 1));
                    }
                }
                return Err(MMUError::AccessFault);
            }
            let chunk = MemChunk { paddr, len: avail, offset: len - remaining };
            proof {
                let lvl = spec_level_of(size);
                assert forall|d: int| 0 <= d < avail implies mem.spec_in_range(
                    paddr@ + d,
                    1,
                ) && #[trigger] self.spec_query(cur@ + d) is Some && (self.spec_query(cur@ + d)->0).0
                    == paddr@ + d && spec_perm_ok((self.spec_query(cur@ + d)->0).1, user, write) by {
                    lemma_offset_same_path(cur@, d, lvl);
                }
                assert forall|d: int|
                    0 <= d < chunk.len implies mem.spec_in_range(
                    #[trigger] (chunk.paddr@ + d),
                    1,
                ) && self.spec_query(vaddr@ + chunk.offset + d) is Some && (self.spec_query(
                    vaddr@ + chunk.offset + d,
                )->0).0 == chunk.paddr@ + d && spec_perm_ok(
                    (self.spec_query(vaddr@ + chunk.offset + d)->0).1,
                    user,
                    write,
                ) by {
                    assert(vaddr@ + chunk.offset + d == cur@ + d);
                    assert(mem.spec_in_range(paddr@ + d, 1) && self.spec_query(cur@ + d) is Some
                        && (self.spec_query(cur@ + d)->0).0 == paddr@ + d && spec_perm_ok(
                        (self.spec_query(cur@ + d)->0).1,
                        user,
                        write,
                    ));
                }
                lemma_collect_step(
                    *self,
                    *mem,
                    vaddr@,
                    len as int,
                    chunks@,
                    chunk,
                    user,
                    write,
                );
            }
            chunks.push(chunk);
            remaining = remaining - avail;
            if remaining == 0 {
                proof {
                    lemma_collect_finish(*self, *mem, vaddr@, len as int, chunks@, user, write);
                }
                break;
            }
            cur = VirtAddr { addr: cur.addr + frame_remain };
        }
        Ok(chunks)
    }
}

/// The running facts of a chunk walk: the chunks gathered so far tile the
/// first `processed` bytes of the request and every processed byte
/// translates with the right permissions into the arena.
#[verifier::opaque]
pub open spec fn spec_collect_inv(
    pt: PageTableNative,
    mem: PhysMem,
    v: int,
    len: int,
    cs: Seq<MemChunk>,
    processed: int,
    user: bool,
    write: bool,
) -> bool {
    &&& (processed == 0 ==> cs.len() == 0)
    &&& (processed > 0 ==> cs.len() > 0 && cs[0].offset == 0 && cs.last().offset + cs.last().len
        == processed)
    &&& (forall|i: int| 0 <= i < cs.len() ==> (#[trigger] cs[i]).len > 0)
    &&& (forall|i: int|
        0 < i < cs.len() ==> (#[trigger] cs[i]).offset == cs[i - 1].offset + cs[i - 1].len)
    &&& (forall|i: int| 0 <= i < cs.len() ==> (#[trigger] cs[i]).offset + cs[i].len <= processed)
    &&& processed <= len
    &&& (forall|i: int, d: int|
        0 <= i < cs.len() && 0 <= d < cs[i].len ==> mem.spec_in_range(
            #[trigger] (cs[i].paddr@ + d),
            1,
        ) && pt.spec_query(v + cs[i].offset + d) is Some && (pt.spec_query(
            v + cs[i].offset + d,
        )->0).0 == cs[i].paddr@ + d)
    &&& (forall|j: int|
        0 <= j < processed ==> (#[trigger] pt.spec_query(v + j)) is Some && spec_perm_ok(
            (pt.spec_query(v + j)->0).1,
            user,
            write,
        ) && mem.spec_in_range((pt.spec_query(v + j)->0).0, 1))
}

/// An empty walk satisfies the running facts.
proof fn lemma_collect_init(
    pt: PageTableNative,
    mem: PhysMem,
    v: int,
    len: int,
    user: bool,
    write: bool,
)
    requires
        len >= 0,
    ensures
        spec_collect_inv(pt, mem, v, len, Seq::<MemChunk>::empty(), 0, user, write),
{
    reveal(spec_collect_inv);
}

/// Appending a fully translated chunk extends the running facts.
#[verifier::spinoff_prover]
#[verifier::rlimit(100)]
proof fn lemma_collect_step(
    pt: PageTableNative,
    mem: PhysMem,
    v: int,
    len: int,
    cs: Seq<MemChunk>,
    chunk: MemChunk,
    user: bool,
    write: bool,
)
    requires
        spec_collect_inv(pt, mem, v, len, cs, chunk.offset as int, user, write),
        chunk.len > 0,
        chunk.offset + chunk.len <= len,
        forall|d: int|
            0 <= d < chunk.len ==> mem.spec_in_range(#[trigger] (chunk.paddr@ + d), 1)
                && pt.spec_query(v + chunk.offset + d) is Some && (pt.spec_query(
                v + chunk.offset + d,
            )->0).0 == chunk.paddr@ + d && spec_perm_ok(
                (pt.spec_query(v + chunk.offset + d)->0).1,
                user,
                write,
            ),
    ensures
        spec_collect_inv(
            pt,
            mem,
            v,
            len,
            cs.push(chunk),
            chunk.offset + chunk.len,
            user,
            write,
        ),
{
    reveal(spec_collect_inv);
    let cs2 = cs.push(chunk);
    let processed = chunk.offset + chunk.len;
    assert forall|i: int, d: int|
        0 <= i < cs2.len() && 0 <= d < cs2[i].len implies mem.spec_in_range(
        #[trigger] (cs2[i].paddr@ + d),
        1,
    ) && pt.spec_query(v + cs2[i].offset + d) is Some && (pt.spec_query(
        v + cs2[i].offset + d,
    )->0).0 == cs2[i].paddr@ + d by {
        if i < cs.len() {
            assert(cs2[i] == cs[i]);
            assert(mem.spec_in_range(cs[i].paddr@ + d, 1));
        } else {
            assert(cs2[i] == chunk);
            assert(mem.spec_in_range(chunk.paddr@ + d, 1));
        }
    }
    assert forall|j: int|
        0 <= j < processed implies (#[trigger] pt.spec_query(v + j)) is Some && spec_perm_ok(
        (pt.spec_query(v + j)->0).1,
        user,
        write,
    ) && mem.spec_in_range((pt.spec_query(v + j)->0).0, 1) by {
        if j >= chunk.offset {
            let d = j - chunk.offset;
            assert(0 <= d < chunk.len);
            assert(mem.spec_in_range(#[trigger] (chunk.paddr@ + d), 1));
            assert(pt.spec_query(v + chunk.offset + d) is Some && (pt.spec_query(
                v + chunk.offset + d,
            )->0).0 == chunk.paddr@ + d && spec_perm_ok(
                (pt.spec_query(v + chunk.offset + d)->0).1,
                user,
                write,
            ));
            assert(v + j == v + chunk.offset + d);
        }
    }
    assert forall|i: int|
        0 < i < cs2.len() implies (#[trigger] cs2[i]).offset == cs2[i - 1].offset + cs2[i
        - 1].len by {
        if i < cs.len() {
            assert(cs2[i] == cs[i] && cs2[i - 1] == cs[i - 1]);
        } else {
            assert(cs2[i] == chunk);
            if cs.len() > 0 {
                assert(cs2[i - 1] == cs.last());
            }
        }
    }
    assert forall|i: int| 0 <= i < cs2.len() implies (#[trigger] cs2[i]).offset + cs2[i].len
        <= processed by {
        if i < cs.len() {
            assert(cs2[i] == cs[i]);
        }
    }
    assert forall|i: int| 0 <= i < cs2.len() implies (#[trigger] cs2[i]).len > 0 by {
        if i < cs.len() {
            assert(cs2[i] == cs[i]);
        }
    }
}

/// A complete walk yields the chunk description and the access right.
proof fn lemma_collect_finish(
    pt: PageTableNative,
    mem: PhysMem,
    v: int,
    len: int,
    cs: Seq<MemChunk>,
    user: bool,
    write: bool,
)
    requires
        spec_collect_inv(pt, mem, v, len, cs, len, user, write),
        v != 0,
        len == 0 ==> pt.spec_query(v) is Some && spec_perm_ok(
            (pt.spec_query(v)->0).1,
            user,
            write,
        ),
    ensures
        pt.spec_access_ok(mem, v, len, user, write),
        pt.spec_chunks_describe(mem, cs, v, len),
{
    reveal(spec_collect_inv);
    reveal(PageTableNative::spec_chunks_describe);
}

/// A failing byte refutes the whole access.
proof fn lemma_access_not_ok_at(
    pt: PageTableNative,
    mem: PhysMem,
    v: int,
    len: int,
    j: int,
    user: bool,
    write: bool,
)
    requires
        0 <= j < len || (j == 0 && len == 0),
        !(pt.spec_query(v + j) is Some && spec_perm_ok((pt.spec_query(v + j)->0).1, user, write)
            && (len > 0 ==> mem.spec_in_range((pt.spec_query(v + j)->0).0, 1))),
    ensures
        !pt.spec_access_ok(mem, v, len, user, write),
{
}

/// The page offset of a queried address within its level matches the
/// address's own offset, and the remaining room in the page is positive.
proof fn lemma_query_offset_shape(pt: PageTableNative, w: int)
    requires
        pt.wf(),
        w >= 0,
        pt.spec_query(w) is Some,
    ensures
        ({
            let (pa, fl, sz) = pt.spec_query(w)->0;
            let lvl = spec_level_of(sz);
            &&& sz.spec_as_usize() == spec_level_size(lvl)
            &&& pa % spec_level_size(lvl) == w % spec_level_size(lvl)
            &&& pa - (pa % spec_level_size(lvl)) + spec_level_size(lvl) - pa == spec_level_size(
                lvl,
            ) - (w % spec_level_size(lvl))
        }),
{
    let (pa, fl, sz) = pt.spec_query(w)->0;
    let lvl = spec_level_of(sz);
    let ls = spec_level_size(lvl);
    lemma_lookup_entry_in_some_node(pt, w);
    let (pte, sz2) = pt.spec_entry_lookup(w)->0;
    assert(sz2 == sz);
    assert(pa == pte.spec_paddr() + w % ls);
    assert(spec_is_aligned(pte.spec_paddr(), ls)) by {
        if lvl == 1 {
            vstd::arithmetic::div_mod::lemma_mod_multiples_basic(
                (pte.bits as int) / 1024,
                4096,
            );
        }
    }
    vstd::arithmetic::div_mod::lemma_mod_division_less_than_divisor(w, ls);
    vstd::arithmetic::div_mod::lemma_fundamental_div_mod(pte.spec_paddr(), ls);
    vstd::arithmetic::div_mod::lemma_mod_multiples_vanish(
        pte.spec_paddr() / ls,
        w % ls,
        ls,
    );
    assert(ls * (pte.spec_paddr() / ls) == pte.spec_paddr());
    assert((pte.spec_paddr() + w % ls) % ls == (w % ls) % ls);
    vstd::arithmetic::div_mod::lemma_mod_twice(w, ls);
}


impl PageTableNative {
    /// The physical address a virtual address translates to.
    pub open spec fn spec_pa(self, v: int, j: int) -> int {
        (self.spec_query(v + j)->0).0
    }

    /// Visits the physically contiguous chunks backing `[vaddr, vaddr+len)`
    /// readable from user mode, in request order; their lengths sum to `len`.
    pub fn inspect_framed(&self, mem: &PhysMem, vaddr: VirtAddr, len: usize) -> (r: Result<
        Vec<MemChunk>,
        MMUError,
    >)
        requires
            self.wf(),
            mem.wf(),
            vaddr@ + len <= usize::MAX,
        ensures
            r is Err ==> {
                ||| r->Err_0 == MMUError::InvalidAddress
                ||| r->Err_0 == MMUError::PrivilegeError
                ||| r->Err_0 == (MMUError::PageNotReadable { vaddr })
                ||| r->Err_0 == (MMUError::PageNotWritable { vaddr })
                ||| r->Err_0 == MMUError::AccessFault
            },
            r is Err && r->Err_0 == MMUError::InvalidAddress ==> vaddr@ == 0 || (exists|j: int|
                0 <= j <= len && (#[trigger] self.spec_query(vaddr@ + j)) is None),
            r is Err && r->Err_0 == MMUError::PrivilegeError ==> exists|j: int|
                0 <= j <= len && (#[trigger] self.spec_query(vaddr@ + j)) is Some && !(self.spec_query(
                    vaddr@ + j,
                )->0).1.user,
            r is Err && r->Err_0 == (MMUError::PageNotReadable { vaddr }) ==> exists|j: int|
                0 <= j <= len && (#[trigger] self.spec_query(vaddr@ + j)) is Some && (self.spec_query(
                    vaddr@ + j,
                )->0).1.user && !(self.spec_query(vaddr@ + j)->0).1.readable,
            r is Err ==> r->Err_0 != (MMUError::PageNotWritable { vaddr }),
            r is Err && r->Err_0 == MMUError::AccessFault ==> exists|j: int|
                0 <= j < len && (#[trigger] self.spec_query(vaddr@ + j)) is Some && !(*mem).spec_in_range(
                    (self.spec_query(vaddr@ + j)->0).0,
                    1,
                ),
            r is Ok <==> self.spec_access_ok(*mem, vaddr@, len as int, true, false),
            r is Ok ==> self.spec_chunks_describe(*mem, r->Ok_0@, vaddr@, len as int),
    {
        self.collect_chunks(mem, vaddr, len, true, false)
    }

    /// Like [`Self::inspect_framed`], also demanding the writable permission.
    pub fn inspect_framed_mut(&self, mem: &PhysMem, vaddr: VirtAddr, len: usize) -> (r: Result<
        Vec<MemChunk>,
        MMUError,
    >)
        requires
            self.wf(),
            mem.wf(),
            vaddr@ + len <= usize::MAX,
        ensures
            r is Err ==> {
                ||| r->Err_0 == MMUError::InvalidAddress
                ||| r->Err_0 == MMUError::PrivilegeError
                ||| r->Err_0 == (MMUError::PageNotReadable { vaddr })
                ||| r->Err_0 == (MMUError::PageNotWritable { vaddr })
                ||| r->Err_0 == MMUError::AccessFault
            },
            r is Err && r->Err_0 == MMUError::InvalidAddress ==> vaddr@ == 0 || (exists|j: int|
                0 <= j <= len && (#[trigger] self.spec_query(vaddr@ + j)) is None),
            r is Err && r->Err_0 == MMUError::PrivilegeError ==> exists|j: int|
                0 <= j <= len && (#[trigger] self.spec_query(vaddr@ + j)) is Some && !(self.spec_query(
                    vaddr@ + j,
                )->0).1.user,
            r is Err && r->Err_0 == (MMUError::PageNotReadable { vaddr }) ==> exists|j: int|
                0 <= j <= len && (#[trigger] self.spec_query(vaddr@ + j)) is Some && (self.spec_query(
                    vaddr@ + j,
                )->0).1.user && !(self.spec_query(vaddr@ + j)->0).1.readable,
            r is Err && r->Err_0 == (MMUError::PageNotWritable { vaddr }) ==> exists|j: int|
                0 <= j <= len && (#[trigger] self.spec_query(vaddr@ + j)) is Some && (self.spec_query(
                    vaddr@ + j,
                )->0).1.user && (self.spec_query(vaddr@ + j)->0).1.readable && !(self.spec_query(
                    vaddr@ + j,
                )->0).1.writable,
            r is Err && r->Err_0 == MMUError::AccessFault ==> exists|j: int|
                0 <= j < len && (#[trigger] self.spec_query(vaddr@ + j)) is Some && !(*mem).spec_in_range(
                    (self.spec_query(vaddr@ + j)->0).0,
                    1,
                ),
            r is Ok <==> self.spec_access_ok(*mem, vaddr@, len as int, true, true),
            r is Ok ==> self.spec_chunks_describe(*mem, r->Ok_0@, vaddr@, len as int),
    {
        self.collect_chunks(mem, vaddr, len, true, true)
    }

    /// Reads `len` bytes of the user mapping at `vaddr` through the linear
    /// window; requires the user and readable permissions on every page.
    pub fn read_bytes(&self, mem: &PhysMem, vaddr: VirtAddr, len: usize) -> (r: Result<
        Vec<u8>,
        MMUError,
    >)
        requires
            self.wf(),
            mem.wf(),
            vaddr@ + len <= usize::MAX,
        ensures
            r is Err ==> {
                ||| r->Err_0 == MMUError::InvalidAddress
                ||| r->Err_0 == MMUError::PrivilegeError
                ||| r->Err_0 == (MMUError::PageNotReadable { vaddr })
                ||| r->Err_0 == (MMUError::PageNotWritable { vaddr })
                ||| r->Err_0 == MMUError::AccessFault
            },
            r is Err && r->Err_0 == MMUError::InvalidAddress ==> vaddr@ == 0 || (exists|j: int|
                0 <= j <= len && (#[trigger] self.spec_query(vaddr@ + j)) is None),
            r is Err && r->Err_0 == MMUError::PrivilegeError ==> exists|j: int|
                0 <= j <= len && (#[trigger] self.spec_query(vaddr@ + j)) is Some && !(self.spec_query(
                    vaddr@ + j,
                )->0).1.user,
            r is Err && r->Err_0 == (MMUError::PageNotReadable { vaddr }) ==> exists|j: int|
                0 <= j <= len && (#[trigger] self.spec_query(vaddr@ + j)) is Some && (self.spec_query(
                    vaddr@ + j,
                )->0).1.user && !(self.spec_query(vaddr@ + j)->0).1.readable,
            r is Err ==> r->Err_0 != (MMUError::PageNotWritable { vaddr }),
            r is Err && r->Err_0 == MMUError::AccessFault ==> exists|j: int|
                0 <= j < len && (#[trigger] self.spec_query(vaddr@ + j)) is Some && !(*mem).spec_in_range(
                    (self.spec_query(vaddr@ + j)->0).0,
                    1,
                ),
            r is Ok <==> self.spec_access_ok(*mem, vaddr@, len as int, true, false),
            r is Ok ==> r->Ok_0@.len() == len && forall|j: int|
                0 <= j < len ==> r->Ok_0@[j] == mem.spec_byte(#[trigger] self.spec_pa(vaddr@, j)),
    {
        let chunks = match self.collect_chunks(mem, vaddr, len, true, false) {
            Ok(c) => c,
            Err(e) => {
                return Err(e);
            },
        };
        Ok(self.gather_chunks(mem, &chunks, vaddr, len))
    }

    /// Reads like [`Self::read_bytes`] but from kernel mode: the mapping must
    /// exist and lie in the arena, and no permission is demanded.
    pub fn read_bytes_kernel(&self, mem: &PhysMem, vaddr: VirtAddr, len: usize) -> (r: Result<
        Vec<u8>,
        MMUError,
    >)
        requires
            self.wf(),
            mem.wf(),
            vaddr@ + len <= usize::MAX,
        ensures
            r is Err ==> r->Err_0 == MMUError::InvalidAddress || r->Err_0
                == MMUError::AccessFault,
            r is Err && r->Err_0 == MMUError::InvalidAddress ==> vaddr@ == 0 || (exists|j: int|
                0 <= j <= len && (#[trigger] self.spec_query(vaddr@ + j)) is None),
            r is Err && r->Err_0 == MMUError::AccessFault ==> exists|j: int|
                0 <= j < len && (#[trigger] self.spec_query(vaddr@ + j)) is Some && !(*mem).spec_in_range(
                    (self.spec_query(vaddr@ + j)->0).0,
                    1,
                ),
            r is Ok <==> self.spec_access_ok(*mem, vaddr@, len as int, false, false),
            r is Ok ==> r->Ok_0@.len() == len && forall|j: int|
                0 <= j < len ==> r->Ok_0@[j] == mem.spec_byte(#[trigger] self.spec_pa(vaddr@, j)),
    {
        let chunks = match self.collect_chunks(mem, vaddr, len, false, false) {
            Ok(c) => c,
            Err(e) => {
                return Err(e);
            },
        };
        Ok(self.gather_chunks(mem, &chunks, vaddr, len))
    }

    /// Copies the chunk contents out of the arena, in request order.
    #[verifier::spinoff_prover]
    #[verifier::rlimit(100)]
    fn gather_chunks(&self, mem: &PhysMem, chunks: &Vec<MemChunk>, vaddr: VirtAddr, len: usize)
        -> (r: Vec<u8>)
        requires
            self.wf(),
            mem.wf(),
            self.spec_chunks_describe(*mem, chunks@, vaddr@, len as int),
        ensures
            r@.len() == len,
            forall|j: int|
                0 <= j < len ==> r@[j] == mem.spec_byte(#[trigger] self.spec_pa(vaddr@, j)),
    {
        proof {
            reveal(PageTableNative::spec_chunks_describe);
        }
        let mut buf: Vec<u8> = Vec::new();
        let mut i: usize = 0;
        let mut done: usize = 0;
        #[verifier::rlimit(100)]
        while i < chunks.len()
            invariant
                mem.wf(),
                self.spec_chunks_describe(*mem, chunks@, vaddr@, len as int),
                i <= chunks@.len(),
                buf@.len() == done,
                i < chunks@.len() ==> done == chunks@[i as int].offset,
                i == chunks@.len() ==> done == len,
                done <= len,
                forall|j: int|
                    0 <= j < done ==> buf@[j] == mem.spec_byte(#[trigger] self.spec_pa(vaddr@, j)),
            decreases chunks@.len() - i,
        {
            let chunk = chunks[i];
            proof {
                reveal(PageTableNative::spec_chunks_describe);
                assert(chunk.len > 0);
                assert(mem.spec_in_range(chunk.paddr@ + 0, 1));
                assert(mem.spec_in_range(chunk.paddr@ + (chunk.len - 1), 1));
            }
            let ghost oldbuf = buf@;
            let mut part = mem.read_range(chunk.paddr, chunk.len);
            buf.append(&mut part);
            proof {
                reveal(PageTableNative::spec_chunks_describe);
                assert forall|d: int|
                    0 <= d < chunk.len implies (#[trigger] self.spec_query(vaddr@ + done + d))
                    is Some && (self.spec_query(vaddr@ + done + d)->0).0 == chunk.paddr@ + d by {
                    assert(mem.spec_in_range(chunks@[i as int].paddr@ + d, 1) && self.spec_query(
                        vaddr@ + chunks@[i as int].offset + d,
                    ) is Some && (self.spec_query(vaddr@ + chunks@[i as int].offset + d)->0).0
                        == chunks@[i as int].paddr@ + d);
                    assert(vaddr@ + done + d == vaddr@ + chunks@[i as int].offset + d);
                }
                lemma_gather_step(
                    *self,
                    *mem,
                    vaddr@,
                    done as int,
                    chunk.paddr@,
                    chunk.len as int,
                    oldbuf,
                    buf@,
                );
            }
            i = i + 1;
            done = done + chunk.len;
            proof {
                reveal(PageTableNative::spec_chunks_describe);
                if i < chunks@.len() {
                    assert(chunks@[i as int].offset == chunks@[i - 1].offset + chunks@[i
                        - 1].len);
                } else {
                    assert(chunks@.last().offset + chunks@.last().len == len);
                }
            }
        }
        buf
    }

    /// Writes `data` to the user mapping at `vaddr` through the linear
    /// window; requires the user, readable and writable permissions on every
    /// page. On failure the arena is unchanged.
    pub fn write_bytes(&self, mem: &mut PhysMem, vaddr: VirtAddr, data: &[u8]) -> (r: Result<
        (),
        MMUError,
    >)
        requires
            self.wf(),
            old(mem).wf(),
            vaddr@ + data@.len() <= usize::MAX,
        ensures
            r is Err ==> {
                ||| r->Err_0 == MMUError::InvalidAddress
                ||| r->Err_0 == MMUError::PrivilegeError
                ||| r->Err_0 == (MMUError::PageNotReadable { vaddr })
                ||| r->Err_0 == (MMUError::PageNotWritable { vaddr })
                ||| r->Err_0 == MMUError::AccessFault
            },
            r is Err && r->Err_0 == MMUError::InvalidAddress ==> vaddr@ == 0 || (exists|j: int|
                0 <= j <= data@.len() && (#[trigger] self.spec_query(vaddr@ + j)) is None),
            r is Err && r->Err_0 == MMUError::PrivilegeError ==> exists|j: int|
                0 <= j <= data@.len() && (#[trigger] self.spec_query(vaddr@ + j)) is Some && !(self.spec_query(
                    vaddr@ + j,
                )->0).1.user,
            r is Err && r->Err_0 == (MMUError::PageNotReadable { vaddr }) ==> exists|j: int|
                0 <= j <= data@.len() && (#[trigger] self.spec_query(vaddr@ + j)) is Some && (self.spec_query(
                    vaddr@ + j,
                )->0).1.user && !(self.spec_query(vaddr@ + j)->0).1.readable,
            r is Err && r->Err_0 == (MMUError::PageNotWritable { vaddr }) ==> exists|j: int|
                0 <= j <= data@.len() && (#[trigger] self.spec_query(vaddr@ + j)) is Some && (self.spec_query(
                    vaddr@ + j,
                )->0).1.user && (self.spec_query(vaddr@ + j)->0).1.readable && !(self.spec_query(
                    vaddr@ + j,
                )->0).1.writable,
            r is Err && r->Err_0 == MMUError::AccessFault ==> exists|j: int|
                0 <= j < data@.len() && (#[trigger] self.spec_query(vaddr@ + j)) is Some && !(*old(mem)).spec_in_range(
                    (self.spec_query(vaddr@ + j)->0).0,
                    1,
                ),
            (final(mem)).wf(),
            (final(mem)).base == old(mem).base,
            (final(mem)).bytes@.len() == old(mem).bytes@.len(),
            r is Ok <==> self.spec_access_ok(*old(mem), vaddr@, data@.len() as int, true, true),
            r is Err ==> *final(mem) == *old(mem),
            r is Ok ==> self.spec_write_effect(*old(mem), *final(mem), vaddr@, data@),
    {
        let chunks = match self.collect_chunks(mem, vaddr, data.len(), true, true) {
            Ok(c) => c,
            Err(e) => {
                return Err(e);
            },
        };
        self.scatter_chunks(mem, &chunks, vaddr, data);
        Ok(())
    }

    /// Writes like [`Self::write_bytes`] but from kernel mode: the mapping
    /// must exist and lie in the arena, and no permission is demanded.
    pub fn write_bytes_kernel(&self, mem: &mut PhysMem, vaddr: VirtAddr, data: &[u8]) -> (r: Result<
        (),
        MMUError,
    >)
        requires
            self.wf(),
            old(mem).wf(),
            vaddr@ + data@.len() <= usize::MAX,
        ensures
            r is Err ==> r->Err_0 == MMUError::InvalidAddress || r->Err_0
                == MMUError::AccessFault,
            r is Err && r->Err_0 == MMUError::InvalidAddress ==> vaddr@ == 0 || (exists|j: int|
                0 <= j <= data@.len() && (#[trigger] self.spec_query(vaddr@ + j)) is None),
            r is Err && r->Err_0 == MMUError::AccessFault ==> exists|j: int|
                0 <= j < data@.len() && (#[trigger] self.spec_query(vaddr@ + j)) is Some && !(*old(mem)).spec_in_range(
                    (self.spec_query(vaddr@ + j)->0).0,
                    1,
                ),
            (final(mem)).wf(),
            (final(mem)).base == old(mem).base,
            (final(mem)).bytes@.len() == old(mem).bytes@.len(),
            r is Ok <==> self.spec_access_ok(*old(mem), vaddr@, data@.len() as int, false, false),
            r is Err ==> *final(mem) == *old(mem),
            r is Ok ==> self.spec_write_effect(*old(mem), *final(mem), vaddr@, data@),
    {
        let chunks = match self.collect_chunks(mem, vaddr, data.len(), false, false) {
            Ok(c) => c,
            Err(e) => {
                return Err(e);
            },
        };
        self.scatter_chunks(mem, &chunks, vaddr, data);
        Ok(())
    }

    /// What a bulk write does to the arena: every request byte without a
    /// later alias lands at its translated address, and bytes outside the
    /// written image keep their values.
    pub open spec fn spec_write_effect(
        self,
        pre: PhysMem,
        post: PhysMem,
        v: int,
        data: Seq<u8>,
    ) -> bool {
        &&& (forall|j: int|
            0 <= j < data.len() && (forall|j2: int|
                j < j2 < data.len() ==> self.spec_pa(v, j2) != self.spec_pa(v, j)) ==> post.spec_byte(
                #[trigger] self.spec_pa(v, j),
            ) == data[j])
        &&& (forall|k: int|
            0 <= k < pre.bytes@.len() && (forall|j: int|
                0 <= j < data.len() ==> self.spec_pa(v, j) != pre.base@ + k)
                ==> #[trigger] post.bytes@[k] == pre.bytes@[k])
    }

    /// Copies the request into the arena, chunk by chunk.
    #[verifier::rlimit(100)]
    fn scatter_chunks(&self, mem: &mut PhysMem, chunks: &Vec<MemChunk>, vaddr: VirtAddr, data: &[u8])
        requires
            self.wf(),
            old(mem).wf(),
            self.spec_chunks_describe(*old(mem), chunks@, vaddr@, data@.len() as int),
            forall|j: int|
                0 <= j < data@.len() ==> (#[trigger] self.spec_query(vaddr@ + j)) is Some && old(
                    mem,
                ).spec_in_range((self.spec_query(vaddr@ + j)->0).0, 1),
        ensures
            (final(mem)).wf(),
            (final(mem)).base == old(mem).base,
            (final(mem)).bytes@.len() == old(mem).bytes@.len(),
            self.spec_write_effect(*old(mem), *final(mem), vaddr@, data@),
    {
        let len = data.len();
        let mut i: usize = 0;
        let mut done: usize = 0;
        proof {
            reveal(PageTableNative::spec_chunks_describe);
            lemma_scatter_init(*self, *old(mem), vaddr@, data@);
        }
        while i < chunks.len()
            invariant
                mem.wf(),
                mem.base == old(mem).base,
                mem.bytes@.len() == old(mem).bytes@.len(),
                len == data@.len(),
                self.spec_chunks_describe(*old(mem), chunks@, vaddr@, len as int),
                forall|j: int|
                    0 <= j < data@.len() ==> (#[trigger] self.spec_query(vaddr@ + j)) is Some
                        && old(mem).spec_in_range((self.spec_query(vaddr@ + j)->0).0, 1),
                i <= chunks@.len(),
                i < chunks@.len() ==> done == chunks@[i as int].offset,
                i == chunks@.len() ==> done == len,
                done <= len,
                spec_scatter_inv(*self, *old(mem), *mem, vaddr@, data@, done as int),
            decreases chunks@.len() - i,
        {
            let chunk = chunks[i];
            proof {
                reveal(PageTableNative::spec_chunks_describe);
            }
            let mut part: Vec<u8> = Vec::new();
            let mut d: usize = 0;
            proof {
                assert(chunk.offset + chunk.len <= len);
            }
            while d < chunk.len
                invariant
                    d <= chunk.len,
                    len == data@.len(),
                    chunk.offset + chunk.len <= len,
                    part@.len() == d,
                    forall|x: int| 0 <= x < d ==> part@[x] == data@[chunk.offset + x],
                decreases chunk.len - d,
            {
                part.push(data[chunk.offset + d]);
                d = d + 1;
            }
            proof {
                assert(chunk.len > 0);
                assert(mem.spec_in_range(chunk.paddr@ + 0, 1));
                assert(mem.spec_in_range(chunk.paddr@ + (chunk.len - 1), 1));
            }
            let ghost pre_mem = *mem;
            mem.write_range(chunk.paddr, part.as_slice());
            proof {
                assert forall|d: int| 0 <= d < chunk.len implies #[trigger] self.spec_pa(
                    vaddr@,
                    done + d,
                ) == chunk.paddr@ + d by {
                    assert(mem.spec_in_range(chunks@[i as int].paddr@ + d, 1) && self.spec_query(
                        vaddr@ + chunks@[i as int].offset + d,
                    ) is Some && (self.spec_query(vaddr@ + chunks@[i as int].offset + d)->0).0
                        == chunks@[i as int].paddr@ + d);
                }
                assert forall|j: int| 0 <= j < data@.len() implies old(mem).spec_in_range(
                    #[trigger] self.spec_pa(vaddr@, j),
                    1,
                ) by {
                    assert(self.spec_query(vaddr@ + j) is Some && old(mem).spec_in_range(
                        (self.spec_query(vaddr@ + j)->0).0,
                        1,
                    ));
                }
                lemma_scatter_step(
                    *self,
                    *old(mem),
                    pre_mem,
                    *mem,
                    vaddr@,
                    data@,
                    done as int,
                    chunk.len as int,
                    chunk.paddr@,
                    part@,
                );
            }
            i = i + 1;
            done = done + chunk.len;
            proof {
                reveal(PageTableNative::spec_chunks_describe);
                if i < chunks@.len() {
                    assert(chunks@[i as int].offset == chunks@[i - 1].offset + chunks@[i
                        - 1].len);
                } else {
                    assert(chunks@.last().offset + chunks@.last().len == len);
                }
            }
        }
        proof {
            lemma_scatter_finish(*self, *old(mem), *mem, vaddr@, data@);
        }
    }

    /// A direct kernel view of `len` bytes of physical memory through the
    /// linear window.
    pub fn linear_map_phys(&self, mem: &PhysMem, paddr: PhysAddr, len: usize) -> (r: Result<
        Vec<u8>,
        MMUError,
    >)
        requires
            mem.wf(),
        ensures
            r is Ok <==> mem.spec_in_range(paddr@, len as int),
            r is Ok ==> r->Ok_0@ == mem.spec_range(paddr@, len as int),
            r is Err ==> r->Err_0 == MMUError::AccessFault,
    {
        if !mem.in_range(paddr, len) {
            return Err(MMUError::AccessFault);
        }
        Ok(mem.read_range(paddr, len))
    }

    /// Checks permissions over `[vaddr, vaddr + len)` and hands out a scoped
    /// read-only copy of the user memory.
    pub fn map_buffer(&self, mem: &PhysMem, vaddr: VirtAddr, len: usize) -> (r: Result<
        Memory,
        MMUError,
    >)
        requires
            self.wf(),
            mem.wf(),
            vaddr@ + len <= usize::MAX,
        ensures
            r is Err ==> {
                ||| r->Err_0 == MMUError::InvalidAddress
                ||| r->Err_0 == MMUError::PrivilegeError
                ||| r->Err_0 == (MMUError::PageNotReadable { vaddr })
                ||| r->Err_0 == (MMUError::PageNotWritable { vaddr })
                ||| r->Err_0 == MMUError::AccessFault
            },
            r is Err && r->Err_0 == MMUError::InvalidAddress ==> vaddr@ == 0 || (exists|j: int|
                0 <= j <= len && (#[trigger] self.spec_query(vaddr@ + j)) is None),
            r is Err && r->Err_0 == MMUError::PrivilegeError ==> exists|j: int|
                0 <= j <= len && (#[trigger] self.spec_query(vaddr@ + j)) is Some && !(self.spec_query(
                    vaddr@ + j,
                )->0).1.user,
            r is Err && r->Err_0 == (MMUError::PageNotReadable { vaddr }) ==> exists|j: int|
                0 <= j <= len && (#[trigger] self.spec_query(vaddr@ + j)) is Some && (self.spec_query(
                    vaddr@ + j,
                )->0).1.user && !(self.spec_query(vaddr@ + j)->0).1.readable,
            r is Err ==> r->Err_0 != (MMUError::PageNotWritable { vaddr }),
            r is Err && r->Err_0 == MMUError::AccessFault ==> exists|j: int|
                0 <= j < len && (#[trigger] self.spec_query(vaddr@ + j)) is Some && !(*mem).spec_in_range(
                    (self.spec_query(vaddr@ + j)->0).0,
                    1,
                ),
            r is Ok <==> self.spec_access_ok(*mem, vaddr@, len as int, true, false),
            r is Ok ==> r->Ok_0.vaddr == vaddr && r->Ok_0.data@.len() == len && forall|j: int|
                0 <= j < len ==> r->Ok_0.data@[j] == mem.spec_byte(
                    #[trigger] self.spec_pa(vaddr@, j),
                ),
    {
        let data = match self.read_bytes(mem, vaddr, len) {
            Ok(d) => d,
            Err(e) => {
                return Err(e);
            },
        };
        Ok(Memory { vaddr, data })
    }

    /// Checks write permissions over `[vaddr, vaddr + len)` and hands out a
    /// scoped writable copy of the user memory; give it back with
    /// [`MemoryMut::release`].
    pub fn map_buffer_mut(&self, mem: &PhysMem, vaddr: VirtAddr, len: usize, force_mut: bool) -> (r:
        Result<MemoryMut, MMUError>)
        requires
            self.wf(),
            mem.wf(),
            vaddr@ + len <= usize::MAX,
        ensures
            r is Err ==> {
                ||| r->Err_0 == MMUError::InvalidAddress
                ||| r->Err_0 == MMUError::PrivilegeError
                ||| r->Err_0 == (MMUError::PageNotReadable { vaddr })
                ||| r->Err_0 == (MMUError::PageNotWritable { vaddr })
                ||| r->Err_0 == MMUError::AccessFault
            },
            r is Err && r->Err_0 == MMUError::InvalidAddress ==> vaddr@ == 0 || (exists|j: int|
                0 <= j <= len && (#[trigger] self.spec_query(vaddr@ + j)) is None),
            r is Err && r->Err_0 == MMUError::PrivilegeError ==> exists|j: int|
                0 <= j <= len && (#[trigger] self.spec_query(vaddr@ + j)) is Some && !(self.spec_query(
                    vaddr@ + j,
                )->0).1.user,
            r is Err && r->Err_0 == (MMUError::PageNotReadable { vaddr }) ==> exists|j: int|
                0 <= j <= len && (#[trigger] self.spec_query(vaddr@ + j)) is Some && (self.spec_query(
                    vaddr@ + j,
                )->0).1.user && !(self.spec_query(vaddr@ + j)->0).1.readable,
            r is Err && r->Err_0 == (MMUError::PageNotWritable { vaddr }) ==> exists|j: int|
                0 <= j <= len && (#[trigger] self.spec_query(vaddr@ + j)) is Some && (self.spec_query(
                    vaddr@ + j,
                )->0).1.user && (self.spec_query(vaddr@ + j)->0).1.readable && !(self.spec_query(
                    vaddr@ + j,
                )->0).1.writable,
            r is Err && r->Err_0 == MMUError::AccessFault ==> exists|j: int|
                0 <= j < len && (#[trigger] self.spec_query(vaddr@ + j)) is Some && !(*mem).spec_in_range(
                    (self.spec_query(vaddr@ + j)->0).0,
                    1,
                ),
            r is Ok <==> self.spec_access_ok(*mem, vaddr@, len as int, true, true),
            r is Ok ==> r->Ok_0.vaddr == vaddr && r->Ok_0.data@.len() == len && forall|j: int|
                0 <= j < len ==> r->Ok_0.data@[j] == mem.spec_byte(
                    #[trigger] self.spec_pa(vaddr@, j),
                ),
    {
        let chunks = match self.collect_chunks(mem, vaddr, len, true, true) {
            Ok(c) => c,
            Err(e) => {
                return Err(e);
            },
        };
        let data = self.gather_chunks(mem, &chunks, vaddr, len);
        Ok(MemoryMut { vaddr, data })
    }

    /// Releases a buffer address. The native table maps buffers in place, so
    /// there is nothing to tear down.
    pub fn unmap_buffer(&self, _vaddr: VirtAddr) {
    }
}

/// A scoped read-only view of user memory handed to kernel code.
pub struct Memory {
    pub vaddr: VirtAddr,
    pub data: Vec<u8>,
}

impl Memory {
    /// The bytes of the view.
    pub fn bytes(&self) -> (r: &Vec<u8>)
        ensures
            r == &self.data,
    {
        &self.data
    }
}

/// A scoped writable view of user memory; its contents are written back to
/// the address space when it is released.
pub struct MemoryMut {
    pub vaddr: VirtAddr,
    pub data: Vec<u8>,
}

impl MemoryMut {
    /// The bytes of the view.
    pub fn bytes(&self) -> (r: &Vec<u8>)
        ensures
            r == &self.data,
    {
        &self.data
    }

    /// Overwrites one byte of the view.
    pub fn set_byte(&mut self, i: usize, value: u8)
        requires
            i < old(self).data@.len(),
        ensures
            (final(self)).vaddr == old(self).vaddr,
            (final(self)).data@ == old(self).data@.update(i as int, value),
    {
        self.data.set(i, value);
    }

    /// Writes the view back to the address space and releases it; the
    /// counterpart of the drop of a scoped buffer.
    pub fn release(self, pt: &PageTableNative, mem: &mut PhysMem) -> (r: Result<(), MMUError>)
        requires
            pt.wf(),
            old(mem).wf(),
            self.vaddr@ + self.data@.len() <= usize::MAX,
        ensures
            (final(mem)).wf(),
            (final(mem)).base == old(mem).base,
            (final(mem)).bytes@.len() == old(mem).bytes@.len(),
            r is Ok <==> pt.spec_access_ok(
                *old(mem),
                self.vaddr@,
                self.data@.len() as int,
                true,
                true,
            ),
            r is Ok ==> pt.spec_write_effect(*old(mem), *final(mem), self.vaddr@, self.data@),
    {
        let r = pt.write_bytes(mem, self.vaddr, self.data.as_slice());
        pt.unmap_buffer(self.vaddr);
        r
    }
}

/// Releasing a writable buffer leaves the MMU able to map the same range
/// again: whether a buffer can be mapped depends only on the table's
/// translations and the arena's extent, and neither changes when a buffer is
/// written back.
pub proof fn lemma_buffer_reusable(
    pt: PageTableNative,
    pre: PhysMem,
    post: PhysMem,
    v: int,
    len: int,
    user: bool,
    write: bool,
)
    requires
        pre.base == post.base,
        pre.bytes@.len() == post.bytes@.len(),
        pt.spec_access_ok(pre, v, len, user, write),
    ensures
        pt.spec_access_ok(post, v, len, user, write),
{
    assert forall|j: int| 0 <= j < len implies (#[trigger] pt.spec_query(v + j)) is Some
        && spec_perm_ok((pt.spec_query(v + j)->0).1, user, write) && post.spec_in_range(
        (pt.spec_query(v + j)->0).0,
        1,
    ) by {
        assert(pre.spec_in_range((pt.spec_query(v + j)->0).0, 1));
    }
}


/// One chunk write extends the partial write effect by the chunk.
#[verifier::spinoff_prover]
#[verifier::rlimit(100)]
proof fn lemma_scatter_step(
    pt: PageTableNative,
    orig: PhysMem,
    pre: PhysMem,
    post: PhysMem,
    v: int,
    data: Seq<u8>,
    done: int,
    clen: int,
    cpaddr: int,
    part: Seq<u8>,
)
    requires
        orig.wf(),
        pre.base == orig.base,
        pre.bytes@.len() == orig.bytes@.len(),
        post.base == pre.base,
        post.bytes@.len() == pre.bytes@.len(),
        0 <= done,
        0 < clen,
        done + clen <= data.len(),
        part.len() == clen,
        forall|x: int| 0 <= x < clen ==> part[x] == data[done + x],
        forall|d: int| 0 <= d < clen ==> #[trigger] pt.spec_pa(v, done + d) == cpaddr + d,
        orig.spec_in_range(cpaddr, clen),
        post.spec_range(cpaddr, clen) == part,
        forall|k: int|
            0 <= k < pre.bytes@.len() && !(cpaddr - pre.base@ <= k < cpaddr - pre.base@ + clen)
                ==> #[trigger] post.bytes@[k] == pre.bytes@[k],
        forall|j: int| 0 <= j < data.len() ==> orig.spec_in_range(#[trigger] pt.spec_pa(v, j), 1),
        spec_scatter_inv(pt, orig, pre, v, data, done),
    ensures
        spec_scatter_inv(pt, orig, post, v, data, done + clen),
{
    reveal(spec_scatter_inv);
    let base = post.base@;
    assert forall|j: int|
        0 <= j < done + clen && (forall|j2: int|
            j < j2 < done + clen ==> pt.spec_pa(v, j2) != pt.spec_pa(v, j)) implies post.spec_byte(
        #[trigger] pt.spec_pa(v, j),
    ) == data[j] by {
        if j >= done {
            let x = j - done;
            assert(pt.spec_pa(v, done + x) == cpaddr + x);
            assert(pt.spec_pa(v, j) == cpaddr + x);
            assert(post.spec_range(cpaddr, clen)[x] == part[x]);
            assert(post.spec_byte(cpaddr + x) == part[x]);
        } else {
            let p = pt.spec_pa(v, j);
            assert(pre.spec_byte(p) == data[j]);
            assert forall|x: int| 0 <= x < clen implies #[trigger] (cpaddr + x) != p by {
                assert(pt.spec_pa(v, done + x) == cpaddr + x);
            }
            assert(post.spec_byte(p) == pre.spec_byte(p)) by {
                assert(orig.spec_in_range(pt.spec_pa(v, j), 1));
                let kk = p - base;
                if cpaddr - base <= kk < cpaddr - base + clen {
                    let x = p - cpaddr;
                    assert(cpaddr + x == p);
                    assert(false);
                }
            }
        }
    }
    assert forall|k: int|
        0 <= k < orig.bytes@.len() && (forall|j: int|
            0 <= j < done + clen ==> pt.spec_pa(v, j) != orig.base@ + k) implies
    #[trigger] post.bytes@[k] == orig.bytes@[k] by {
        assert(pre.bytes@[k] == orig.bytes@[k]);
        if cpaddr - base <= k < cpaddr - base + clen {
            let x = k - (cpaddr - base);
            assert(pt.spec_pa(v, done + x) == cpaddr + x);
            assert(cpaddr + x == orig.base@ + k);
            assert(false);
        }
    }
}

impl PageTableNative {
    /// Maps `[vaddr, vaddr + len)` of another address space into a fresh
    /// window of this table's own virtual space, read-only, and returns the
    /// kernel-virtual address where the mirrored bytes begin.
    pub fn map_cross(
        &mut self,
        alloc: &mut FrameAllocator,
        mem: &PhysMem,
        source: &PageTableNative,
        vaddr: VirtAddr,
        len: usize,
    ) -> (r: Result<VirtAddr, MMUError>)
        requires
            old(self).wf(),
            old(alloc).wf(),
            old(self).frames_owned_by(*old(alloc)),
            source.wf(),
            mem.wf(),
            vaddr@ + len + PAGE_SIZE <= usize::MAX,
        ensures
            (final(self)).wf(),
            (final(alloc)).wf(),
            (final(alloc)).bottom == old(alloc).bottom,
            (final(alloc)).top == old(alloc).top,
            (final(self)).frames_owned_by(*final(alloc)),
            (final(self)).root == old(self).root,
            (final(self)).owned == old(self).owned,
            r is Ok ==> r->Ok_0@ == old(self).cross_mappings.spec_next() + vaddr@ % (
            PAGE_SIZE as int),
            r is Ok ==> source.spec_access_ok(*mem, vaddr@, len as int, true, false),
            r is Ok ==> forall|j: int|
                0 <= j < len ==> source.spec_query(vaddr@ + j) is Some && #[trigger] (final(self)).spec_query(
                    r->Ok_0@ + j,
                ) == Some(
                    (
                        source.spec_pa(vaddr@, j),
                        (GenericMappingFlags {
                            readable: true,
                            writable: false,
                            executable: false,
                            user: false,
                            kernel: true,
                            device: false,
                            uncached: false,
                        }),
                        PageSize::_4K,
                    ),
                ),
            r is Err ==> forall|w: int|
                #[trigger] (final(self)).spec_query(w) == old(self).spec_query(w),
            spec_cross_feasible(*old(self), *old(alloc), *source, *mem, vaddr@, len as int, false)
                ==> r is Ok,
    {
        let flags = GenericMappingFlags {
            readable: true,
            writable: false,
            executable: false,
            user: false,
            kernel: true,
            device: false,
            uncached: false,
        };
        self.map_cross_internal(alloc, mem, source, vaddr, len, false, flags)
    }

    /// Maps `[vaddr, vaddr + len)` of another address space into a fresh
    /// writable window of this table's own virtual space.
    pub fn map_cross_mut(
        &mut self,
        alloc: &mut FrameAllocator,
        mem: &PhysMem,
        source: &PageTableNative,
        vaddr: VirtAddr,
        len: usize,
    ) -> (r: Result<VirtAddr, MMUError>)
        requires
            old(self).wf(),
            old(alloc).wf(),
            old(self).frames_owned_by(*old(alloc)),
            source.wf(),
            mem.wf(),
            vaddr@ + len + PAGE_SIZE <= usize::MAX,
        ensures
            (final(self)).wf(),
            (final(alloc)).wf(),
            (final(alloc)).bottom == old(alloc).bottom,
            (final(alloc)).top == old(alloc).top,
            (final(self)).frames_owned_by(*final(alloc)),
            (final(self)).root == old(self).root,
            (final(self)).owned == old(self).owned,
            r is Ok ==> r->Ok_0@ == old(self).cross_mappings.spec_next() + vaddr@ % (
            PAGE_SIZE as int),
            r is Ok ==> source.spec_access_ok(*mem, vaddr@, len as int, true, true),
            r is Ok ==> forall|j: int|
                0 <= j < len ==> source.spec_query(vaddr@ + j) is Some && #[trigger] (final(self)).spec_query(
                    r->Ok_0@ + j,
                ) == Some(
                    (
                        source.spec_pa(vaddr@, j),
                        (GenericMappingFlags {
                            readable: true,
                            writable: true,
                            executable: false,
                            user: false,
                            kernel: true,
                            device: false,
                            uncached: false,
                        }),
                        PageSize::_4K,
                    ),
                ),
            r is Err ==> forall|w: int|
                #[trigger] (final(self)).spec_query(w) == old(self).spec_query(w),
            spec_cross_feasible(*old(self), *old(alloc), *source, *mem, vaddr@, len as int, true)
                ==> r is Ok,
    {
        let flags = GenericMappingFlags {
            readable: true,
            writable: true,
            executable: false,
            user: false,
            kernel: true,
            device: false,
            uncached: false,
        };
        self.map_cross_internal(alloc, mem, source, vaddr, len, true, flags)
    }

    /// Maps one 4 KiB page of the source space into one window page.
    #[verifier::spinoff_prover]
    #[verifier::rlimit(100)]
    fn map_one_window_page(
        &mut self,
        alloc: &mut FrameAllocator,
        source: &PageTableNative,
        wpage: VirtAddr,
        src_page: VirtAddr,
        flags: GenericMappingFlags,
    ) -> (r: Result<PhysAddr, MMUError>)
        requires
            old(self).wf(),
            old(alloc).wf(),
            old(self).frames_owned_by(*old(alloc)),
            old(self).owned,
            source.wf(),
            spec_is_aligned(wpage@, PAGE_SIZE as int),
            spec_is_aligned(src_page@, PAGE_SIZE as int),
        ensures
            (final(self)).wf(),
            (final(alloc)).wf(),
            (final(alloc)).bottom == old(alloc).bottom,
            (final(alloc)).top == old(alloc).top,
            forall|a: int| old(alloc).taken().contains(a) ==> (final(alloc)).taken().contains(a),
            (final(alloc)).spec_available() >= old(alloc).spec_available() - 2,
            (final(self)).frames_owned_by(*final(alloc)),
            (final(self)).root == old(self).root,
            (final(self)).owned,
            (final(self)).cross_mappings == old(self).cross_mappings,
            r is Ok ==> {
                &&& source.spec_query(src_page@) is Some
                &&& r->Ok_0@ == (source.spec_query(src_page@)->0).0
                &&& spec_mapped_4k(*old(self), *final(self), wpage@, r->Ok_0@, flags)
                &&& (forall|w: int|
                    same_path(wpage@, w, 1) ==> #[trigger] old(self).spec_query(w) is None)
                &&& (forall|w: int|
                    !same_path(wpage@, w, 1) ==> #[trigger] spec_mappable_4k(*final(self), w)
                        == spec_mappable_4k(*old(self), w))
            },
            r is Err ==> forall|w: int|
                #[trigger] (final(self)).spec_query(w) == old(self).spec_query(w),
            r is Err ==> forall|w: int|
                #[trigger] spec_mappable_4k(*final(self), w) == spec_mappable_4k(*old(self), w),
            (source.spec_query(src_page@) is Some && spec_mappable_4k(*old(self), wpage@) && old(
                alloc,
            ).spec_available() >= 2) ==> r is Ok,
    {
        proof {
            reveal(spec_mapped_4k);
        }
        let queried = source.query_virtual(src_page);
        let spa = match queried {
            Ok(q) => q.0,
            Err(_) => {
                return Err(MMUError::InvalidAddress);
            },
        };
        proof {
            // The source page's physical address is page aligned: the leaf
            // target is, and so is the page offset within a larger leaf.
            lemma_query_offset_shape(*source, src_page@);
            lemma_lookup_entry_in_some_node(*source, src_page@);
            let (pte, qsz) = source.spec_entry_lookup(src_page@)->0;
            let ls = spec_level_size(spec_lookup_level(qsz));
            vstd::arithmetic::div_mod::lemma_mod_multiples_basic((pte.bits as int) / 1024, 4096);
            lemma_rem_keeps_alignment(src_page@, ls, PAGE_SIZE as int);
            vstd::arithmetic::div_mod::lemma_add_mod_noop(
                pte.spec_paddr(),
                src_page@ % ls,
                PAGE_SIZE as int,
            );
            vstd::arithmetic::div_mod::lemma_small_mod(0nat, PAGE_SIZE as nat);
            assert(spec_is_aligned(spa@, PAGE_SIZE as int));
        }
        let mapped = self.map_single(alloc, wpage, spa, PageSize::_4K, flags);
        match mapped {
            Ok(_) => Ok(spa),
            Err(_) => Err(MMUError::CanNotModify),
        }
    }

    /// Installs the window page at index `k` and carries the install facts
    /// one step: the mirrored prefix grows by a page, untouched addresses
    /// keep their old values, and the caller's remaining room shrinks by one
    /// page's worth.
    #[verifier::spinoff_prover]
    #[verifier::rlimit(100)]
    fn install_step(
        &mut self,
        alloc: &mut FrameAllocator,
        source: &PageTableNative,
        window: VirtAddr,
        start: VirtAddr,
        k: usize,
        pages: usize,
        flags: GenericMappingFlags,
        Ghost(old0): Ghost<PageTableNative>,
        Ghost(old0_alloc): Ghost<FrameAllocator>,
    ) -> (r: Result<(), MMUError>)
        requires
            old(self).wf(),
            old(self).owned,
            old(alloc).wf(),
            old(self).frames_owned_by(*old(alloc)),
            source.wf(),
            k < pages,
            spec_is_aligned(window@, PAGE_SIZE as int),
            spec_is_aligned(start@, PAGE_SIZE as int),
            window@ + pages * PAGE_SIZE <= 0x80_0000_0000,
            window@ + pages * PAGE_SIZE <= usize::MAX,
            start@ + pages * PAGE_SIZE <= usize::MAX,
            spec_cross_inv(*old(self), *source, window@, start@, k * (PAGE_SIZE as int), flags),
            spec_install_book(old0, *old(self), window@, k as int),
            spec_install_hyp(old0, old0_alloc, *source, window@, start@, pages as int)
                ==> spec_install_room(
                *old(self),
                *old(alloc),
                *source,
                window@,
                start@,
                k as int,
                pages as int,
            ),
        ensures
            (final(self)).wf(),
            (final(self)).owned,
            (final(self)).root == old(self).root,
            (final(self)).cross_mappings == old(self).cross_mappings,
            (final(alloc)).wf(),
            (final(alloc)).bottom == old(alloc).bottom,
            (final(alloc)).top == old(alloc).top,
            forall|a: int| old(alloc).taken().contains(a) ==> (final(alloc)).taken().contains(a),
            (final(self)).frames_owned_by(*final(alloc)),
            r is Ok ==> spec_cross_inv(
                *final(self),
                *source,
                window@,
                start@,
                (k + 1) * (PAGE_SIZE as int),
                flags,
            ),
            r is Ok ==> spec_install_book(old0, *final(self), window@, k + 1),
            r is Ok ==> (spec_install_hyp(old0, old0_alloc, *source, window@, start@, pages as int)
                ==> spec_install_room(
                *final(self),
                *final(alloc),
                *source,
                window@,
                start@,
                k + 1,
                pages as int,
            )),
            r is Err ==> forall|w: int|
                #[trigger] (final(self)).spec_query(w) == old(self).spec_query(w),
            r is Err ==> !spec_install_hyp(old0, old0_alloc, *source, window@, start@, pages as int),
    {
        proof {
            lemma_page_index_bounds(window@, k as int, pages as int);
            lemma_page_index_bounds(start@, k as int, pages as int);
        }
        let wpage = VirtAddr { addr: window.addr + k * PAGE_SIZE };
        let src_page = VirtAddr { addr: start.addr + k * PAGE_SIZE };
        let ghost before = *self;
        let ghost before_alloc = *alloc;
        proof {
            lemma_install_room_take_cond(
                old0,
                old0_alloc,
                *self,
                *alloc,
                *source,
                window@,
                start@,
                k as int,
                pages as int,
            );
            assert(wpage@ == page_at(window@, k as int));
            assert(src_page@ == page_at(start@, k as int));
        }
        let mapped = self.map_one_window_page(alloc, source, wpage, src_page, flags);
        match mapped {
            Ok(spa) => {
                proof {
                    lemma_install_advance(
                        old0,
                        old0_alloc,
                        before,
                        *self,
                        before_alloc,
                        *alloc,
                        *source,
                        window@,
                        start@,
                        k as int,
                        pages as int,
                        wpage@,
                        spa@,
                        flags,
                    );
                }
                Ok(())
            },
            Err(e) => {
                // Under the caller's guarantee the helper was handed a fresh
                // slot, a resolvable source page and allocator room, so it
                // cannot have failed.
                Err(e)
            },
        }
    }

    /// Installs `pages` window pages, mirroring the source pages behind
    /// `start` one by one. On any failure every page installed so far is
    /// unmapped again, so the translations are exactly as before the call.
    #[verifier::rlimit(100)]
    fn install_window_pages(
        &mut self,
        alloc: &mut FrameAllocator,
        source: &PageTableNative,
        window: VirtAddr,
        start: VirtAddr,
        pages: usize,
        flags: GenericMappingFlags,
    ) -> (r: Result<(), MMUError>)
        requires
            old(self).wf(),
            old(self).owned,
            old(alloc).wf(),
            old(self).frames_owned_by(*old(alloc)),
            source.wf(),
            spec_is_aligned(window@, PAGE_SIZE as int),
            spec_is_aligned(start@, PAGE_SIZE as int),
            window@ + pages * PAGE_SIZE <= 0x80_0000_0000,
            window@ + pages * PAGE_SIZE <= usize::MAX,
            start@ + pages * PAGE_SIZE <= usize::MAX,
        ensures
            (final(self)).wf(),
            (final(self)).owned,
            (final(self)).root == old(self).root,
            (final(self)).cross_mappings == old(self).cross_mappings,
            (final(alloc)).wf(),
            (final(alloc)).bottom == old(alloc).bottom,
            (final(alloc)).top == old(alloc).top,
            forall|a: int| old(alloc).taken().contains(a) ==> (final(alloc)).taken().contains(a),
            (final(self)).frames_owned_by(*final(alloc)),
            r is Ok ==> spec_cross_inv(
                *final(self),
                *source,
                window@,
                start@,
                pages * (PAGE_SIZE as int),
                flags,
            ),
            r is Err ==> forall|w: int|
                #[trigger] (final(self)).spec_query(w) == old(self).spec_query(w),
            spec_install_hyp(*old(self), *old(alloc), *source, window@, start@, pages as int)
                ==> r is Ok,
    {
        let ghost hyp = spec_install_hyp(
            *old(self),
            *old(alloc),
            *source,
            window@,
            start@,
            pages as int,
        );
        proof {
            lemma_cross_init(*self, *source, window@, start@, flags);
            lemma_install_book_init(*self, window@);
            if hyp {
                reveal(spec_install_hyp);
                lemma_install_room_init(*self, *alloc, *source, window@, start@, pages as int);
            }
        }
        let mut k: usize = 0;
        #[verifier::spinoff_prover]
        #[verifier::rlimit(100)]
        while k < pages
            invariant
                self.wf(),
                self.owned,
                alloc.wf(),
                self.frames_owned_by(*alloc),
                source.wf(),
                alloc.bottom == old(alloc).bottom,
                alloc.top == old(alloc).top,
                forall|a: int|
                    old(alloc).taken().contains(a) ==> #[trigger] alloc.taken().contains(a),
                self.root == old(self).root,
                self.cross_mappings == old(self).cross_mappings,
                k <= pages,
                spec_is_aligned(window@, PAGE_SIZE as int),
                spec_is_aligned(start@, PAGE_SIZE as int),
                window@ + pages * PAGE_SIZE <= 0x80_0000_0000,
                window@ + pages * PAGE_SIZE <= usize::MAX,
                start@ + pages * PAGE_SIZE <= usize::MAX,
                hyp == spec_install_hyp(
                    *old(self),
                    *old(alloc),
                    *source,
                    window@,
                    start@,
                    pages as int,
                ),
                spec_cross_inv(*self, *source, window@, start@, k * (PAGE_SIZE as int), flags),
                spec_install_book(*old(self), *self, window@, k as int),
                hyp ==> spec_install_room(
                    *self,
                    *alloc,
                    *source,
                    window@,
                    start@,
                    k as int,
                    pages as int,
                ),
            decreases pages - k,
        {
            let ghost before = *self;
            let stepped = self.install_step(
                alloc,
                source,
                window,
                start,
                k,
                pages,
                flags,
                Ghost(*old(self)),
                Ghost(*old(alloc)),
            );
            match stepped {
                Ok(_) => {},
                Err(e) => {
                    // Unwind: clear every page installed so far, leaving the
                    // translations exactly as they were.
                    proof {
                        lemma_install_err_entry(
                            *old(self),
                            before,
                            *self,
                            *source,
                            window@,
                            start@,
                            k as int,
                            pages as int,
                            flags,
                        );
                    }
                    let mut c: usize = 0;
                    #[verifier::spinoff_prover]
                    #[verifier::rlimit(100)]
                    while c < k
                        invariant
                            self.wf(),
                            self.owned,
                            self.root == old(self).root,
                            self.cross_mappings == old(self).cross_mappings,
                            self.frames_owned_by(*alloc),
                            c <= k,
                            k <= pages,
                            spec_is_aligned(window@, PAGE_SIZE as int),
                            window@ + pages * PAGE_SIZE <= 0x80_0000_0000,
                            window@ + pages * PAGE_SIZE <= usize::MAX,
                            spec_uninstall_book(*old(self), *self, window@, c as int, k as int),
                        decreases k - c,
                    {
                        proof {
                            assert(c * PAGE_SIZE >= 0) by (nonlinear_arith)
                                requires
                                    c >= 0,
                            ;
                            assert(c * PAGE_SIZE + PAGE_SIZE <= pages * PAGE_SIZE)
                                by (nonlinear_arith)
                                requires
                                    c + 1 <= pages,
                            ;
                            vstd::arithmetic::div_mod::lemma_mod_multiples_vanish(
                                c as int,
                                window@,
                                PAGE_SIZE as int,
                            );
                            assert((PAGE_SIZE as int) * (c as int) == (c as int) * (
                            PAGE_SIZE as int)) by (nonlinear_arith);
                        }
                        let cpage = VirtAddr { addr: window.addr + c * PAGE_SIZE };
                        let ghost before_un = *self;
                        proof {
                            lemma_uninstall_take(
                                *old(self),
                                *self,
                                window@,
                                c as int,
                                k as int,
                            );
                            assert(cpage@ == page_at(window@, c as int));
                        }
                        let _ = self.unmap_single(cpage);
                        proof {
                            assert(before_un.spec_entry_lookup(cpage@) is Some);
                            assert((before_un.spec_entry_lookup(cpage@)->0).1 == PageSize::_4K);
                            assert(spec_level_of(PageSize::_4K) == 1);
                            lemma_uninstall_step(
                                *old(self),
                                before_un,
                                *self,
                                window@,
                                c as int,
                                k as int,
                                pages as int,
                                cpage@,
                            );
                            assert forall|i2: int|
                                0 <= i2 < self.nodes@.len() implies #[trigger] alloc.taken().contains(
                                self.nodes@[i2].paddr@,
                            ) by {
                                assert(self.nodes@[i2].paddr == before_un.nodes@[i2].paddr);
                                assert(alloc.taken().contains(before_un.nodes@[i2].paddr@));
                            }
                        }
                        c = c + 1;
                    }
                    proof {
                        lemma_uninstall_finish(*old(self), *self, window@, k as int);
                    }
                    return Err(e);
                },
            }
            k = k + 1;
        }
        Ok(())
    }

    /// Checks that the whole source range is accessible with the given
    /// permissions, keeping only the verdict.
    fn check_cross_source(
        &self,
        mem: &PhysMem,
        vaddr: VirtAddr,
        len: usize,
        mutable: bool,
    ) -> (r: Result<(), MMUError>)
        requires
            self.wf(),
            mem.wf(),
            vaddr@ + len <= usize::MAX,
        ensures
            r is Ok <==> self.spec_access_ok(*mem, vaddr@, len as int, true, mutable),
    {
        match self.collect_chunks(mem, vaddr, len, true, mutable) {
            Ok(_) => Ok(()),
            Err(e) => Err(e),
        }
    }

    /// The shared walk of the cross mappers: checks the source pages, carves
    /// a window after the last one, and maps the source's physical pages into
    /// it page by page.
    #[verifier::rlimit(100)]
    fn map_cross_internal(
        &mut self,
        alloc: &mut FrameAllocator,
        mem: &PhysMem,
        source: &PageTableNative,
        vaddr: VirtAddr,
        len: usize,
        mutable: bool,
        flags: GenericMappingFlags,
    ) -> (r: Result<VirtAddr, MMUError>)
        requires
            old(self).wf(),
            old(alloc).wf(),
            old(self).frames_owned_by(*old(alloc)),
            source.wf(),
            mem.wf(),
            vaddr@ + len + PAGE_SIZE <= usize::MAX,
            flags.kernel && flags.readable && !flags.user && flags.writable == mutable
                && !flags.executable && !flags.device && !flags.uncached,
        ensures
            (final(self)).wf(),
            (final(alloc)).wf(),
            (final(alloc)).bottom == old(alloc).bottom,
            (final(alloc)).top == old(alloc).top,
            (final(self)).frames_owned_by(*final(alloc)),
            (final(self)).root == old(self).root,
            (final(self)).owned == old(self).owned,
            r is Ok ==> r->Ok_0@ == old(self).cross_mappings.spec_next() + vaddr@ % (
            PAGE_SIZE as int),
            r is Ok ==> source.spec_access_ok(*mem, vaddr@, len as int, true, mutable),
            r is Ok ==> forall|j: int|
                0 <= j < len ==> source.spec_query(vaddr@ + j) is Some && #[trigger] (final(self)).spec_query(r->Ok_0@ + j) == Some(
                    (source.spec_pa(vaddr@, j), flags, PageSize::_4K),
                ),
            r is Err ==> forall|w: int|
                #[trigger] (final(self)).spec_query(w) == old(self).spec_query(w),
            spec_cross_feasible(*old(self), *old(alloc), *source, *mem, vaddr@, len as int, mutable)
                ==> r is Ok,
    {
        if !self.owned {
            proof {
                if spec_cross_feasible(*old(self), *old(alloc), *source, *mem, vaddr@, len as int, mutable) {
                    reveal(spec_cross_feasible);
                    assert(false);
                }
            }
            return Err(MMUError::CanNotModify);
        }
        // Validate the source range and its permissions up front.
        match source.check_cross_source(mem, vaddr, len, mutable) {
            Ok(_) => {},
            Err(e) => {
                proof {
                    if spec_cross_feasible(*old(self), *old(alloc), *source, *mem, vaddr@, len as int, mutable) {
                        reveal(spec_cross_feasible);
                        assert(source.spec_access_ok(*mem, vaddr@, len as int, true, mutable));
                        assert(false);
                    }
                }
                return Err(e);
            },
        }
        let start = vaddr.align_down(PAGE_SIZE);
        proof {
            crate::align::lemma_align_down(vaddr@, PAGE_SIZE as int);
            crate::align::lemma_align_up(vaddr@ + len, PAGE_SIZE as int);
        }
        let end_addr = vaddr.add_offset(len).align_up(PAGE_SIZE);
        let span = end_addr.as_usize() - start.as_usize();
        let pages = span / PAGE_SIZE;
        proof {
            crate::frame_allocator::lemma_aligned_diff_div_exact(start@, end_addr@);
        }
        let next = self.cross_mappings.next_addr();
        proof {
            vstd::arithmetic::div_mod::lemma_mod_division_less_than_divisor(
                vaddr@,
                PAGE_SIZE as int,
            );
        }
        if (span as u64) > crate::constants::CROSS_WINDOW_LIMIT || (next as u64)
            > crate::constants::CROSS_WINDOW_LIMIT - (span as u64) {
            proof {
                if spec_cross_feasible(*old(self), *old(alloc), *source, *mem, vaddr@, len as int, mutable) {
                    reveal(spec_cross_feasible);
                    assert(false);
                }
            }
            return Err(MMUError::CanNotModify);
        }
        if next > usize::MAX - span {
            proof {
                if spec_cross_feasible(*old(self), *old(alloc), *source, *mem, vaddr@, len as int, mutable) {
                    reveal(spec_cross_feasible);
                    assert(false);
                }
            }
            return Err(MMUError::CanNotModify);
        }
        let ghost pre_cross = self.cross_mappings;
        let window = self.cross_mappings.alloc_window(span, mutable);
        proof {
            assert(spec_is_aligned(window@, PAGE_SIZE as int) && span % PAGE_SIZE == 0) by {
                reveal(spec_windows_page_aligned);
                lemma_next_window_aligned(pre_cross);
            }
            assert(spec_windows_page_aligned(self.cross_mappings)) by {
                reveal(spec_windows_page_aligned);
                assert forall|i: int|
                    0 <= i < self.cross_mappings.windows@.len() implies spec_is_aligned(
                    (#[trigger] self.cross_mappings.windows@[i]).vaddr@,
                    PAGE_SIZE as int,
                ) && self.cross_mappings.windows@[i].size % PAGE_SIZE == 0 by {
                    if i < pre_cross.windows@.len() {
                        assert(self.cross_mappings.windows@[i] == pre_cross.windows@[i]);
                    }
                }
            }
            assert(self.wf());
        }
        let ghost mid = *self;
        proof {
            assert(start@ + span <= usize::MAX);
            assert(spec_is_aligned(start@, PAGE_SIZE as int)) by {
                vstd::arithmetic::div_mod::lemma_mod_multiples_vanish(-1, vaddr@, PAGE_SIZE as int);
                vstd::arithmetic::div_mod::lemma_mod_twice(vaddr@, PAGE_SIZE as int);
            }
            assert(mid.nodes@ == old(self).nodes@);
            lemma_query_same_nodes(mid, *old(self));
        }
        let installed = self.install_window_pages(alloc, source, window, start, pages, flags);
        match installed {
            Ok(_) => {},
            Err(e) => {
                proof {
                    if spec_cross_feasible(*old(self), *old(alloc), *source, *mem, vaddr@, len as int, mutable) {
                        reveal(spec_cross_feasible);
                        assert(window@ == old(self).cross_mappings.spec_next());
                        assert(start@ == vaddr@ - vaddr@ % (PAGE_SIZE as int));
                        assert(end_addr@ == crate::align::spec_align_up(
                            vaddr@ + len,
                            PAGE_SIZE as int,
                        ));
                        assert(span == end_addr@ - start@);
                        assert(spec_install_hyp(
                            mid,
                            *old(alloc),
                            *source,
                            window@,
                            start@,
                            pages as int,
                        )) by {
                            reveal(spec_cross_feasible);
                            reveal(spec_install_hyp);
                            let span0 = crate::align::spec_align_up(
                                vaddr@ + len,
                                PAGE_SIZE as int,
                            ) - (vaddr@ - vaddr@ % (PAGE_SIZE as int));
                            let pages0 = span0 / (PAGE_SIZE as int);
                            let next0 = old(self).cross_mappings.spec_next();
                            assert(span0 == span);
                            assert(pages0 == pages as int);
                            assert(window@ == next0);
                            assert(old(alloc).spec_available() >= 2 * pages0);
                            assert forall|kk: int|
                                0 <= kk < pages implies spec_mappable_4k(
                                mid,
                                #[trigger] page_at(window@, kk),
                            ) && source.spec_query(page_at(start@, kk)) is Some by {
                                assert(page_at(window@, kk) == page_at(next0, kk));
                                assert(spec_mappable_4k(*old(self), page_at(next0, kk))
                                    && source.spec_query(page_at(start@, kk)) is Some);
                                assert(spec_mappable_4k(mid, page_at(window@, kk))
                                    == spec_mappable_4k(*old(self), page_at(window@, kk)));
                            }
                        }
                        assert(false);
                    }
                }
                let ghost post_install = *self;
                let ghost c_pre = self.cross_mappings;
                let removed = self.cross_mappings.remove(VirtAddr { addr: window.addr });
                proof {
                    lemma_windows_aligned_after_remove(c_pre, self.cross_mappings);
                    assert(self.nodes@ == post_install.nodes@);
                    lemma_query_same_nodes(*self, post_install);
                }
                return Err(e);
            },
        }
        let r = VirtAddr { addr: window.addr + (vaddr.addr - start.addr) };
        proof {
            assert(vaddr@ - start@ == vaddr@ % (PAGE_SIZE as int));
            assert(vaddr@ + len <= start@ + pages * (PAGE_SIZE as int));
            lemma_cross_window_bytes(
                *self,
                *source,
                window@,
                start@,
                vaddr@,
                len as int,
                pages as int,
                flags,
                r@,
            );
        }
        Ok(r)
    }

    /// Tears down the cross-space window covering `vaddr`: removes its
    /// accounting and unmaps every page it spans, so each of those pages
    /// translates to nothing afterwards. Without a covering window, or on a
    /// borrowed table, nothing changes.
    #[verifier::spinoff_prover]
    #[verifier::rlimit(100)]
    pub fn unmap_cross(&mut self, _source: &PageTableNative, vaddr: VirtAddr)
        requires
            old(self).wf(),
        ensures
            (final(self)).wf(),
            (final(self)).root == old(self).root,
            (final(self)).owned == old(self).owned,
            (final(self)).frames == old(self).frames,
            (final(self)).nodes@.len() == old(self).nodes@.len(),
            forall|i: int|
                0 <= i < old(self).nodes@.len() ==> ((final(self)).nodes@[i]).paddr == old(self).nodes@[i].paddr,
            !old(self).owned ==> *final(self) == *old(self),
            old(self).owned && (forall|i: int|
                0 <= i < old(self).cross_mappings.windows@.len() ==> !(#[trigger] old(self).cross_mappings.windows@[i]).spec_contains(
                    vaddr@,
                )) ==> *final(self) == *old(self),
            old(self).owned && (exists|i: int|
                0 <= i < old(self).cross_mappings.windows@.len() && (#[trigger] old(self).cross_mappings.windows@[i]).spec_contains(
                    vaddr@,
                )) ==> (exists|i: int|
                0 <= i < old(self).cross_mappings.windows@.len() && (#[trigger] old(self).cross_mappings.windows@[i]).spec_contains(
                    vaddr@,
                ) && (final(self)).cross_mappings.windows@ == old(self).cross_mappings.windows@.remove(
                    i,
                ) && (forall|j: int|
                    0 <= j < (old(self).cross_mappings.windows@[i].size as int) / (PAGE_SIZE as int)
                        ==> (final(self)).spec_query(
                        #[trigger] page_at(old(self).cross_mappings.windows@[i].vaddr@, j),
                    ) is None)),
    {
        if !self.owned {
            return ;
        }
        let ghost pre_cross = self.cross_mappings;
        let removed = self.cross_mappings.remove(vaddr);
        proof {
            lemma_windows_aligned_after_remove(pre_cross, self.cross_mappings);
        }
        match removed {
            None => {
                proof {
                    assert(*self == *old(self));
                }
            },
            Some(window) => {
                let ghost i0 = choose|i: int|
                    0 <= i < pre_cross.windows@.len() && (#[trigger] pre_cross.windows@[i])
                        == window && pre_cross.windows@[i].spec_contains(vaddr@)
                        && self.cross_mappings.windows@ == pre_cross.windows@.remove(i);
                let ghost cross_after = self.cross_mappings;
                let page_count = window.size / PAGE_SIZE;
                let mut k: usize = 0;
                proof {
                    assert(window.vaddr@ + window.size <= usize::MAX);
                    vstd::arithmetic::div_mod::lemma_div_pos_is_pos(
                        window.size as int,
                        PAGE_SIZE as int,
                    );
                    vstd::arithmetic::div_mod::lemma_fundamental_div_mod(
                        window.size as int,
                        PAGE_SIZE as int,
                    );
                    vstd::arithmetic::div_mod::lemma_mod_division_less_than_divisor(
                        window.size as int,
                        PAGE_SIZE as int,
                    );
                }
                while k < page_count
                    invariant
                        self.wf(),
                        self.owned,
                        self.root == old(self).root,
                        self.frames == old(self).frames,
                        self.cross_mappings == cross_after,
                        self.nodes@.len() == old(self).nodes@.len(),
                        forall|i: int|
                            0 <= i < old(self).nodes@.len() ==> ((#[trigger] self.nodes@[i])).paddr
                                == old(self).nodes@[i].paddr,
                        k <= page_count,
                        page_count * PAGE_SIZE <= window.size,
                        window.vaddr@ + window.size <= usize::MAX,
                        forall|j: int|
                            0 <= j < k ==> self.spec_query(
                                #[trigger] page_at(window.vaddr@, j),
                            ) is None,
                    decreases page_count - k,
                {
                    proof {
                        assert(k * PAGE_SIZE + PAGE_SIZE == (k + 1) * PAGE_SIZE)
                            by (nonlinear_arith);
                        assert((k + 1) * PAGE_SIZE <= page_count * PAGE_SIZE) by (nonlinear_arith)
                            requires
                                k + 1 <= page_count,
                        ;
                        assert(k * PAGE_SIZE >= 0) by (nonlinear_arith)
                            requires
                                k >= 0,
                        ;
                    }
                    let page = VirtAddr { addr: window.vaddr.addr + k * PAGE_SIZE };
                    let ghost before_un = *self;
                    let _ = self.unmap_single(page);
                    proof {
                        assert(page@ == page_at(window.vaddr@, k as int));
                        assert forall|j: int|
                            0 <= j < k + 1 implies self.spec_query(
                            #[trigger] page_at(window.vaddr@, j),
                        ) is None by {
                            let p = page_at(window.vaddr@, j);
                            if before_un.spec_entry_lookup(page@) is Some {
                                let lvl = spec_level_of(
                                    (before_un.spec_entry_lookup(page@)->0).1,
                                );
                                if j == k {
                                    assert(same_path(page@, p, lvl));
                                } else if !same_path(page@, p, lvl) {
                                    assert(self.spec_query(p) == before_un.spec_query(p));
                                }
                            } else {
                                assert(*self == before_un);
                                if j == k {
                                    assert(before_un.spec_query(page@) is None);
                                }
                            }
                        }
                    }
                    k = k + 1;
                }
                proof {
                    assert(0 <= i0 < pre_cross.windows@.len() && pre_cross.windows@[i0]
                        == window && pre_cross.windows@[i0].spec_contains(vaddr@)
                        && self.cross_mappings.windows@ == pre_cross.windows@.remove(i0));
                }
            },
        }
    }
}

/// The next window placement of a page-granular accounting is page aligned.
proof fn lemma_next_window_aligned(c: CrossMappingAllocator)
    requires
        c.wf(),
        spec_windows_page_aligned(c),
    ensures
        spec_is_aligned(c.spec_next(), PAGE_SIZE as int),
{
    reveal(spec_windows_page_aligned);
    if c.windows@.len() == 0 {
    } else {
        let last = c.windows@.last();
        assert(spec_is_aligned(last.vaddr@, PAGE_SIZE as int) && (last.size as int) % (
        PAGE_SIZE as int) == 0);
        vstd::arithmetic::div_mod::lemma_add_mod_noop(
            last.vaddr@,
            last.size as int,
            PAGE_SIZE as int,
        );
        vstd::arithmetic::div_mod::lemma_small_mod(0nat, PAGE_SIZE as nat);
    }
}

/// Removing a window keeps the accounting page granular.
proof fn lemma_windows_aligned_after_remove(pre: CrossMappingAllocator, post: CrossMappingAllocator)
    requires
        spec_windows_page_aligned(pre),
        post == pre || (post.base == pre.base && exists|i: int|
            0 <= i < pre.windows@.len() && post.windows@ == pre.windows@.remove(i)),
    ensures
        spec_windows_page_aligned(post),
{
    reveal(spec_windows_page_aligned);
    if post != pre {
        let i = choose|i: int|
            0 <= i < pre.windows@.len() && post.windows@ == pre.windows@.remove(i);
        assert forall|x: int|
            0 <= x < post.windows@.len() implies spec_is_aligned(
            (#[trigger] post.windows@[x]).vaddr@,
            PAGE_SIZE as int,
        ) && post.windows@[x].size % PAGE_SIZE == 0 by {
            if x < i {
                assert(post.windows@[x] == pre.windows@[x]);
            } else {
                assert(post.windows@[x] == pre.windows@[x + 1]);
            }
        }
    }
}


/// The running facts of a chunk write: every already-written byte without a
/// later alias within the written prefix holds its data, and arena bytes
/// outside the written image are unchanged.
#[verifier::opaque]
pub open spec fn spec_scatter_inv(
    pt: PageTableNative,
    orig: PhysMem,
    cur: PhysMem,
    v: int,
    data: Seq<u8>,
    done: int,
) -> bool {
    &&& (forall|j: int|
        0 <= j < done && (forall|j2: int|
            j < j2 < done ==> pt.spec_pa(v, j2) != pt.spec_pa(v, j)) ==> cur.spec_byte(
            #[trigger] pt.spec_pa(v, j),
        ) == data[j])
    &&& (forall|k: int|
        0 <= k < orig.bytes@.len() && (forall|j: int|
            0 <= j < done ==> pt.spec_pa(v, j) != orig.base@ + k) ==> #[trigger] cur.bytes@[k]
            == orig.bytes@[k])
}

/// Before anything is written the running facts hold trivially.
proof fn lemma_scatter_init(pt: PageTableNative, orig: PhysMem, v: int, data: Seq<u8>)
    ensures
        spec_scatter_inv(pt, orig, orig, v, data, 0),
{
    reveal(spec_scatter_inv);
}

/// A complete chunk write is the bulk write effect.
proof fn lemma_scatter_finish(
    pt: PageTableNative,
    orig: PhysMem,
    cur: PhysMem,
    v: int,
    data: Seq<u8>,
)
    requires
        spec_scatter_inv(pt, orig, cur, v, data, data.len() as int),
    ensures
        pt.spec_write_effect(orig, cur, v, data),
{
    reveal(spec_scatter_inv);
}


/// Appending one chunk's bytes extends the gathered prefix.
#[verifier::spinoff_prover]
#[verifier::rlimit(100)]
proof fn lemma_gather_step(
    pt: PageTableNative,
    mem: PhysMem,
    v: int,
    done: int,
    cpaddr: int,
    clen: int,
    oldbuf: Seq<u8>,
    newbuf: Seq<u8>,
)
    requires
        mem.wf(),
        done >= 0,
        clen > 0,
        oldbuf.len() == done,
        mem.spec_in_range(cpaddr, clen),
        newbuf == oldbuf + mem.spec_range(cpaddr, clen),
        forall|d: int|
            0 <= d < clen ==> (#[trigger] pt.spec_query(v + done + d)) is Some && (pt.spec_query(
                v + done + d,
            )->0).0 == cpaddr + d,
        forall|j: int|
            0 <= j < done ==> oldbuf[j] == mem.spec_byte(#[trigger] pt.spec_pa(v, j)),
    ensures
        newbuf.len() == done + clen,
        forall|j: int|
            0 <= j < done + clen ==> newbuf[j] == mem.spec_byte(#[trigger] pt.spec_pa(v, j)),
{
    assert forall|j: int|
        0 <= j < done + clen implies newbuf[j] == mem.spec_byte(#[trigger] pt.spec_pa(v, j)) by {
        if j < done {
            assert(newbuf[j] == oldbuf[j]);
        } else {
            let d = j - done;
            assert(pt.spec_query(v + done + d) is Some && (pt.spec_query(v + done + d)->0).0
                == cpaddr + d);
            assert(pt.spec_pa(v, j) == cpaddr + d);
            assert(0 <= d < clen);
            assert(mem.spec_range(cpaddr, clen).len() == clen);
            assert(newbuf[j] == (oldbuf + mem.spec_range(cpaddr, clen))[j]);
            assert(newbuf[j] == mem.spec_range(cpaddr, clen)[d]);
            assert(mem.spec_range(cpaddr, clen)[d] == mem.spec_byte(cpaddr + d));
        }
    }
}


/// What installing one 4 KiB leaf does to the translations: addresses on the
/// page's slot path answer with the target, all others are unchanged.
#[verifier::opaque]
pub open spec fn spec_mapped_4k(
    pre: PageTableNative,
    post: PageTableNative,
    wpage: int,
    spa: int,
    flags: GenericMappingFlags,
) -> bool {
    &&& (forall|w: int|
        same_path(wpage, w, 1) ==> #[trigger] post.spec_query(w) == Some(
            (spa + w % (PAGE_SIZE as int), flags, PageSize::_4K),
        ))
    &&& (forall|w: int|
        !same_path(wpage, w, 1) ==> #[trigger] post.spec_query(w) == pre.spec_query(w))
}


/// A page-aligned address below the three-level span is the weighted sum of
/// its three indices.
proof fn lemma_reconstruct_low(a: int)
    requires
        0 <= a < 0x80_0000_0000,
        spec_is_aligned(a, PAGE_SIZE as int),
    ensures
        a == p3_index(a) * (SIZE_1G as int) + p2_index(a) * (SIZE_2M as int) + p1_index(a) * (
        PAGE_SIZE as int),
{
    let g = SIZE_1G as int;
    let m = SIZE_2M as int;
    let p = PAGE_SIZE as int;
    vstd::arithmetic::div_mod::lemma_fundamental_div_mod(a, g);
    vstd::arithmetic::div_mod::lemma_breakdown(a, m, 512);
    assert(m * 512 == g);
    vstd::arithmetic::div_mod::lemma_breakdown(a, p, 512);
    assert(p * 512 == m);
    assert(a / g < 512) by {
        vstd::arithmetic::div_mod::lemma_multiply_divide_lt(a, 512, g);
        assert(512 * g == 0x80_0000_0000);
    }
    vstd::arithmetic::div_mod::lemma_div_pos_is_pos(a, g);
    vstd::arithmetic::div_mod::lemma_small_mod((a / g) as nat, 512);
    assert(p3_index(a) == a / g);
    assert(a % g == m * p2_index(a) + a % m);
    assert(a % m == p * p1_index(a) + a % p);
    assert(a % p == 0);
    assert(a == (a / g) * g + a % g) by (nonlinear_arith)
        requires
            a == g * (a / g) + a % g,
    ;
    assert(m * p2_index(a) == p2_index(a) * m) by (nonlinear_arith);
    assert(p * p1_index(a) == p1_index(a) * p) by (nonlinear_arith);
}

/// Distinct page-aligned addresses below the three-level span never share a
/// bottom-level slot path.
pub proof fn lemma_low_pages_distinct_paths(a: int, b: int)
    requires
        0 <= a < 0x80_0000_0000,
        0 <= b < 0x80_0000_0000,
        spec_is_aligned(a, PAGE_SIZE as int),
        spec_is_aligned(b, PAGE_SIZE as int),
        a != b,
    ensures
        !same_path(a, b, 1),
{
    if same_path(a, b, 1) {
        lemma_reconstruct_low(a);
        lemma_reconstruct_low(b);
        assert(false);
    }
}


/// The address of the `k`-th page after `base`.
pub open spec fn page_at(base: int, k: int) -> int {
    base + k * (PAGE_SIZE as int)
}

/// The remainder modulo a page-multiple stride keeps page alignment, and it
/// leaves at least a page of room below the stride.
proof fn lemma_rem_keeps_alignment(x: int, ls: int, p: int)
    requires
        x >= 0,
        p > 0,
        ls > 0,
        ls % p == 0,
        spec_is_aligned(x, p),
    ensures
        spec_is_aligned(x % ls, p),
        x % ls + p <= ls,
{
    vstd::arithmetic::div_mod::lemma_fundamental_div_mod(x, ls);
    vstd::arithmetic::div_mod::lemma_mod_division_less_than_divisor(x, ls);
    let r = x % ls;
    assert(spec_is_aligned(r, p)) by {
        vstd::arithmetic::div_mod::lemma_fundamental_div_mod(ls, p);
        assert(ls == p * (ls / p));
        let m = (ls / p) * (x / ls);
        assert(r == p * (-m) + x) by (nonlinear_arith)
            requires
                ls == p * (ls / p),
                x == ls * (x / ls) + r,
                m == (ls / p) * (x / ls),
        ;
        vstd::arithmetic::div_mod::lemma_mod_multiples_vanish(-m, x, p);
    }
    if r + p > ls {
        lemma_aligned_gap(r, ls, p);
        assert(false);
    }
}

/// An address keeps the slot path of the page it lies in.
proof fn lemma_same_page_same_path(pb: int, d: int, v: int, level: int)
    requires
        pb >= 0,
        spec_is_aligned(pb, PAGE_SIZE as int),
        0 <= d < PAGE_SIZE,
        1 <= level <= 3,
    ensures
        same_path(pb, pb + d, level),
{
    lemma_offset_same_path(pb, d, 1);
    vstd::arithmetic::div_mod::lemma_mod_multiples_basic(pb / (PAGE_SIZE as int), PAGE_SIZE as int);
}

/// Addresses sharing one bottom-level slot path walk to the same entry, so
/// one is mapped exactly when the other is.
proof fn lemma_same_path_same_lookup(pt: PageTableNative, a: int, b: int)
    requires
        pt.wf(),
        same_path(a, b, 1),
    ensures
        pt.spec_entry_lookup(a) == pt.spec_entry_lookup(b),
        pt.spec_query(a) is None <==> pt.spec_query(b) is None,
{
}

/// The running facts of a cross mapping: the first `upto` bytes of the
/// window mirror the source pages behind `start`.
#[verifier::opaque]
pub open spec fn spec_cross_inv(
    pt: PageTableNative,
    source: PageTableNative,
    window: int,
    start: int,
    upto: int,
    flags: GenericMappingFlags,
) -> bool {
    forall|x: int|
        0 <= x < upto ==> source.spec_query(start + x) is Some && #[trigger] pt.spec_query(
            window + x,
        ) == Some(((source.spec_query(start + x)->0).0, flags, PageSize::_4K))
}

/// Before any page is mapped the cross-window facts hold trivially.
proof fn lemma_cross_init(
    pt: PageTableNative,
    source: PageTableNative,
    window: int,
    start: int,
    flags: GenericMappingFlags,
)
    ensures
        spec_cross_inv(pt, source, window, start, 0, flags),
{
    reveal(spec_cross_inv);
}

/// Mapping one more window page extends the cross-window facts by one page
/// and disturbs none of the earlier pages.
#[verifier::spinoff_prover]
#[verifier::rlimit(100)]
proof fn lemma_cross_step(
    before: PageTableNative,
    after: PageTableNative,
    source: PageTableNative,
    window: int,
    start: int,
    k: int,
    pages: int,
    wpage: int,
    src_page: int,
    spa: int,
    flags: GenericMappingFlags,
)
    requires
        source.wf(),
        0 <= k < pages,
        0 <= window,
        0 <= start,
        window + pages * PAGE_SIZE <= 0x80_0000_0000,
        spec_is_aligned(window, PAGE_SIZE as int),
        wpage == window + k * PAGE_SIZE,
        src_page == start + k * PAGE_SIZE,
        spec_is_aligned(wpage, PAGE_SIZE as int),
        spec_is_aligned(src_page, PAGE_SIZE as int),
        source.spec_query(src_page) is Some,
        spa == (source.spec_query(src_page)->0).0,
        spec_mapped_4k(before, after, wpage, spa, flags),
        spec_cross_inv(before, source, window, start, k * PAGE_SIZE, flags),
    ensures
        spec_cross_inv(after, source, window, start, (k + 1) * PAGE_SIZE, flags),
{
    reveal(spec_cross_inv);
    reveal(spec_mapped_4k);
    assert(k * PAGE_SIZE + PAGE_SIZE == (k + 1) * PAGE_SIZE) by (nonlinear_arith);
    assert(k * PAGE_SIZE >= 0) by (nonlinear_arith)
        requires
            k >= 0,
    ;
    assert((k + 1) * PAGE_SIZE <= pages * PAGE_SIZE) by (nonlinear_arith)
        requires
            k + 1 <= pages,
    ;
    assert forall|x: int|
        0 <= x < (k + 1) * PAGE_SIZE implies source.spec_query(start + x) is Some
        && #[trigger] after.spec_query(window + x) == Some(
        ((source.spec_query(start + x)->0).0, flags, PageSize::_4K),
    ) by {
        if x < k * PAGE_SIZE {
            assert(source.spec_query(start + x) is Some && before.spec_query(window + x) == Some(
                ((source.spec_query(start + x)->0).0, flags, PageSize::_4K),
            ));
            let xb = x - (x % (PAGE_SIZE as int));
            vstd::arithmetic::div_mod::lemma_fundamental_div_mod(x, PAGE_SIZE as int);
            vstd::arithmetic::div_mod::lemma_mod_division_less_than_divisor(x, PAGE_SIZE as int);
            let wj = window + xb;
            assert(spec_is_aligned(wj, PAGE_SIZE as int)) by {
                vstd::arithmetic::div_mod::lemma_mod_multiples_basic(
                    x / (PAGE_SIZE as int),
                    PAGE_SIZE as int,
                );
                assert(xb == (x / (PAGE_SIZE as int)) * (PAGE_SIZE as int)) by (nonlinear_arith)
                    requires
                        x == (PAGE_SIZE as int) * (x / (PAGE_SIZE as int)) + x % (PAGE_SIZE as int),
                        xb == x - x % (PAGE_SIZE as int),
                ;
                vstd::arithmetic::div_mod::lemma_mod_multiples_vanish(
                    x / (PAGE_SIZE as int),
                    window,
                    PAGE_SIZE as int,
                );
                assert((PAGE_SIZE as int) * (x / (PAGE_SIZE as int)) == (x / (PAGE_SIZE as int)) * (
                PAGE_SIZE as int)) by (nonlinear_arith);
            }
            assert(wj != wpage);
            lemma_low_pages_distinct_paths(wpage, wj);
            lemma_same_page_same_path(wj, x % (PAGE_SIZE as int), window + x, 1);
            assert(same_path(wj, window + x, 1));
            assert(!same_path(wpage, window + x, 1)) by {
                if same_path(wpage, window + x, 1) {
                    assert(same_path(wpage, wj, 1));
                }
            }
            assert(after.spec_query(window + x) == before.spec_query(window + x));
        } else {
            let d = x - k * PAGE_SIZE;
            lemma_mapped_range_translates(wpage, d, 1);
            assert(same_path(wpage, wpage + d, 1));
            assert((wpage + d) % (PAGE_SIZE as int) == d);
            assert(after.spec_query(wpage + d) == Some((spa + d, flags, PageSize::_4K)));
            assert(window + x == wpage + d);
            lemma_query_offset_shape(source, src_page);
            let (qpa, qfl, qsz) = source.spec_query(src_page)->0;
            let lvl = spec_level_of(qsz);
            let ls = spec_level_size(lvl);
            lemma_rem_keeps_alignment(src_page, ls, PAGE_SIZE as int);
            lemma_offset_same_path(src_page, d, lvl);
            assert(source.spec_query(src_page + d) is Some);
            assert((source.spec_query(src_page + d)->0).0 == qpa + d) by {
                lemma_lookup_entry_in_some_node(source, src_page);
                assert(source.spec_entry_lookup(src_page + d) == source.spec_entry_lookup(
                    src_page,
                ));
            }
            assert(start + x == src_page + d);
        }
    }
}


/// Whether a cross mapping is certain to succeed: the table is owned, the
/// source range is accessible, the window region fits, every window page can
/// take a fresh mapping, every source page resolves, and the allocator
/// covers up to two table frames per page.
#[verifier::opaque]
pub open spec fn spec_cross_feasible(
    pt: PageTableNative,
    alloc: FrameAllocator,
    source: PageTableNative,
    mem: PhysMem,
    vaddr: int,
    len: int,
    mutable: bool,
) -> bool {
    let start0 = vaddr - vaddr % (PAGE_SIZE as int);
    let span0 = crate::align::spec_align_up(vaddr + len, PAGE_SIZE as int) - start0;
    let pages0 = span0 / (PAGE_SIZE as int);
    let next0 = pt.cross_mappings.spec_next();
    &&& pt.owned
    &&& source.spec_access_ok(mem, vaddr, len, true, mutable)
    &&& span0 <= crate::constants::CROSS_WINDOW_LIMIT
    &&& next0 <= crate::constants::CROSS_WINDOW_LIMIT - span0
    &&& next0 + span0 <= usize::MAX
    &&& alloc.spec_available() >= 2 * pages0
    &&& forall|k: int|
        0 <= k < pages0 ==> spec_mappable_4k(pt, #[trigger] page_at(next0, k))
            && source.spec_query(page_at(start0, k)) is Some
}

/// Two distinct pages of one window share no bottom-level slot path.
proof fn lemma_window_pages_distinct(window: int, a: int, b: int, pages: int)
    requires
        0 <= window,
        spec_is_aligned(window, PAGE_SIZE as int),
        0 <= a < pages,
        0 <= b < pages,
        a != b,
        window + pages * PAGE_SIZE <= 0x80_0000_0000,
    ensures
        !same_path(page_at(window, a), page_at(window, b), 1),
        !same_path(page_at(window, b), page_at(window, a), 1),
{
    let pa = page_at(window, a);
    let pb = page_at(window, b);
    assert(spec_is_aligned(pa, PAGE_SIZE as int) && spec_is_aligned(pb, PAGE_SIZE as int)) by {
        vstd::arithmetic::div_mod::lemma_mod_multiples_vanish(a, window, PAGE_SIZE as int);
        vstd::arithmetic::div_mod::lemma_mod_multiples_vanish(b, window, PAGE_SIZE as int);
        assert((PAGE_SIZE as int) * a == a * (PAGE_SIZE as int)) by (nonlinear_arith);
        assert((PAGE_SIZE as int) * b == b * (PAGE_SIZE as int)) by (nonlinear_arith);
    }
    assert(pa != pb) by {
        assert(pa - pb == (a - b) * (PAGE_SIZE as int)) by (nonlinear_arith)
            requires
                pa == window + a * (PAGE_SIZE as int),
                pb == window + b * (PAGE_SIZE as int),
        ;
        assert((a - b) * (PAGE_SIZE as int) != 0) by (nonlinear_arith)
            requires
                a != b,
        ;
    }
    assert(0 <= pa < 0x80_0000_0000 && 0 <= pb < 0x80_0000_0000) by {
        assert(a * (PAGE_SIZE as int) < pages * (PAGE_SIZE as int)) by (nonlinear_arith)
            requires
                a < pages,
        ;
        assert(b * (PAGE_SIZE as int) < pages * (PAGE_SIZE as int)) by (nonlinear_arith)
            requires
                b < pages,
        ;
        assert(a * (PAGE_SIZE as int) >= 0 && b * (PAGE_SIZE as int) >= 0) by (nonlinear_arith)
            requires
                a >= 0,
                b >= 0,
        ;
    }
    lemma_low_pages_distinct_paths(pa, pb);
    lemma_low_pages_distinct_paths(pb, pa);
}

/// Installing one more window page keeps the running install facts: earlier
/// untouched addresses still read their old values, and every covered
/// address was unmapped at the start.
#[verifier::spinoff_prover]
#[verifier::rlimit(100)]
proof fn lemma_install_step_bookkeeping(
    old0: PageTableNative,
    before: PageTableNative,
    after: PageTableNative,
    window: int,
    k: int,
    pages: int,
    wpage: int,
)
    requires
        0 <= k < pages,
        0 <= window,
        spec_is_aligned(window, PAGE_SIZE as int),
        window + pages * PAGE_SIZE <= 0x80_0000_0000,
        wpage == page_at(window, k),
        forall|w: int|
            !same_path(wpage, w, 1) ==> #[trigger] after.spec_query(w) == before.spec_query(w),
        forall|w: int| same_path(wpage, w, 1) ==> #[trigger] before.spec_query(w) is None,
        spec_install_book(old0, before, window, k),
    ensures
        spec_install_book(old0, after, window, k + 1),
{
    reveal(spec_install_book);
    assert forall|w: int|
        (forall|j: int| 0 <= j < k + 1 ==> !same_path(#[trigger] page_at(window, j), w, 1))
            implies #[trigger] after.spec_query(w) == old0.spec_query(w) by {
        assert(!same_path(page_at(window, k), w, 1));
        assert(after.spec_query(w) == before.spec_query(w));
        assert(before.spec_query(w) == old0.spec_query(w));
    }
    assert forall|j: int, w: int|
        0 <= j < k + 1 && #[trigger] same_path(page_at(window, j), w, 1) implies old0.spec_query(
        w,
    ) is None by {
        if j == k {
            assert(before.spec_query(w) is None);
            assert forall|j2: int|
                0 <= j2 < k implies !same_path(#[trigger] page_at(window, j2), w, 1) by {
                if same_path(page_at(window, j2), w, 1) {
                    assert(same_path(page_at(window, j2), wpage, 1));
                    lemma_window_pages_distinct(window, j2, k, pages);
                }
            }
            assert(before.spec_query(w) == old0.spec_query(w));
        }
    }
}

/// Clearing one installed window page during an unwind keeps the running
/// unwind facts: addresses away from the still-installed pages read their
/// original values, and the remaining pages stay installed.
#[verifier::spinoff_prover]
#[verifier::rlimit(100)]
proof fn lemma_uninstall_step(
    old0: PageTableNative,
    before: PageTableNative,
    after: PageTableNative,
    window: int,
    c: int,
    k: int,
    pages: int,
    cpage: int,
)
    requires
        0 <= c < k <= pages,
        0 <= window,
        spec_is_aligned(window, PAGE_SIZE as int),
        window + pages * PAGE_SIZE <= 0x80_0000_0000,
        cpage == page_at(window, c),
        forall|w: int| same_path(cpage, w, 1) ==> #[trigger] after.spec_query(w) is None,
        forall|w: int|
            !same_path(cpage, w, 1) ==> #[trigger] after.spec_query(w) == before.spec_query(w),
        spec_uninstall_book(old0, before, window, c, k),
    ensures
        spec_uninstall_book(old0, after, window, c + 1, k),
{
    reveal(spec_uninstall_book);
    assert forall|w: int|
        (forall|j: int| c + 1 <= j < k ==> !same_path(#[trigger] page_at(window, j), w, 1))
            implies #[trigger] after.spec_query(w) == old0.spec_query(w) by {
        if same_path(cpage, w, 1) {
            assert(after.spec_query(w) is None);
            assert(same_path(page_at(window, c), w, 1));
            assert(old0.spec_query(w) is None);
        } else {
            assert(after.spec_query(w) == before.spec_query(w));
            assert forall|j: int|
                c <= j < k implies !same_path(#[trigger] page_at(window, j), w, 1) by {}
            assert(before.spec_query(w) == old0.spec_query(w));
        }
    }
    assert forall|j: int|
        c + 1 <= j < k implies (#[trigger] after.spec_query(page_at(window, j))) is Some && (
    after.spec_query(page_at(window, j))->0).2 == PageSize::_4K by {
        lemma_window_pages_distinct(window, c, j, pages);
        assert(!same_path(cpage, page_at(window, j), 1));
        assert(after.spec_query(page_at(window, j)) == before.spec_query(page_at(window, j)));
    }
}


/// Running facts of the window install loop: addresses away from the pages
/// installed so far still read their old values, and every address covered
/// by an installed page answered nothing at the start.
#[verifier::opaque]
pub open spec fn spec_install_book(
    old0: PageTableNative,
    cur: PageTableNative,
    window: int,
    k: int,
) -> bool {
    &&& (forall|w: int|
        (forall|j: int| 0 <= j < k ==> !same_path(#[trigger] page_at(window, j), w, 1))
            ==> #[trigger] cur.spec_query(w) == old0.spec_query(w))
    &&& (forall|j: int, w: int|
        0 <= j < k && #[trigger] same_path(page_at(window, j), w, 1) ==> old0.spec_query(w)
            is None)
}

/// Before any page is installed the install facts hold trivially.
proof fn lemma_install_book_init(old0: PageTableNative, window: int)
    ensures
        spec_install_book(old0, old0, window, 0),
{
    reveal(spec_install_book);
}

/// The guarantee under which an install must succeed: two frames of
/// allocator headroom per page, a fresh slot under every window page, and a
/// resolvable source page behind each.
#[verifier::opaque]
pub open spec fn spec_install_hyp(
    pt: PageTableNative,
    alloc: FrameAllocator,
    source: PageTableNative,
    window: int,
    start: int,
    pages: int,
) -> bool {
    alloc.spec_available() >= 2 * pages && (forall|k: int|
        0 <= k < pages ==> spec_mappable_4k(pt, #[trigger] page_at(window, k))
            && source.spec_query(page_at(start, k)) is Some)
}

/// What remains of the caller's room after `k` pages are installed: two
/// frames of allocator headroom per remaining page, and a fresh slot and a
/// resolvable source page for each of them.
#[verifier::opaque]
pub open spec fn spec_install_room(
    pt: PageTableNative,
    alloc: FrameAllocator,
    source: PageTableNative,
    window: int,
    start: int,
    k: int,
    pages: int,
) -> bool {
    &&& alloc.spec_available() >= 2 * (pages - k)
    &&& (forall|j: int|
        k <= j < pages ==> spec_mappable_4k(pt, #[trigger] page_at(window, j))
            && source.spec_query(page_at(start, j)) is Some)
}

/// A caller with room for every page has room before the first.
proof fn lemma_install_room_init(
    pt: PageTableNative,
    alloc: FrameAllocator,
    source: PageTableNative,
    window: int,
    start: int,
    pages: int,
)
    requires
        alloc.spec_available() >= 2 * pages,
        forall|k: int|
            0 <= k < pages ==> spec_mappable_4k(pt, #[trigger] page_at(window, k))
                && source.spec_query(page_at(start, k)) is Some,
    ensures
        spec_install_room(pt, alloc, source, window, start, 0, pages),
{
    reveal(spec_install_room);
}

/// Under the caller's guarantee, room for the remaining pages yields the
/// facts the next install needs.
proof fn lemma_install_room_take_cond(
    old0: PageTableNative,
    old0_alloc: FrameAllocator,
    pt: PageTableNative,
    alloc: FrameAllocator,
    source: PageTableNative,
    window: int,
    start: int,
    k: int,
    pages: int,
)
    requires
        0 <= k < pages,
        spec_install_hyp(old0, old0_alloc, source, window, start, pages) ==> spec_install_room(
            pt,
            alloc,
            source,
            window,
            start,
            k,
            pages,
        ),
    ensures
        spec_install_hyp(old0, old0_alloc, source, window, start, pages) ==> (spec_mappable_4k(
            pt,
            page_at(window, k),
        ) && source.spec_query(page_at(start, k)) is Some && alloc.spec_available() >= 2),
{
    if spec_install_hyp(old0, old0_alloc, source, window, start, pages) {
        lemma_install_room_take(pt, alloc, source, window, start, k, pages);
    }
}

/// Room for the remaining pages yields the facts the next install needs.
proof fn lemma_install_room_take(
    pt: PageTableNative,
    alloc: FrameAllocator,
    source: PageTableNative,
    window: int,
    start: int,
    k: int,
    pages: int,
)
    requires
        spec_install_room(pt, alloc, source, window, start, k, pages),
        0 <= k < pages,
    ensures
        spec_mappable_4k(pt, page_at(window, k)),
        source.spec_query(page_at(start, k)) is Some,
        alloc.spec_available() >= 2,
{
    reveal(spec_install_room);
    assert(2 * (pages - k) >= 2) by (nonlinear_arith)
        requires
            k < pages,
    ;
}

/// Under the caller's guarantee, one successful install keeps room for the
/// pages after it.
#[verifier::spinoff_prover]
#[verifier::rlimit(100)]
proof fn lemma_install_room_step_cond(
    old0: PageTableNative,
    old0_alloc: FrameAllocator,
    before: PageTableNative,
    after: PageTableNative,
    before_alloc: FrameAllocator,
    after_alloc: FrameAllocator,
    source: PageTableNative,
    window: int,
    start: int,
    k: int,
    pages: int,
    wpage: int,
)
    requires
        0 <= k < pages,
        0 <= window,
        spec_is_aligned(window, PAGE_SIZE as int),
        window + pages * PAGE_SIZE <= 0x80_0000_0000,
        wpage == page_at(window, k),
        after_alloc.spec_available() >= before_alloc.spec_available() - 2,
        forall|w: int|
            !same_path(wpage, w, 1) ==> #[trigger] spec_mappable_4k(after, w) == spec_mappable_4k(
                before,
                w,
            ),
        spec_install_hyp(old0, old0_alloc, source, window, start, pages) ==> spec_install_room(
            before,
            before_alloc,
            source,
            window,
            start,
            k,
            pages,
        ),
    ensures
        spec_install_hyp(old0, old0_alloc, source, window, start, pages) ==> spec_install_room(
            after,
            after_alloc,
            source,
            window,
            start,
            k + 1,
            pages,
        ),
{
    if spec_install_hyp(old0, old0_alloc, source, window, start, pages) {
        lemma_install_room_step(
            before,
            after,
            before_alloc,
            after_alloc,
            source,
            window,
            start,
            k,
            pages,
            wpage,
        );
    }
}

/// One successful install keeps room for the pages after it.
#[verifier::spinoff_prover]
#[verifier::rlimit(100)]
proof fn lemma_install_room_step(
    before: PageTableNative,
    after: PageTableNative,
    before_alloc: FrameAllocator,
    after_alloc: FrameAllocator,
    source: PageTableNative,
    window: int,
    start: int,
    k: int,
    pages: int,
    wpage: int,
)
    requires
        0 <= k < pages,
        0 <= window,
        spec_is_aligned(window, PAGE_SIZE as int),
        window + pages * PAGE_SIZE <= 0x80_0000_0000,
        wpage == page_at(window, k),
        after_alloc.spec_available() >= before_alloc.spec_available() - 2,
        forall|w: int|
            !same_path(wpage, w, 1) ==> #[trigger] spec_mappable_4k(after, w) == spec_mappable_4k(
                before,
                w,
            ),
        spec_install_room(before, before_alloc, source, window, start, k, pages),
    ensures
        spec_install_room(after, after_alloc, source, window, start, k + 1, pages),
{
    reveal(spec_install_room);
    assert(after_alloc.spec_available() >= 2 * (pages - (k + 1))) by (nonlinear_arith)
        requires
            after_alloc.spec_available() >= before_alloc.spec_available() - 2,
            before_alloc.spec_available() >= 2 * (pages - k),
    ;
    assert forall|j: int|
        k + 1 <= j < pages implies spec_mappable_4k(after, #[trigger] page_at(window, j))
            && source.spec_query(page_at(start, j)) is Some by {
        lemma_window_pages_distinct(window, k, j, pages);
        assert(spec_mappable_4k(before, page_at(window, j)));
    }
}

/// Running facts of the unwind loop: every covered address answered nothing
/// at the start, addresses away from the still-installed pages already read
/// their original values, and the still-installed pages answer with small
/// leaves that the unwind can clear.
#[verifier::opaque]
pub open spec fn spec_uninstall_book(
    old0: PageTableNative,
    cur: PageTableNative,
    window: int,
    c: int,
    k: int,
) -> bool {
    &&& (forall|j: int, w: int|
        0 <= j < k && #[trigger] same_path(page_at(window, j), w, 1) ==> old0.spec_query(w)
            is None)
    &&& (forall|w: int|
        (forall|j: int| c <= j < k ==> !same_path(#[trigger] page_at(window, j), w, 1))
            ==> #[trigger] cur.spec_query(w) == old0.spec_query(w))
    &&& (forall|j: int|
        c <= j < k ==> (#[trigger] cur.spec_query(page_at(window, j))) is Some && (cur.spec_query(
            page_at(window, j),
        )->0).2 == PageSize::_4K)
}

/// When an install fails after `k` pages, the unwind facts hold of the state
/// it leaves behind.
#[verifier::spinoff_prover]
#[verifier::rlimit(100)]
proof fn lemma_install_err_entry(
    old0: PageTableNative,
    before: PageTableNative,
    cur: PageTableNative,
    source: PageTableNative,
    window: int,
    start: int,
    k: int,
    pages: int,
    flags: GenericMappingFlags,
)
    requires
        0 <= k <= pages,
        0 <= window,
        spec_is_aligned(window, PAGE_SIZE as int),
        window + pages * PAGE_SIZE <= 0x80_0000_0000,
        forall|w: int| #[trigger] cur.spec_query(w) == before.spec_query(w),
        spec_install_book(old0, before, window, k),
        spec_cross_inv(before, source, window, start, k * (PAGE_SIZE as int), flags),
    ensures
        spec_uninstall_book(old0, cur, window, 0, k),
{
    reveal(spec_install_book);
    reveal(spec_uninstall_book);
    reveal(spec_cross_inv);
    assert forall|w: int|
        (forall|j: int| 0 <= j < k ==> !same_path(#[trigger] page_at(window, j), w, 1))
            implies #[trigger] cur.spec_query(w) == old0.spec_query(w) by {
        assert(cur.spec_query(w) == before.spec_query(w));
        assert(before.spec_query(w) == old0.spec_query(w));
    }
    assert forall|j: int|
        0 <= j < k implies (#[trigger] cur.spec_query(page_at(window, j))) is Some && (
    cur.spec_query(page_at(window, j))->0).2 == PageSize::_4K by {
        let x = j * (PAGE_SIZE as int);
        assert(0 <= x < k * (PAGE_SIZE as int)) by (nonlinear_arith)
            requires
                0 <= j < k,
                x == j * (PAGE_SIZE as int),
        ;
        assert(page_at(window, j) == window + x);
        assert(before.spec_query(window + x) == Some(
            ((source.spec_query(start + x)->0).0, flags, PageSize::_4K),
        ));
        assert(cur.spec_query(page_at(window, j)) == before.spec_query(window + x));
    }
}

/// The unwind facts yield what the next unmap needs of its page.
proof fn lemma_uninstall_take(
    old0: PageTableNative,
    cur: PageTableNative,
    window: int,
    c: int,
    k: int,
)
    requires
        spec_uninstall_book(old0, cur, window, c, k),
        0 <= c < k,
    ensures
        (cur.spec_query(page_at(window, c))) is Some,
        (cur.spec_query(page_at(window, c))->0).2 == PageSize::_4K,
{
    reveal(spec_uninstall_book);
}

/// A finished unwind has restored every translation.
proof fn lemma_uninstall_finish(old0: PageTableNative, cur: PageTableNative, window: int, k: int)
    requires
        spec_uninstall_book(old0, cur, window, k, k),
    ensures
        forall|w: int| #[trigger] cur.spec_query(w) == old0.spec_query(w),
{
    reveal(spec_uninstall_book);
    assert forall|w: int| #[trigger] cur.spec_query(w) == old0.spec_query(w) by {
        assert forall|j: int| k <= j < k implies !same_path(#[trigger] page_at(window, j), w, 1) by {}
    }
}


/// Tables with the same nodes answer every query alike and offer the same
/// fresh slots: both notions read only the node array.
proof fn lemma_query_same_nodes(a: PageTableNative, b: PageTableNative)
    requires
        a.nodes@ == b.nodes@,
    ensures
        forall|w: int| #[trigger] a.spec_query(w) == b.spec_query(w),
        forall|w: int| #[trigger] spec_mappable_4k(a, w) == spec_mappable_4k(b, w),
{
    assert forall|w: int| #[trigger] a.spec_query(w) == b.spec_query(w) by {}
    assert forall|w: int| #[trigger] spec_mappable_4k(a, w) == spec_mappable_4k(b, w) by {}
}

/// Once every window page mirrors its source page, each byte of the request
/// reads through the window at the same offset.
#[verifier::spinoff_prover]
proof fn lemma_cross_window_bytes(
    pt: PageTableNative,
    source: PageTableNative,
    window: int,
    start: int,
    vaddr: int,
    len: int,
    pages: int,
    flags: GenericMappingFlags,
    rv: int,
)
    requires
        spec_cross_inv(pt, source, window, start, pages * (PAGE_SIZE as int), flags),
        vaddr >= 0,
        len >= 0,
        start == vaddr - vaddr % (PAGE_SIZE as int),
        rv == window + vaddr % (PAGE_SIZE as int),
        vaddr + len <= start + pages * (PAGE_SIZE as int),
    ensures
        forall|j: int|
            0 <= j < len ==> source.spec_query(vaddr + j) is Some && #[trigger] pt.spec_query(
                rv + j,
            ) == Some((source.spec_pa(vaddr, j), flags, PageSize::_4K)),
{
    reveal(spec_cross_inv);
    assert forall|j: int|
        0 <= j < len implies source.spec_query(vaddr + j) is Some && #[trigger] pt.spec_query(
        rv + j,
    ) == Some((source.spec_pa(vaddr, j), flags, PageSize::_4K)) by {
        let x = vaddr % (PAGE_SIZE as int) + j;
        vstd::arithmetic::div_mod::lemma_mod_division_less_than_divisor(vaddr, PAGE_SIZE as int);
        assert(0 <= x < pages * (PAGE_SIZE as int));
        assert(source.spec_query(start + x) is Some && pt.spec_query(window + x) == Some(
            ((source.spec_query(start + x)->0).0, flags, PageSize::_4K),
        ));
        assert(start + x == vaddr + j);
        assert(window + x == rv + j);
    }
}


/// Bounds and alignment facts for the page at index `k` of an aligned base.
proof fn lemma_page_index_bounds(base: int, k: int, pages: int)
    requires
        0 <= base,
        spec_is_aligned(base, PAGE_SIZE as int),
        0 <= k < pages,
        base + pages * PAGE_SIZE <= usize::MAX,
    ensures
        0 <= k * PAGE_SIZE,
        k * PAGE_SIZE + PAGE_SIZE == (k + 1) * PAGE_SIZE,
        (k + 1) * PAGE_SIZE <= pages * PAGE_SIZE,
        base + k * PAGE_SIZE + PAGE_SIZE <= usize::MAX,
        spec_is_aligned(base + k * (PAGE_SIZE as int), PAGE_SIZE as int),
        base + k * (PAGE_SIZE as int) == page_at(base, k),
{
    assert(k * PAGE_SIZE >= 0) by (nonlinear_arith)
        requires
            k >= 0,
    ;
    assert(k * PAGE_SIZE + PAGE_SIZE == (k + 1) * PAGE_SIZE) by (nonlinear_arith);
    assert((k + 1) * PAGE_SIZE <= pages * PAGE_SIZE) by (nonlinear_arith)
        requires
            k + 1 <= pages,
    ;
    vstd::arithmetic::div_mod::lemma_mod_multiples_vanish(k, base, PAGE_SIZE as int);
    assert((PAGE_SIZE as int) * k == k * (PAGE_SIZE as int)) by (nonlinear_arith);
}


/// One successful page install advances all three running install facts at
/// once: the mirrored prefix, the bookkeeping of untouched addresses, and
/// the caller's remaining room.
#[verifier::spinoff_prover]
#[verifier::rlimit(100)]
proof fn lemma_install_advance(
    old0: PageTableNative,
    old0_alloc: FrameAllocator,
    before: PageTableNative,
    after: PageTableNative,
    before_alloc: FrameAllocator,
    after_alloc: FrameAllocator,
    source: PageTableNative,
    window: int,
    start: int,
    k: int,
    pages: int,
    wpage: int,
    spa: int,
    flags: GenericMappingFlags,
)
    requires
        source.wf(),
        0 <= k < pages,
        0 <= window,
        0 <= start,
        spec_is_aligned(window, PAGE_SIZE as int),
        spec_is_aligned(start, PAGE_SIZE as int),
        window + pages * PAGE_SIZE <= 0x80_0000_0000,
        wpage == window + k * PAGE_SIZE,
        spec_is_aligned(wpage, PAGE_SIZE as int),
        spec_is_aligned(start + k * (PAGE_SIZE as int), PAGE_SIZE as int),
        source.spec_query(start + k * (PAGE_SIZE as int)) is Some,
        spa == (source.spec_query(start + k * (PAGE_SIZE as int))->0).0,
        spec_mapped_4k(before, after, wpage, spa, flags),
        forall|w: int| same_path(wpage, w, 1) ==> #[trigger] before.spec_query(w) is None,
        forall|w: int|
            !same_path(wpage, w, 1) ==> #[trigger] spec_mappable_4k(after, w) == spec_mappable_4k(
                before,
                w,
            ),
        after_alloc.spec_available() >= before_alloc.spec_available() - 2,
        spec_cross_inv(before, source, window, start, k * PAGE_SIZE, flags),
        spec_install_book(old0, before, window, k),
        spec_install_hyp(old0, old0_alloc, source, window, start, pages) ==> spec_install_room(
            before,
            before_alloc,
            source,
            window,
            start,
            k,
            pages,
        ),
    ensures
        spec_cross_inv(after, source, window, start, (k + 1) * PAGE_SIZE, flags),
        spec_install_book(old0, after, window, k + 1),
        spec_install_hyp(old0, old0_alloc, source, window, start, pages) ==> spec_install_room(
            after,
            after_alloc,
            source,
            window,
            start,
            k + 1,
            pages,
        ),
{
    lemma_cross_step(
        before,
        after,
        source,
        window,
        start,
        k,
        pages,
        wpage,
        start + k * (PAGE_SIZE as int),
        spa,
        flags,
    );
    assert(wpage == page_at(window, k));
    assert forall|w: int|
        !same_path(wpage, w, 1) implies #[trigger] after.spec_query(w) == before.spec_query(w) by {
        reveal(spec_mapped_4k);
    }
    lemma_install_step_bookkeeping(old0, before, after, window, k, pages, wpage);
    lemma_install_room_step_cond(
        old0,
        old0_alloc,
        before,
        after,
        before_alloc,
        after_alloc,
        source,
        window,
        start,
        k,
        pages,
        wpage,
    );
}

} // verus!
