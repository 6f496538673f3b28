//! Mapping areas: the per-region building blocks of a memory space.

use vstd::prelude::*;

use crate::constants::PAGE_SIZE;
use crate::flags::GenericMappingFlags;
use crate::frame::FrameDesc;
use crate::virt_page::VirtPage;
use crate::virt_page_range::VirtPageRange;

verus! {

/// The role a mapping area plays in a process image.
#[derive(Clone, Copy, PartialEq, Eq, Structural, Debug)]
pub enum AreaType {
    UserElf,
    UserStack,
    UserStackGuardBase,
    UserStackGuardTop,
    UserBrk,
    /// A general anonymous mapping.
    VMA,
    SignalTrampoline,
}

/// How an area is backed: one private physical frame per virtual page, or a
/// linear window (reserved for future use).
#[derive(Clone, Copy, PartialEq, Eq, Structural, Debug)]
pub enum MapType {
    Framed,
    Linear,
}

/// The physical backing of an area: for each virtual page of its range, in
/// order, the frame that backs it.
pub struct MappingAreaAllocation {
    pub frames: Vec<(VirtPage, FrameDesc)>,
}

impl MappingAreaAllocation {
    /// An allocation holding no frames yet.
    pub fn empty() -> (r: Self)
        ensures
            r.frames@.len() == 0,
    {
        MappingAreaAllocation { frames: Vec::new() }
    }
}

/// One contiguous region of a memory space: a virtual page span, its role,
/// its backing discipline, its permissions, and (once populated) the frames
/// that back it.
pub struct MappingArea {
    pub range: VirtPageRange,
    pub area_type: AreaType,
    pub map_type: MapType,
    pub permissions: GenericMappingFlags,
    pub allocation: Option<MappingAreaAllocation>,
}

impl MappingArea {
    /// The virtual page span of the area.
    pub fn range(&self) -> (r: VirtPageRange)
        ensures
            r == self.range,
    {
        self.range
    }

    /// The permission set of the area.
    pub fn permissions(&self) -> (r: GenericMappingFlags)
        ensures
            r == self.permissions,
    {
        self.permissions
    }

    /// The role of the area.
    pub fn map_type(&self) -> (r: AreaType)
        ensures
            r == self.area_type,
    {
        self.area_type
    }

    /// Creates a new area.
    pub fn new(
        range: VirtPageRange,
        area_type: AreaType,
        map_type: MapType,
        permissions: GenericMappingFlags,
        allocation: Option<MappingAreaAllocation>,
    ) -> (r: Self)
        ensures
            r.range == range,
            r.area_type == area_type,
            r.map_type == map_type,
            r.permissions == permissions,
            r.allocation is Some <==> allocation is Some,
            allocation is Some ==> r.allocation->0.frames@ == allocation->0.frames@,
    {
        MappingArea { range, area_type, map_type, permissions, allocation }
    }

    /// A copy of the area's layout with an empty backing, for transfer into
    /// another memory space.
    pub fn clone_from(area: &MappingArea) -> (r: Self)
        ensures
            r.range == area.range,
            r.area_type == area.area_type,
            r.map_type == area.map_type,
            r.permissions == area.permissions,
            r.allocation is None,
    {
        MappingArea {
            range: area.range,
            area_type: area.area_type,
            map_type: area.map_type,
            permissions: area.permissions,
            allocation: None,
        }
    }

    /// Whether the area's span contains the page.
    pub fn contains(&self, vpn: VirtPage) -> (r: bool)
        requires
            self.range.wf(),
            self.range.start.size == vpn.size,
        ensures
            r == self.range.spec_contains_addr(vpn.addr@),
    {
        self.range.contains(vpn)
    }

    /// Shape of a well-formed area: a 4 KiB page span with an aligned start,
    /// whose backing (when present) holds exactly one frame per page, in
    /// page order.
    pub open spec fn area_ok(self) -> bool {
        &&& self.range.start.size == PAGE_SIZE
        &&& self.range.wf()
        &&& crate::align::spec_is_aligned(self.range.start.addr@, PAGE_SIZE as int)
        &&& self.allocation is Some ==> {
            &&& self.allocation->0.frames@.len() == self.range.page_count
            &&& forall|k: int|
                0 <= k < self.allocation->0.frames@.len()
                    ==> (#[trigger] self.allocation->0.frames@[k]).0.addr@
                    == self.range.start.addr@ + k * PAGE_SIZE
                    && self.allocation->0.frames@[k].0.size == PAGE_SIZE
                    && crate::align::spec_is_aligned(
                    self.allocation->0.frames@[k].1.paddr@,
                    PAGE_SIZE as int,
                )
        }
    }
}

} // verus!
