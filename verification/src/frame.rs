//! Frame descriptors: linear handles to allocated physical frames.

use vstd::prelude::*;

use crate::phys_addr::PhysAddr;
use crate::phys_page_range::PhysPageRange;

verus! {

/// A handle to one allocated 4 KiB physical frame.
///
/// Frame descriptors are linear resources: they are not `Copy` and not
/// `Clone`, so each one has exactly one owner at any time. Every descriptor
/// must eventually be passed back to its allocator's `dealloc`, or given away
/// with [`FrameDesc::consume`] when ownership transfers outside the
/// allocator's accounting.
#[derive(Debug)]
pub struct FrameDesc {
    pub paddr: PhysAddr,
}

impl FrameDesc {
    /// Creates a new frame descriptor.
    ///
    /// The caller asserts that the frame is allocated and takes over the
    /// responsibility of deallocating it.
    pub fn new(addr: PhysAddr) -> (r: Self)
        ensures
            r.paddr == addr,
    {
        FrameDesc { paddr: addr }
    }

    /// The address of the described frame.
    pub fn paddr(&self) -> (r: PhysAddr)
        ensures
            r == self.paddr,
    {
        self.paddr
    }

    /// Gives the frame away without returning it to an allocator; the escape
    /// hatch for ownership transfers.
    pub fn consume(self) {
    }
}

/// A handle to a contiguous run of allocated 4 KiB physical frames.
///
/// Like [`FrameDesc`], a linear resource whose owner must pass it back to the
/// allocator's `dealloc_range`.
#[derive(Debug)]
pub struct FrameRangeDesc {
    pub range: PhysPageRange,
}

impl FrameRangeDesc {
    /// Creates a new frame range descriptor.
    ///
    /// The caller asserts that the frames are allocated and takes over the
    /// responsibility of deallocating them.
    pub fn new(range: PhysPageRange) -> (r: Self)
        ensures
            r.range == range,
    {
        FrameRangeDesc { range }
    }

    /// The described page range.
    pub fn range(&self) -> (r: PhysPageRange)
        ensures
            r == self.range,
    {
        self.range
    }

    /// Gives the frames away without returning them to an allocator.
    pub fn consume(self) {
    }
}

} // verus!
