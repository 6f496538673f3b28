use vmcore::constants::PAGE_SIZE;
use vmcore::flags::GenericMappingFlags;
use vmcore::frame_allocator::FrameAllocator;
use vmcore::mapping::{AreaType, MapType, MappingArea};
use vmcore::memory_space::MemorySpace;
use vmcore::mmu::{MMUError, PageSize, PagingError};
use vmcore::page_table::PageTableNative;
use vmcore::phys_addr::PhysAddr;
use vmcore::phys_mem::PhysMem;
use vmcore::virt_addr::VirtAddr;
use vmcore::virt_page::VirtPage;
use vmcore::virt_page_range::VirtPageRange;

const BOTTOM: usize = 0x8000_0000;
const TOP: usize = 0x8010_0000;

fn setup() -> (PhysMem, FrameAllocator, PageTableNative) {
    let mem = PhysMem::new(PhysAddr::new(BOTTOM), TOP - BOTTOM);
    let mut alloc = FrameAllocator::new(PhysAddr::new(TOP), PhysAddr::new(BOTTOM));
    let pt = PageTableNative::alloc_root(&mut alloc);
    (mem, alloc, pt)
}

fn user_rw() -> GenericMappingFlags {
    GenericMappingFlags::user()
        .union(GenericMappingFlags::readable())
        .union(GenericMappingFlags::writable())
}

fn user_ro() -> GenericMappingFlags {
    GenericMappingFlags::user().union(GenericMappingFlags::readable())
}

#[test]
fn allocator_trailing_coalesce_resets() {
    let mut alloc = FrameAllocator::new(PhysAddr::new(TOP), PhysAddr::new(BOTTOM));
    let bottom = alloc.bottom().addr();
    let f1 = alloc.alloc_frame().unwrap();
    let f2 = alloc.alloc_frame().unwrap();
    let f3 = alloc.alloc_frame().unwrap();
    assert_eq!(f1.paddr().as_usize(), BOTTOM);
    assert_eq!(f2.paddr().as_usize(), BOTTOM + PAGE_SIZE);
    assert_eq!(f3.paddr().as_usize(), BOTTOM + 2 * PAGE_SIZE);
    // Free in reverse order: the watermark coalesces all the way down.
    alloc.dealloc(f3);
    alloc.dealloc(f2);
    alloc.dealloc(f1);
    assert_eq!(alloc.current().addr(), bottom);
}

#[test]
fn allocator_reuses_recycled_frames() {
    let mut alloc = FrameAllocator::new(PhysAddr::new(TOP), PhysAddr::new(BOTTOM));
    let f1 = alloc.alloc_frame().unwrap();
    let f2 = alloc.alloc_frame().unwrap();
    let a1 = f1.paddr();
    // Free the lower frame: no coalesce (a hole below the watermark).
    alloc.dealloc(f1);
    // The recycled frame is preferred.
    let f3 = alloc.alloc_frame().unwrap();
    assert_eq!(f3.paddr(), a1);
    assert_ne!(f3.paddr(), f2.paddr());
    alloc.dealloc(f3);
    alloc.dealloc(f2);
    assert_eq!(alloc.current().addr().as_usize(), BOTTOM);
}

#[test]
fn allocator_exhaustion_no_partial() {
    let top = BOTTOM + 4 * PAGE_SIZE;
    let mut alloc = FrameAllocator::new(PhysAddr::new(top), PhysAddr::new(BOTTOM));
    let before = alloc.current().addr();
    // Only 4 frames exist; asking for 5 yields None with nothing allocated.
    let r = alloc.alloc_frames(5);
    assert!(r.is_none());
    assert_eq!(alloc.current().addr(), before);
    let frames = alloc.alloc_frames(4).unwrap();
    assert_eq!(frames.len(), 4);
    assert!(alloc.alloc_frame().is_none());
    for f in frames {
        alloc.dealloc(f);
    }
    assert_eq!(alloc.current().addr(), before);
}

#[test]
fn allocator_contiguous_from_watermark() {
    let mut alloc = FrameAllocator::new(PhysAddr::new(TOP), PhysAddr::new(BOTTOM));
    let f1 = alloc.alloc_frame().unwrap();
    alloc.dealloc(f1);
    // Contiguous allocation bypasses the free list.
    let range = alloc.alloc_contiguous(3).unwrap();
    assert_eq!(range.range().start().addr().as_usize(), BOTTOM);
    assert_eq!(range.range().len(), 3);
    alloc.dealloc_range(range);
    assert_eq!(alloc.current().addr().as_usize(), BOTTOM);
}

#[test]
fn map_then_query_with_offset() {
    let (_mem, mut alloc, mut pt) = setup();
    let v = VirtAddr::new(0x4000_0000 + 0x7000);
    let p = PhysAddr::new(BOTTOM + 0x3000);
    pt.map_single(&mut alloc, v, p, PageSize::_4K, user_ro()).unwrap();
    for off in [0usize, 1, 0x123, 0xfff] {
        let (qp, fl, sz) = pt.query_virtual(v.add_offset(off)).unwrap();
        assert_eq!(qp.as_usize(), p.as_usize() + off);
        assert_eq!(fl, user_ro());
        assert_eq!(sz, PageSize::_4K);
    }
}

#[test]
fn map_already_mapped_fails() {
    let (_mem, mut alloc, mut pt) = setup();
    let v = VirtAddr::new(0x7000);
    let p = PhysAddr::new(BOTTOM + 0x3000);
    pt.map_single(&mut alloc, v, p, PageSize::_4K, user_ro()).unwrap();
    let again = pt.map_single(&mut alloc, v, PhysAddr::new(BOTTOM + 0x4000), PageSize::_4K, user_ro());
    assert_eq!(again, Err(PagingError::AlreadyMapped));
}

#[test]
fn unmap_then_query_not_mapped() {
    let (_mem, mut alloc, mut pt) = setup();
    let v = VirtAddr::new(0x7000);
    let p = PhysAddr::new(BOTTOM + 0x3000);
    pt.map_single(&mut alloc, v, p, PageSize::_4K, user_ro()).unwrap();
    let (qp, sz) = pt.unmap_single(v).unwrap();
    assert_eq!(qp, p);
    assert_eq!(sz, PageSize::_4K);
    assert_eq!(pt.query_virtual(v), Err(PagingError::NotMapped));
}

#[test]
fn read_write_round_trip_across_page_boundary() {
    let (mut mem, mut alloc, mut pt) = setup();
    let v = VirtAddr::new(0x10000);
    // Two adjacent virtual pages backed by two frames.
    let f1 = alloc.alloc_frame().unwrap();
    let f2 = alloc.alloc_frame().unwrap();
    pt.map_single(&mut alloc, v, f1.paddr(), PageSize::_4K, user_rw()).unwrap();
    pt.map_single(&mut alloc, v.add_offset(PAGE_SIZE), f2.paddr(), PageSize::_4K, user_rw()).unwrap();

    let mut data = Vec::new();
    let mut i = 0usize;
    while i < 2 * PAGE_SIZE {
        data.push((i % 251) as u8);
        i += 1;
    }
    pt.write_bytes(&mut mem, v, data.as_slice()).unwrap();
    let back = pt.read_bytes(&mem, v, 2 * PAGE_SIZE).unwrap();
    assert_eq!(back, data);
    f1.consume();
    f2.consume();
}

#[test]
fn write_without_writable_and_without_user() {
    let (mut mem, mut alloc, mut pt) = setup();
    let v_ro = VirtAddr::new(0x10000);
    let v_kernel = VirtAddr::new(0x20000);
    let f1 = alloc.alloc_frame().unwrap();
    let f2 = alloc.alloc_frame().unwrap();
    pt.map_single(&mut alloc, v_ro, f1.paddr(), PageSize::_4K, user_ro()).unwrap();
    let kernel_ro = GenericMappingFlags::kernel()
        .union(GenericMappingFlags::readable())
        .union(GenericMappingFlags::writable());
    pt.map_single(&mut alloc, v_kernel, f2.paddr(), PageSize::_4K, kernel_ro).unwrap();

    let data = vec![1u8, 2, 3];
    assert_eq!(
        pt.write_bytes(&mut mem, v_ro, data.as_slice()),
        Err(MMUError::PageNotWritable { vaddr: v_ro })
    );
    assert_eq!(
        pt.write_bytes(&mut mem, v_kernel, data.as_slice()),
        Err(MMUError::PrivilegeError)
    );
    f1.consume();
    f2.consume();
}

#[test]
fn inspect_framed_chunks_cover_request() {
    let (mut mem, mut alloc, mut pt) = setup();
    let v = VirtAddr::new(0x10000);
    let f1 = alloc.alloc_frame().unwrap();
    let f2 = alloc.alloc_frame().unwrap();
    pt.map_single(&mut alloc, v, f1.paddr(), PageSize::_4K, user_rw()).unwrap();
    pt.map_single(&mut alloc, v.add_offset(PAGE_SIZE), f2.paddr(), PageSize::_4K, user_rw()).unwrap();

    // An unaligned request crossing the page boundary.
    let start = v.add_offset(0x800);
    let len = PAGE_SIZE;
    let chunks = pt.inspect_framed(&mem, start, len).unwrap();
    let mut total = 0usize;
    let mut offset = 0usize;
    for c in &chunks {
        assert_eq!(c.offset, offset);
        total += c.len;
        offset += c.len;
    }
    assert_eq!(total, len);
    assert_eq!(chunks.len(), 2);
    assert_eq!(chunks[0].paddr.as_usize(), f1.paddr().as_usize() + 0x800);
    assert_eq!(chunks[1].paddr, f2.paddr());
    let _ = pt.write_bytes(&mut mem, v, vec![0u8].as_slice());
    f1.consume();
    f2.consume();
}

#[test]
fn buffer_release_allows_remapping() {
    let (mut mem, mut alloc, mut pt) = setup();
    let v = VirtAddr::new(0x10000);
    let f1 = alloc.alloc_frame().unwrap();
    pt.map_single(&mut alloc, v, f1.paddr(), PageSize::_4K, user_rw()).unwrap();

    let mut buf = pt.map_buffer_mut(&mem, v, 16, false).unwrap();
    buf.set_byte(0, 0xAB);
    buf.set_byte(15, 0xCD);
    buf.release(&pt, &mut mem).unwrap();

    // After the release the same range can be mapped again.
    let buf2 = pt.map_buffer(&mem, v, 16).unwrap();
    assert_eq!(buf2.bytes()[0], 0xAB);
    assert_eq!(buf2.bytes()[15], 0xCD);
    pt.unmap_buffer(v);
    f1.consume();
}

#[test]
fn area_pages_map_to_distinct_frames() {
    let (mut mem, mut alloc, mut pt_space) = {
        let mem = PhysMem::new(PhysAddr::new(BOTTOM), TOP - BOTTOM);
        let mut alloc = FrameAllocator::new(PhysAddr::new(TOP), PhysAddr::new(BOTTOM));
        let pt = PageTableNative::alloc_root(&mut alloc);
        (mem, alloc, MemorySpace::new(pt))
    };
    let start = VirtPage::new_4k(VirtAddr::new(0x40000)).unwrap();
    let area = MappingArea::new(
        VirtPageRange::new(start, 4),
        AreaType::VMA,
        MapType::Framed,
        user_rw(),
        None,
    );
    pt_space
        .alloc_and_map_area(&mut alloc, &mut mem, area)
        .unwrap();

    let mut seen = Vec::new();
    for k in 0..4usize {
        let v = VirtAddr::new(0x40000 + k * PAGE_SIZE);
        let (p, fl, sz) = pt_space.mmu().query_virtual(v).unwrap();
        assert_eq!(fl, user_rw());
        assert_eq!(sz, PageSize::_4K);
        assert!(!seen.contains(&p.as_usize()));
        seen.push(p.as_usize());
    }
}

#[test]
fn cross_mapping_mirrors_source_bytes() {
    // Space B: user-style, with a known pattern.
    let mut mem = PhysMem::new(PhysAddr::new(BOTTOM), TOP - BOTTOM);
    let mut alloc = FrameAllocator::new(PhysAddr::new(TOP), PhysAddr::new(BOTTOM));
    let mut pt_b = PageTableNative::alloc_root(&mut alloc);
    let vb = VirtAddr::new(0x30000);
    let fb = alloc.alloc_frame().unwrap();
    pt_b.map_single(&mut alloc, vb, fb.paddr(), PageSize::_4K, user_rw()).unwrap();
    let pattern: Vec<u8> = (0..64u8).collect();
    pt_b.write_bytes(&mut mem, vb, pattern.as_slice()).unwrap();

    // Space A: kernel-style, mirrors B's range through a window.
    let mut pt_a = PageTableNative::alloc_root(&mut alloc);
    let va = pt_a.map_cross(&mut alloc, &mem, &pt_b, vb, 64).unwrap();
    let seen = pt_a.read_bytes_kernel(&mem, va, 64).unwrap();
    assert_eq!(seen, pattern);

    // After tearing the window down, mapping the same range succeeds anew.
    pt_a.unmap_cross(&pt_b, va);
    let va2 = pt_a.map_cross(&mut alloc, &mem, &pt_b, vb, 64).unwrap();
    let seen2 = pt_a.read_bytes_kernel(&mem, va2, 64).unwrap();
    assert_eq!(seen2, pattern);
    fb.consume();
}

#[test]
fn flags_bits_layout_round_trip() {
    let f = user_rw();
    assert_eq!(f.bits(), 0b1011);
    let g = vmcore::flags::GenericMappingFlags::from_bits(0b1011);
    assert_eq!(g, f);
    assert!(f.contains(vmcore::flags::GenericMappingFlags::readable()));
    assert!(!f.contains(vmcore::flags::GenericMappingFlags::executable()));
    assert_eq!(PageSize::_4K.as_usize(), 4096);
    assert_eq!(PageSize::_2M.as_usize(), 2_097_152);
    assert_eq!(PageSize::_1G.as_usize(), 1_073_741_824);
    assert_eq!(PageSize::Custom(8192).as_usize(), 8192);
}

#[test]
fn linear_window_arithmetic() {
    assert_eq!(vmcore::mmu::get_linear_vaddr(0x8000_0000), 0xffff_ffc0_8000_0000);
    assert!(vmcore::mmu::is_linear_window(0xffff_ffc0_8000_0000));
    assert!(!vmcore::mmu::is_linear_window(0x8000_0000));
}

#[test]
fn kernel_copy_ignores_user_permissions() {
    let (mut mem, mut alloc, mut pt) = setup();
    let v = VirtAddr::new(0x50000);
    let frame = alloc.alloc_frame().unwrap();
    // A guard-style page: mapped with no permissions at all.
    pt.map_single(&mut alloc, v, frame.paddr(), PageSize::_4K, GenericMappingFlags::empty())
        .unwrap();

    let data = vec![7u8; 32];
    // The user-facing paths refuse the page...
    assert_eq!(pt.read_bytes(&mem, v, 32), Err(MMUError::PrivilegeError));
    assert_eq!(
        pt.write_bytes(&mut mem, v, data.as_slice()),
        Err(MMUError::PrivilegeError)
    );
    // ...while the kernel-mode copies through the linear window succeed.
    pt.write_bytes_kernel(&mut mem, v, data.as_slice()).unwrap();
    assert_eq!(pt.read_bytes_kernel(&mem, v, 32).unwrap(), data);
    frame.consume();
}

#[test]
fn remap_redirects_an_existing_mapping() {
    let (_mem, mut alloc, mut pt) = setup();
    let v = VirtAddr::new(0x60000);
    let f1 = alloc.alloc_frame().unwrap();
    let f2 = alloc.alloc_frame().unwrap();
    pt.map_single(&mut alloc, v, f1.paddr(), PageSize::_4K, user_ro()).unwrap();
    let sz = pt.remap_single(v, f2.paddr(), user_rw()).unwrap();
    assert_eq!(sz, PageSize::_4K);
    let (p, fl, _) = pt.query_virtual(v).unwrap();
    assert_eq!(p, f2.paddr());
    assert_eq!(fl, user_rw());
    f1.consume();
    f2.consume();
}
