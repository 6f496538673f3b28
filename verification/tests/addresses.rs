use vmcore::paddr_range::PaddrRange;
use vmcore::phys_addr::PhysAddr;
use vmcore::vaddr_range::VaddrRange;
use vmcore::virt_addr::VirtAddr;

#[test]
fn test_phys_addr_creation() {
    let addr = PhysAddr::new(0x1000);
    assert_eq!(addr.as_usize(), 0x1000);
    assert!(!addr.is_null());

    let null_addr = PhysAddr::null();
    assert!(null_addr.is_null());
    assert_eq!(null_addr.as_usize(), 0);
}

#[test]
fn test_phys_addr_arithmetic() {
    let addr1 = PhysAddr::new(0x1000);
    let addr2 = PhysAddr::new(0x2000);

    assert_eq!(addr1.add_offset(0x1000), addr2);
    assert_eq!(addr2.sub_offset(0x1000), addr1);
    assert_eq!(addr2.diff(addr1), 0x1000isize);

    let page_size = 4096usize;
    let page_addr = PhysAddr::new(0x10000);
    let next_page = page_addr.add_offset(page_size);
    assert_eq!(next_page.as_usize(), 0x10000 + 4096);
}

#[test]
fn test_phys_addr_page_alignment() {
    let page_4k = PhysAddr::new(0x1000);
    let page_2m = PhysAddr::new(0x200000);
    let page_1g = PhysAddr::new(0x40000000);

    assert_eq!(page_4k.as_usize() & 0xFFF, 0);
    assert_eq!(page_2m.as_usize() & 0x1FFFFF, 0);
    assert_eq!(page_1g.as_usize() & 0x3FFFFFFF, 0);

    assert!(page_4k.is_aligned(0x1000));
    assert!(page_2m.is_aligned(0x200000));
    assert!(page_1g.is_aligned(0x40000000));
}

#[test]
fn test_phys_addr_high_memory() {
    let high_mem = PhysAddr::new(0xFFFF_FFFF_0000_0000);
    assert_eq!(high_mem.as_usize(), 0xFFFF_FFFF_0000_0000);

    let offset = high_mem.add_offset(0x1000);
    assert_eq!(offset.as_usize(), 0xFFFF_FFFF_0000_1000);
}

#[test]
fn test_phys_addr_conversions() {
    let addr = PhysAddr::new(0xDEADBEEF);

    let addr_usize: usize = addr.into();
    assert_eq!(addr_usize, 0xDEADBEEF);

    let addr_from: PhysAddr = PhysAddr::from(0xCAFEBABE);
    assert_eq!(addr_from.as_usize(), 0xCAFEBABE);

    // Physical and virtual addresses are distinct types with the same word.
    let vaddr = VirtAddr::new(0x1000);
    let paddr = PhysAddr::new(0x1000);
    assert_eq!(vaddr.as_usize(), paddr.as_usize());
}

#[test]
fn test_virt_addr_creation() {
    let addr = VirtAddr::new(0x1000);
    assert_eq!(addr.as_usize(), 0x1000);
    assert!(!addr.is_null());

    let null_addr = VirtAddr::null();
    assert!(null_addr.is_null());
    assert_eq!(null_addr.as_usize(), 0);
}

#[test]
fn test_virt_addr_arithmetic() {
    let addr1 = VirtAddr::new(0x1000);
    let addr2 = VirtAddr::new(0x2000);

    assert_eq!(addr1.add_offset(0x1000), addr2);
    assert_eq!(addr2.sub_offset(0x1000), addr1);
    assert_eq!(addr2.diff(addr1), 0x1000isize);

    let ptr_addr = VirtAddr::new(0x7fff_8000_0000);
    let offset_ptr = ptr_addr.add_offset(0x1000);
    assert_eq!(offset_ptr.as_usize(), 0x7fff_8000_1000);
}

#[test]
fn test_virt_addr_user_kernel_space() {
    let user_addr = VirtAddr::new(0x0000_4000_0000_0000);
    assert!(user_addr.as_usize() < 0x8000_0000_0000_0000);

    let kernel_addr = VirtAddr::new(0xFFFF_8000_0000_0000);
    assert!(kernel_addr.as_usize() >= 0x8000_0000_0000_0000);

    let canonical_user = VirtAddr::new(0x0000_7FFF_FFFF_FFFF);
    let canonical_kernel = VirtAddr::new(0xFFFF_8000_0000_0000);
    assert_eq!(canonical_user.as_usize(), 0x0000_7FFF_FFFF_FFFF);
    assert_eq!(canonical_kernel.as_usize(), 0xFFFF_8000_0000_0000);
}

#[test]
fn test_virt_addr_page_operations() {
    let page_addr = VirtAddr::new(0x1000);
    assert_eq!(page_addr.as_usize() & 0xFFF, 0);

    let unaligned_addr = VirtAddr::new(0x1234);
    let page_start = unaligned_addr.align_down(0x1000);
    let page_end = page_start.add_offset(0x1000);

    assert_eq!(page_start.as_usize(), 0x1000);
    assert_eq!(page_end.as_usize(), 0x2000);
    assert!(page_start.as_usize() <= unaligned_addr.as_usize());
    assert!(unaligned_addr.as_usize() < page_end.as_usize());
}

#[test]
fn test_virt_addr_stack_heap() {
    let stack_addr = VirtAddr::new(0x7fff_ffff_f000);
    let heap_addr = VirtAddr::new(0x0000_0000_1000_0000);

    assert!(stack_addr > heap_addr);

    let stack_frame = stack_addr.sub_offset(0x1000);
    assert!(stack_frame < stack_addr);
}

#[test]
fn test_virt_addr_conversions() {
    let addr = VirtAddr::new(0xDEADBEEF);

    let addr_usize: usize = addr.into();
    assert_eq!(addr_usize, 0xDEADBEEF);

    let addr_from: VirtAddr = VirtAddr::from(0xCAFEBABE);
    assert_eq!(addr_from.as_usize(), 0xCAFEBABE);

    let vaddr = VirtAddr::new(0x1000);
    let paddr = PhysAddr::new(0x1000);
    assert_eq!(vaddr.as_usize(), paddr.as_usize());
}

#[test]
fn test_virt_addr_collections() {
    let mut address_map = std::collections::BTreeMap::new();

    address_map.insert(VirtAddr::new(0x400000), "text");
    address_map.insert(VirtAddr::new(0x600000), "data");
    address_map.insert(VirtAddr::new(0x800000), "heap");
    address_map.insert(VirtAddr::new(0x7fff_0000_0000), "stack");

    assert_eq!(address_map.get(&VirtAddr::new(0x400000)), Some(&"text"));
    assert_eq!(address_map.len(), 4);

    let addrs: Vec<_> = address_map.keys().copied().collect();
    assert_eq!(
        addrs,
        vec![
            VirtAddr::new(0x400000),
            VirtAddr::new(0x600000),
            VirtAddr::new(0x800000),
            VirtAddr::new(0x7fff_0000_0000),
        ]
    );
}

#[test]
fn test_virt_addr_pointer_arithmetic() {
    let base = VirtAddr::new(0x10000);

    let element_size = 8usize;
    let elements = [
        base,
        base.add_offset(element_size),
        base.add_offset(element_size * 2),
        base.add_offset(element_size * 3),
    ];

    assert_eq!(elements[0].as_usize(), 0x10000);
    assert_eq!(elements[1].as_usize(), 0x10008);
    assert_eq!(elements[2].as_usize(), 0x10010);
    assert_eq!(elements[3].as_usize(), 0x10018);

    assert_eq!(elements[3].diff(elements[0]), element_size as isize * 3);
}

#[test]
fn test_same_lifetime() {
    let base = VirtAddr::new(0x42);
    let addr = base.same_lifetime(0x10000);
    assert_eq!(addr.as_usize(), 0x10000);

    let null = VirtAddr::null();
    let other = null.same_lifetime(0x5678);
    assert_eq!(other.as_usize(), 0x5678);
}

#[test]
fn test_phys_range_creation() {
    let start = PhysAddr::new(0x1000);
    let end = PhysAddr::new(0x2000);
    let range = PaddrRange::new(start, end);

    assert_eq!(range.start(), start);
    assert_eq!(range.end(), end);
    assert_eq!(range.len(), 0x1000);
}

#[test]
fn test_phys_range_page_operations() {
    let page_size = 4096usize;
    let unaligned_start = PhysAddr::new(0x1234);
    let unaligned_end = PhysAddr::new(0x2345);
    let range = PaddrRange::new(unaligned_start, unaligned_end);

    let page_aligned = range.align_to(page_size);
    assert_eq!(page_aligned.start(), PhysAddr::new(0x1000));
    assert_eq!(page_aligned.end(), PhysAddr::new(0x3000));

    let pages = page_aligned.iter_pages().unwrap();
    assert_eq!(pages.len(), 2);
    assert_eq!(pages[0], PhysAddr::new(0x1000));
    assert_eq!(pages[1], PhysAddr::new(0x2000));
}

#[test]
fn test_phys_range_memory_operations() {
    let dram_range = PaddrRange::new(PhysAddr::new(0x80000000), PhysAddr::new(0x100000000));
    let device_range = PaddrRange::new(PhysAddr::new(0x10000000), PhysAddr::new(0x20000000));

    assert!(!dram_range.overlaps(device_range));

    assert_eq!(dram_range.len(), 0x80000000);
    assert_eq!(device_range.len(), 0x10000000);
}

#[test]
fn test_phys_range_merge_adjacent_pages() {
    let page1 = PaddrRange::new(PhysAddr::new(0x1000), PhysAddr::new(0x2000));
    let page2 = PaddrRange::new(PhysAddr::new(0x2000), PhysAddr::new(0x3000));
    let page3 = PaddrRange::new(PhysAddr::new(0x3000), PhysAddr::new(0x4000));

    let merged12 = page1.merge(page2).unwrap();
    assert_eq!(merged12.start(), PhysAddr::new(0x1000));
    assert_eq!(merged12.end(), PhysAddr::new(0x3000));

    let merged_all = merged12.merge(page3).unwrap();
    assert_eq!(merged_all.start(), PhysAddr::new(0x1000));
    assert_eq!(merged_all.end(), PhysAddr::new(0x4000));
    assert_eq!(merged_all.len(), 0x3000);
}

#[test]
fn test_phys_range_intersection() {
    let range1 = PaddrRange::new(PhysAddr::new(0x1000), PhysAddr::new(0x3000));
    let range2 = PaddrRange::new(PhysAddr::new(0x2000), PhysAddr::new(0x4000));

    let intersection = range1.intersection(range2).unwrap();
    assert_eq!(intersection.start(), PhysAddr::new(0x2000));
    assert_eq!(intersection.end(), PhysAddr::new(0x3000));
    assert_eq!(intersection.len(), 0x1000);
}

#[test]
fn test_phys_range_large_addresses() {
    let high_range = PaddrRange::new(
        PhysAddr::new(0xFFFF_0000_0000_0000),
        PhysAddr::new(0xFFFF_0000_1000_0000),
    );

    assert_eq!(high_range.len(), 0x1000_0000);
    assert!(high_range.contains_addr(PhysAddr::new(0xFFFF_0000_0800_0000)));
    assert!(!high_range.contains_addr(PhysAddr::new(0xFFFF_0000_2000_0000)));
}

#[test]
fn test_phys_range_empty_and_edge_cases() {
    let addr = PhysAddr::new(0x1000);
    let empty_range = PaddrRange::new(addr, addr);

    assert!(empty_range.is_empty());
    assert_eq!(empty_range.len(), 0);
    assert!(!empty_range.contains_addr(addr));

    let min_range = PaddrRange::new(PhysAddr::new(0x1000), PhysAddr::new(0x1001));
    assert_eq!(min_range.len(), 1);
    assert!(min_range.contains_addr(PhysAddr::new(0x1000)));
    assert!(!min_range.contains_addr(PhysAddr::new(0x1001)));
}

#[test]
fn test_phys_range_iterator_exact_size() {
    let range = PaddrRange::new(PhysAddr::new(0x1000), PhysAddr::new(0x1010));
    let iter = range.iter_step(4).unwrap();

    assert_eq!(iter.len(), 4);

    assert_eq!(iter[0], PhysAddr::new(0x1000));
    assert_eq!(iter[3], PhysAddr::new(0x100c));
}

#[test]
fn test_virt_range_creation() {
    let start = VirtAddr::new(0x400000);
    let end = VirtAddr::new(0x500000);
    let range = VaddrRange::new(start, end);

    assert_eq!(range.start(), start);
    assert_eq!(range.end(), end);
    assert_eq!(range.len(), 0x100000);
}

#[test]
fn test_virt_range_page_table_operations() {
    let range = VaddrRange::new(VirtAddr::new(0x400000), VirtAddr::new(0x800000));

    let pages_4k = range.iter_pages().unwrap();
    assert_eq!(pages_4k.len(), (0x800000 - 0x400000) / 0x1000);

    let pages_2m = range.iter_pages_sized(0x200000).unwrap();
    assert_eq!(pages_2m.len(), (0x800000 - 0x400000) / 0x200000);

    assert!(range.iter_pages_sized(0x40000000).is_none());
}

#[test]
fn test_virt_range_alignment_for_pages() {
    let unaligned_range = VaddrRange::new(VirtAddr::new(0x401234), VirtAddr::new(0x405678));

    let page_aligned = unaligned_range.align_to(0x1000);
    assert!(page_aligned.start().is_aligned(0x1000));
    assert!(page_aligned.end().is_aligned(0x1000));
    assert_eq!(page_aligned.start(), VirtAddr::new(0x401000));
    assert_eq!(page_aligned.end(), VirtAddr::new(0x406000));

    let huge_page_aligned = unaligned_range.align_to(0x200000);
    assert!(huge_page_aligned.start().is_aligned(0x200000));
    assert!(huge_page_aligned.end().is_aligned(0x200000));
    assert_eq!(huge_page_aligned.start(), VirtAddr::new(0x400000));
    assert_eq!(huge_page_aligned.end(), VirtAddr::new(0x600000));
}

#[test]
fn test_virt_range_intersection_for_protection() {
    let executable_range = VaddrRange::new(VirtAddr::new(0x400000), VirtAddr::new(0x500000));
    let writable_range = VaddrRange::new(VirtAddr::new(0x450000), VirtAddr::new(0x550000));

    let overlap = executable_range.intersection(writable_range).unwrap();
    assert_eq!(overlap.start(), VirtAddr::new(0x450000));
    assert_eq!(overlap.end(), VirtAddr::new(0x500000));
    assert_eq!(overlap.len(), 0xB0000);
}

#[test]
fn test_virt_range_merge_adjacent_mappings() {
    let mapping1 = VaddrRange::new(VirtAddr::new(0x600000), VirtAddr::new(0x700000));
    let mapping2 = VaddrRange::new(VirtAddr::new(0x700000), VirtAddr::new(0x800000));
    let mapping3 = VaddrRange::new(VirtAddr::new(0x900000), VirtAddr::new(0xA00000));

    let merged = mapping1.merge(mapping2).unwrap();
    assert_eq!(merged.start(), VirtAddr::new(0x600000));
    assert_eq!(merged.end(), VirtAddr::new(0x800000));

    assert!(mapping1.merge(mapping3).is_none());
}

#[test]
fn test_virt_range_contains_specific_addresses() {
    let stack_range = VaddrRange::new(
        VirtAddr::new(0x7FFE_0000_0000),
        VirtAddr::new(0x7FFF_0000_0000),
    );

    let stack_ptr = VirtAddr::new(0x7FFE_8000_0000);
    assert!(stack_range.contains_addr(stack_ptr));

    let invalid_stack = VirtAddr::new(0x7FFF_8000_0000);
    assert!(!stack_range.contains_addr(invalid_stack));
}

#[test]
fn test_virt_addr_align_brackets_value() {
    let a = VirtAddr::new(0x1234);
    let down = a.align_down(0x1000);
    let up = a.align_up(0x1000);
    assert!(down.is_aligned(0x1000));
    assert!(up.is_aligned(0x1000));
    assert!(down.as_usize() <= a.as_usize());
    assert!(a.as_usize() <= up.as_usize());
    assert!(up.as_usize() <= down.as_usize() + 0x1000);

    let b = PhysAddr::new(1024);
    assert_eq!(b.align_down(100).as_usize(), 1000);
    assert_eq!(b.align_up(100).as_usize(), 1100);
    assert!(!b.is_aligned(100));
    assert_eq!(b.offset_from_alignment(100), 24);
}

#[test]
fn test_diff_then_add_restores() {
    let a = PhysAddr::new(0x9000);
    let b = PhysAddr::new(0x4000);
    let d = a.diff(b);
    assert_eq!(b.add_signed(d), a);

    let x = VirtAddr::new(0x4000);
    let y = VirtAddr::new(0x9000);
    let d2 = x.diff(y);
    assert_eq!(d2, -0x5000);
    assert_eq!(y.add_signed(d2), x);
}

#[test]
fn test_phys_addr_formatting() {
    let addr = PhysAddr::new(0x12345678);

    let text = addr.to_hex_string();
    assert_eq!(text, "PhysAddr(0x12345678)");
}

#[test]
fn test_virt_addr_formatting() {
    let addr = VirtAddr::new(0x12345678);

    let text = addr.to_hex_string();
    assert_eq!(text, "VirtAddr(0x12345678)");
}

#[test]
fn test_hex_text_zero_and_small() {
    assert_eq!(vmcore::hex_text::hex_text(0), "0x0");
    assert_eq!(vmcore::hex_text::hex_text(15), "0xf");
    assert_eq!(vmcore::hex_text::hex_text(16), "0x10");
    assert_eq!(vmcore::hex_text::hex_text(usize::MAX), "0xffffffffffffffff");
}
