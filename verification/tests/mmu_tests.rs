use kernel_library::boot::{compose_satp_value, map_physical_memory};
use kernel_library::memory::{MemoryRegion, PhysicalPageNumber, VirtualPageNumber};
use kernel_library::mmu::{
    allocate_level_2_vpn, allocate_vpn, get_recursive_vpn_for_page_table_at_level,
    identity_map_range, map_range, translate_virtual_address, AddressSpace, PageTableEntry,
    PageTableEntryFlags,
};
use kernel_library::physical_memory_allocator::PhysicalBumpAllocator;

/// An allocator with the given number of free pages, starting at 0x100000.
fn allocator_with_pages(pages: usize) -> PhysicalBumpAllocator {
    let mut allocator = PhysicalBumpAllocator::new();
    if pages > 0 {
        let regions = vec![MemoryRegion::new(0x10_0000, pages * 4096)];
        allocator.reset(&regions, regions.len());
    }
    allocator
}

fn readable_flags() -> PageTableEntryFlags {
    let mut flags = PageTableEntryFlags::default();
    flags.set_readable(true);
    flags
}

#[test]
fn mmu_test_translate_valid_address() {
    let mut address_space = AddressSpace::new();
    let mut allocator = allocator_with_pages(4);

    // Create a mapping for virtual page 0x0012_3456 -> physical page
    // 0x00AB_CDEF. vpn2 = 0x0123, vpn1 = 0x0056, vpn0 = 0x0056.
    let vpn = VirtualPageNumber((0x0123 << 18) | (0x0056 << 9) | 0x0056);
    let mapped = allocate_vpn(
        &mut address_space,
        vpn,
        Some(PhysicalPageNumber(0x00AB_CDEF)),
        &readable_flags(),
        &mut allocator,
    );
    assert_eq!(mapped, Some(PhysicalPageNumber(0x00AB_CDEF)));

    // vpn2 = 0x0123, vpn1 = 0x0056, vpn0 = 0x0056, offset = 0x0ABC.
    let virtual_address: u64 = (0x0123 << 30) | (0x0056 << 21) | (0x0056 << 12) | 0x0ABC;
    let expected_physical_address: u64 = (0x00AB_CDEF << 12) | 0x0ABC;

    let result = translate_virtual_address(&address_space, virtual_address);
    assert_eq!(result, Some(expected_physical_address));
}

#[test]
fn mmu_test_translate_invalid_root_entry() {
    let address_space = AddressSpace::new();
    // No entry is valid in a fresh address space.

    let virtual_address = (0x0123 << 30) | (0x0056 << 21) | (0x0056 << 12) | 0x0ABC;

    let result = translate_virtual_address(&address_space, virtual_address);
    assert_eq!(
        result, None,
        "Translation should fail with invalid root entry."
    );
}

#[test]
fn mmu_test_translate_invalid_level1_entry() {
    let mut address_space = AddressSpace::new();

    // Give the allocator a single page: the level 1 table is installed, and
    // then the level 0 table allocation fails, leaving the level 1 entry
    // invalid.
    let mut allocator = allocator_with_pages(1);
    let vpn = VirtualPageNumber((0x0123 << 18) | (0x0056 << 9) | 0x0056);
    let mapped = allocate_vpn(&mut address_space, vpn, None, &readable_flags(), &mut allocator);
    assert!(mapped.is_none());

    let virtual_address = (0x0123 << 30) | (0x0056 << 21) | (0x0056 << 12) | 0x0ABC;

    let result = translate_virtual_address(&address_space, virtual_address);
    assert_eq!(
        result, None,
        "Translation should fail with invalid level 1 entry."
    );
}

#[test]
fn mmu_test_translate_invalid_level0_entry() {
    let mut address_space = AddressSpace::new();

    // Two pages: both intermediate tables are installed, and then the leaf
    // page allocation fails, leaving the level 0 entry invalid.
    let mut allocator = allocator_with_pages(2);
    let vpn = VirtualPageNumber((0x0123 << 18) | (0x0056 << 9) | 0x0056);
    let mapped = allocate_vpn(&mut address_space, vpn, None, &readable_flags(), &mut allocator);
    assert!(mapped.is_none());
    assert_eq!(address_space.table_count(), 2);

    let virtual_address = (0x0123 << 30) | (0x0056 << 21) | (0x0056 << 12) | 0x0ABC;

    let result = translate_virtual_address(&address_space, virtual_address);
    assert_eq!(
        result, None,
        "Translation should fail with invalid level 0 entry."
    );
}

#[test]
fn mmu_test_translate_different_offsets() {
    let mut address_space = AddressSpace::new();
    let mut allocator = allocator_with_pages(4);

    let vpn = VirtualPageNumber((0x0123 << 18) | (0x0056 << 9) | 0x0056);
    allocate_vpn(
        &mut address_space,
        vpn,
        Some(PhysicalPageNumber(0x00AB_CDEF)),
        &readable_flags(),
        &mut allocator,
    );

    // Zero offset.
    let virtual_address_1: u64 = (0x0123 << 30) | (0x0056 << 21) | (0x0056 << 12) | 0x0000;
    let expected_physical_address_1: u64 = (0x00AB_CDEF << 12) | 0x0000;
    let result_1 = translate_virtual_address(&address_space, virtual_address_1);

    // Maximum offset.
    let virtual_address_2 = (0x0123 << 30) | (0x0056 << 21) | (0x0056 << 12) | 0x0FFF;
    let expected_physical_address_2 = (0x00AB_CDEF << 12) | 0x0FFF;
    let result_2 = translate_virtual_address(&address_space, virtual_address_2);

    assert_eq!(
        result_1,
        Some(expected_physical_address_1),
        "Translation with zero offset failed."
    );
    assert_eq!(
        result_2,
        Some(expected_physical_address_2),
        "Translation with maximum offset failed."
    );
}

#[test]
fn test_allocate_vpn_is_idempotent() {
    // Mapping the same virtual page twice returns the first physical page
    // and leaves the mapping unchanged.
    let mut address_space = AddressSpace::new();
    let mut allocator = allocator_with_pages(8);

    let vpn = VirtualPageNumber((7 << 18) | (8 << 9) | 9);
    let first = allocate_vpn(
        &mut address_space,
        vpn,
        Some(PhysicalPageNumber(0x4242)),
        &readable_flags(),
        &mut allocator,
    );
    assert_eq!(first, Some(PhysicalPageNumber(0x4242)));

    let second = allocate_vpn(
        &mut address_space,
        vpn,
        Some(PhysicalPageNumber(0x9999)),
        &readable_flags(),
        &mut allocator,
    );
    assert_eq!(second, Some(PhysicalPageNumber(0x4242)));

    let va = ((7u64 << 18) | (8 << 9) | 9) << 12;
    assert_eq!(
        translate_virtual_address(&address_space, va),
        Some(0x4242 << 12)
    );
}

#[test]
fn test_map_one_translate_round_trip() {
    // For a fresh mapping, every offset of the page translates to the same
    // offset of the mapped frame.
    let mut address_space = AddressSpace::new();
    let mut allocator = allocator_with_pages(4);

    let vpn = VirtualPageNumber(0x00054321);
    let ppn = PhysicalPageNumber(0x00098765);
    let mapped = allocate_vpn(&mut address_space, vpn, Some(ppn), &readable_flags(), &mut allocator);
    assert_eq!(mapped, Some(ppn));

    for off in [0u64, 1, 0x7FF, 0xFFF] {
        let va = (0x00054321u64 << 12) | off;
        assert_eq!(
            translate_virtual_address(&address_space, va),
            Some((0x00098765u64 << 12) | off)
        );
    }
}

#[test]
fn test_gigapage_conflict() {
    // A successful gigapage mapping makes a second mapping of the same slot
    // fail, and the original mapping is unchanged.
    let mut address_space = AddressSpace::new();
    let mut flags = PageTableEntryFlags::default();
    flags.set_readable(true);
    flags.set_writable(true);

    let vpn = VirtualPageNumber(400 << 18);
    let first = allocate_level_2_vpn(
        &mut address_space,
        vpn,
        PhysicalPageNumber(3 << 18),
        &flags,
    );
    assert!(first);

    let second = allocate_level_2_vpn(
        &mut address_space,
        vpn,
        PhysicalPageNumber(5 << 18),
        &flags,
    );
    assert!(!second);

    // The original mapping still stands.
    let va = (400u64 << 30) | 0x1234;
    assert_eq!(
        translate_virtual_address(&address_space, va),
        Some((3u64 << 30) | 0x1234)
    );
}

#[test]
fn test_identity_map_range_and_translate() {
    // Identity-map the physical pages 0x80200 through 0x80203 and check
    // every address of the window translates to itself.
    let mut address_space = AddressSpace::new();
    let mut allocator = allocator_with_pages(16);

    let mut flags = PageTableEntryFlags::default();
    flags.set_readable(true);
    flags.set_writable(true);
    flags.set_executable(true);

    identity_map_range(
        &mut address_space,
        PhysicalPageNumber(0x80200),
        PhysicalPageNumber(0x80203),
        &flags,
        &mut allocator,
    );

    let mut va: u64 = 0x80200000;
    while va < 0x80204000 {
        assert_eq!(translate_virtual_address(&address_space, va), Some(va));
        va += 0x333;
    }
    assert_eq!(
        translate_virtual_address(&address_space, 0x80204000),
        None
    );
}

#[test]
fn test_map_range_maps_inclusive_count() {
    // map_range with an inclusive count of 2 maps three consecutive pages.
    let mut address_space = AddressSpace::new();
    let mut allocator = allocator_with_pages(16);

    let mut flags = PageTableEntryFlags::default();
    flags.set_readable(true);

    map_range(
        &mut address_space,
        PhysicalPageNumber(0x1000),
        VirtualPageNumber(0x2000),
        2,
        &flags,
        &mut allocator,
    );

    for i in 0..3u64 {
        let va = (0x2000 + i) << 12;
        assert_eq!(
            translate_virtual_address(&address_space, va),
            Some((0x1000 + i) << 12)
        );
    }
    assert_eq!(
        translate_virtual_address(&address_space, (0x2000u64 + 3) << 12),
        None
    );
}

#[test]
fn test_direct_map_of_physical_memory() {
    // The orchestrator's direct-map step: for each of the top 128 root
    // slots, virtual gigabyte 384 + i maps physical gigabyte i.
    let mut address_space = AddressSpace::new();
    map_physical_memory(&mut address_space);

    for i in 0..128u64 {
        let va = (384 + i) << 30;
        assert_eq!(translate_virtual_address(&address_space, va), Some(i << 30));
    }

    // An address below the window is untouched.
    assert_eq!(translate_virtual_address(&address_space, 0x1000), None);
}

#[test]
fn test_compose_satp_value() {
    let satp = compose_satp_value(PhysicalPageNumber(0x80200));
    assert_eq!(satp, (8u64 << 60) | 0x80200);
}

#[test]
fn test_page_table_entry_bits() {
    let mut entry = PageTableEntry::new();
    assert!(!entry.is_valid());
    assert!(!entry.is_leaf());

    entry.set_valid(true);
    assert!(entry.is_valid());
    assert!(!entry.is_leaf());

    entry.set_readable(true);
    assert!(entry.is_readable());
    assert!(entry.is_leaf());

    entry.set_writable(true);
    entry.set_executable(true);
    entry.set_user(true);
    entry.set_global(true);
    entry.set_accessed(true);
    entry.set_dirty(true);
    assert!(entry.is_writable());
    assert!(entry.is_executable());
    assert!(entry.is_user());
    assert!(entry.is_global());
    assert!(entry.is_accessed());
    assert!(entry.is_dirty());

    entry.set_ppn(PhysicalPageNumber(0x00AB_CDEF));
    assert_eq!(entry.get_ppn(), PhysicalPageNumber(0x00AB_CDEF));
    // The flags survive storing a page number.
    assert!(entry.is_valid() && entry.is_dirty() && entry.is_user());

    entry.clear();
    assert!(!entry.is_valid());
    assert_eq!(entry.get_ppn(), PhysicalPageNumber(0));
}

#[test]
fn test_get_recursive_vpn_for_page_table_at_level_level0() {
    // vpn2 = 123, vpn1 = 456, vpn0 = 289.
    let vpn = VirtualPageNumber(((123 as u64) << 18) | ((456 as u64) << 9) | 289);

    let recursive = get_recursive_vpn_for_page_table_at_level(vpn, 0).expect(
        "Recursive VPN calculation incorrect for level 0.",
    );
    assert_eq!(
        recursive.get_level_2_index(),
        511,
        "Recursive VPN level 2 index should be 511."
    );
    assert_eq!(
        recursive.get_level_1_index(),
        123,
        "Recursive VPN level 1 index should match original vpn2."
    );
    assert_eq!(
        recursive.get_level_0_index(),
        456,
        "Recursive VPN level 0 index should match original vpn1."
    );
}

#[test]
fn test_get_recursive_vpn_for_page_table_at_level_level1() {
    // vpn2 = 123, vpn1 = 456, vpn0 = 289.
    let vpn = VirtualPageNumber(((123 as u64) << 18) | ((456 as u64) << 9) | 289);

    let recursive = get_recursive_vpn_for_page_table_at_level(vpn, 1).expect(
        "Recursive VPN calculation incorrect for level 1.",
    );
    assert_eq!(
        recursive.get_level_2_index(),
        511,
        "Recursive VPN level 2 index should be 511."
    );
    assert_eq!(
        recursive.get_level_1_index(),
        511,
        "Recursive VPN level 1 index should be 511."
    );
    assert_eq!(
        recursive.get_level_0_index(),
        123,
        "Recursive VPN level 0 index should match original vpn2."
    );
}

#[test]
fn test_get_recursive_vpn_for_page_table_at_level_level2() {
    // vpn2 = 123, vpn1 = 456, vpn0 = 289.
    let vpn = VirtualPageNumber(((123 as u64) << 18) | ((456 as u64) << 9) | 289);

    let recursive = get_recursive_vpn_for_page_table_at_level(vpn, 2).expect(
        "Recursive VPN calculation incorrect for level 2.",
    );
    assert_eq!(
        recursive.get_level_2_index(),
        511,
        "Recursive VPN level 2 index should be 511."
    );
    assert_eq!(
        recursive.get_level_1_index(),
        511,
        "Recursive VPN level 1 index should be 511."
    );
    assert_eq!(
        recursive.get_level_0_index(),
        511,
        "Recursive VPN level 0 index should be 511."
    );
}

#[test]
fn test_get_recursive_vpn_for_page_table_at_level_invalid_level() {
    // vpn2 = 123, vpn1 = 456, vpn0 = 289.
    let vpn = VirtualPageNumber(((123 as u64) << 18) | ((456 as u64) << 9) | 289);

    let recursive = get_recursive_vpn_for_page_table_at_level(vpn, 3);
    assert!(
        recursive.is_none(),
        "Should return None for invalid page table level."
    );
}

#[test]
fn test_get_recursive_vpn_for_page_table_at_level_boundary_values() {
    // Minimum VPN.
    let vpn = VirtualPageNumber(0);

    let recursive = get_recursive_vpn_for_page_table_at_level(vpn, 0).expect(
        "Recursive VPN calculation incorrect for minimum VPN at level 0.",
    );
    assert_eq!(recursive.get_level_2_index(), 511);
    assert_eq!(recursive.get_level_1_index(), 0);
    assert_eq!(recursive.get_level_0_index(), 0);

    let recursive = get_recursive_vpn_for_page_table_at_level(vpn, 1).expect(
        "Recursive VPN calculation incorrect for minimum VPN at level 1.",
    );
    assert_eq!(recursive.get_level_2_index(), 511);
    assert_eq!(recursive.get_level_1_index(), 511);
    assert_eq!(recursive.get_level_0_index(), 0);

    // Maximum VPN: all indices 511.
    let vpn = VirtualPageNumber(((511 as u64) << 18) | ((511 as u64) << 9) | 511);

    let recursive = get_recursive_vpn_for_page_table_at_level(vpn, 0).expect(
        "Recursive VPN calculation incorrect for maximum VPN at level 0.",
    );
    assert_eq!(recursive.get_level_2_index(), 511);
    assert_eq!(recursive.get_level_1_index(), 511);
    assert_eq!(recursive.get_level_0_index(), 511);

    let recursive = get_recursive_vpn_for_page_table_at_level(vpn, 2).expect(
        "Recursive VPN calculation incorrect for maximum VPN at level 2.",
    );
    assert_eq!(recursive.get_level_2_index(), 511);
    assert_eq!(recursive.get_level_1_index(), 511);
    assert_eq!(recursive.get_level_0_index(), 511);
}
