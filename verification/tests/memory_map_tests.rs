use kernel_library::memory_map::MemoryMap;

#[test]
fn memory_map_test_add_region() {
    let mut memory_map = MemoryMap::new();

    // Add a region starting at 0x1000 with a size of 0x2000.
    memory_map.add_region(0x1000, 0x2000);

    assert_eq!(memory_map.region_count(), 1);
    assert_eq!(memory_map.get_region(0).start, 0x1000);
    assert_eq!(memory_map.get_region(0).size, 0x2000);
}

#[test]
fn test_carve_out_reserved_region_adjacent_to_start_nothing_happens() {
    let mut memory_map = MemoryMap::new();

    // Add a region starting at 0x1000 with a size of 0x2000.
    memory_map.add_region(0x1000, 0x2000);

    // Carve out a reserved region starting at 0x0 with a size of 0x1000.
    memory_map.carve_out_region(0x0, 0x1000);

    assert_eq!(memory_map.region_count(), 1);
    assert_eq!(memory_map.get_region(0).start, 0x1000);
    assert_eq!(memory_map.get_region(0).size, 0x2000);
}

#[test]
fn test_carve_out_reserved_region_adjacent_to_end_nothing_happens() {
    let mut memory_map = MemoryMap::new();

    // Add a region starting at 0x1000 with a size of 0x2000.
    memory_map.add_region(0x1000, 0x2000);

    // Carve out a reserved region starting at 0x3000 with a size of 0x1000.
    memory_map.carve_out_region(0x3000, 0x1000);

    assert_eq!(memory_map.region_count(), 1);
    assert_eq!(memory_map.get_region(0).start, 0x1000);
    assert_eq!(memory_map.get_region(0).size, 0x2000);
}

#[test]
fn memory_map_test_carve_out_region_case_complete_containment() {
    let mut memory_map = MemoryMap::new();

    // Add a region that will be completely reserved.
    memory_map.add_region(4096, 4096);

    // Carve out a reserved region that completely covers the added region.
    memory_map.carve_out_region(4096, 4096);

    // Expect that the memory region is removed.
    assert_eq!(memory_map.region_count(), 0);
}

#[test]
fn memory_map_test_carve_out_region_case_start_overlap() {
    let mut memory_map = MemoryMap::new();

    // Add a region from 4096 with size 8192.
    memory_map.add_region(4096, 8192);

    // Reserved region overlaps the start.
    memory_map.carve_out_region(4096, 4096);

    // Expect the region now starts at 8192 and the new size is 4096.
    assert_eq!(memory_map.region_count(), 1);
    assert_eq!(memory_map.get_region(0).start, 8192);
    assert_eq!(memory_map.get_region(0).size, 4096);
}

#[test]
fn memory_map_test_carve_out_region_case_end_overlap() {
    let mut memory_map = MemoryMap::new();

    // Add a region from 4096 with size 8192.
    memory_map.add_region(4096, 8192);

    // Reserved region overlaps the end.
    memory_map.carve_out_region(8192, 4096);

    // Expect the region remains from 4096 to 8191 (size of 4096).
    assert_eq!(memory_map.region_count(), 1);
    assert_eq!(memory_map.get_region(0).start, 4096);
    assert_eq!(memory_map.get_region(0).size, 4096);
}

#[test]
fn memory_map_test_carve_out_region_case_middle_overlap() {
    let mut memory_map = MemoryMap::new();

    // Add a region from 4096 with size 12288.
    memory_map.add_region(4096, 12288);

    // Reserved region is in the middle.
    memory_map.carve_out_region(8192, 4096);

    // Expect the original region split in two:
    // first region from 4096 to 8191 (4096 bytes),
    // second region from 12288 to 16383 (4096 bytes).
    assert_eq!(memory_map.region_count(), 2);

    assert_eq!(memory_map.get_region(0).start, 4096);
    assert_eq!(memory_map.get_region(0).size, 4096);

    assert_eq!(memory_map.get_region(1).start, 12288);
    assert_eq!(memory_map.get_region(1).size, 4096);
}

#[test]
fn memory_map_test_carve_out_region_no_reserved_size() {
    let mut memory_map = MemoryMap::new();

    // Add a region.
    memory_map.add_region(4096, 4096);

    // Carve out a reserved region of size 0.
    memory_map.carve_out_region(4096, 0);

    // Expect no changes.
    assert_eq!(memory_map.region_count(), 1);
    assert_eq!(memory_map.get_region(0).start, 4096);
    assert_eq!(memory_map.get_region(0).size, 4096);
}

#[test]
fn test_carve_out_multiple_regions_stay_disjoint() {
    // Two disjoint regions; a carve that splits the first leaves three
    // pairwise disjoint regions, with the split-off tail at the end.
    let mut memory_map = MemoryMap::new();
    memory_map.add_region(0x1000, 0x5000);
    memory_map.add_region(0x10000, 0x2000);

    memory_map.carve_out_region(0x2000, 0x1000);

    assert_eq!(memory_map.region_count(), 3);
    assert_eq!(memory_map.get_region(0).start, 0x1000);
    assert_eq!(memory_map.get_region(0).size, 0x1000);
    assert_eq!(memory_map.get_region(1).start, 0x10000);
    assert_eq!(memory_map.get_region(1).size, 0x2000);
    assert_eq!(memory_map.get_region(2).start, 0x3000);
    assert_eq!(memory_map.get_region(2).size, 0x3000);

    // Pairwise disjointness of everything that is left.
    let regions = memory_map.walk_regions();
    for i in 0..regions.len() {
        for j in 0..regions.len() {
            if i != j {
                let a = regions[i];
                let b = regions[j];
                assert!(a.start + a.size <= b.start || b.start + b.size <= a.start);
            }
        }
    }
}

#[test]
fn test_carve_out_sizes_account_for_intersection() {
    // The sizes after a middle carve plus the carved range add up to the
    // original size.
    let mut memory_map = MemoryMap::new();
    memory_map.add_region(0x1000, 0x3000);
    memory_map.carve_out_region(0x2000, 0x1000);

    assert_eq!(memory_map.region_count(), 2);
    let total: usize = (0..memory_map.region_count())
        .map(|i| memory_map.get_region(i).size)
        .sum();
    assert_eq!(total + 0x1000, 0x3000);
}

#[test]
fn test_walk_regions_returns_insertion_order() {
    let mut memory_map = MemoryMap::new();
    memory_map.add_region(0x5000, 0x1000);
    memory_map.add_region(0x1000, 0x1000);

    let regions = memory_map.walk_regions();
    assert_eq!(regions.len(), 2);
    assert_eq!(regions[0].start, 0x5000);
    assert_eq!(regions[1].start, 0x1000);
}
