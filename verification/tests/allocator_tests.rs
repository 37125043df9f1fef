use kernel_library::bump_allocator::BumpAllocator;
use kernel_library::memory::{MemoryRegion, PhysicalPageNumber};
use kernel_library::physical_memory_allocator::PhysicalBumpAllocator;

#[test]
fn physical_memory_allocator_test_new_allocator() {
    let regions = vec![
        MemoryRegion::new(0x1000, 0x4000),
        MemoryRegion::new(0x10000, 0x8000),
    ];

    let mut allocator = PhysicalBumpAllocator::new();
    allocator.reset(&regions, regions.len());

    assert_eq!(allocator.region_count(), 2);
    assert_eq!(allocator.current_region_index(), 0);
    assert_eq!(allocator.next_allocation_address(), 0x1000);
    assert_eq!(allocator.total_memory_size(), 0x4000 + 0x8000);
}

#[test]
fn physical_memory_allocator_test_allocate_single_page() {
    let regions = vec![MemoryRegion::new(0x1000, 0x4000)];

    let mut allocator = PhysicalBumpAllocator::new();
    allocator.reset(&regions, regions.len());

    let address = allocator.allocate_page().unwrap();
    assert_eq!(address, 0x1000);
    assert_eq!(allocator.next_allocation_address(), 0x2000);
    assert_eq!(allocator.allocated_memory_size(), 0x1000);
}

#[test]
fn physical_memory_allocator_test_allocate_multiple_pages() {
    let regions = vec![MemoryRegion::new(0x1000, 0x3000)];

    let mut allocator = PhysicalBumpAllocator::new();
    allocator.reset(&regions, regions.len());

    let address1 = allocator.allocate_page().unwrap();
    let address2 = allocator.allocate_page().unwrap();
    let address3 = allocator.allocate_page().unwrap();

    assert_eq!(address1, 0x1000);
    assert_eq!(address2, 0x2000);
    assert_eq!(address3, 0x3000);

    // The region should now be exhausted.
    assert_eq!(allocator.current_region_index(), 1);
}

#[test]
fn physical_memory_allocator_test_allocate_across_regions() {
    let regions = vec![
        MemoryRegion::new(0x1000, 0x1000),  // Just one page.
        MemoryRegion::new(0x10000, 0x2000), // Two pages.
    ];

    let mut allocator = PhysicalBumpAllocator::new();
    allocator.reset(&regions, regions.len());

    // Allocate from the first region.
    let address1 = allocator.allocate_page().unwrap();
    assert_eq!(address1, 0x1000);

    // The first region is now exhausted; the next allocation comes from the
    // second region.
    let address2 = allocator.allocate_page().unwrap();
    assert_eq!(address2, 0x10000);

    let address3 = allocator.allocate_page().unwrap();
    assert_eq!(address3, 0x11000);

    // The second region should now be exhausted.
    assert_eq!(allocator.current_region_index(), 2);
}

#[test]
fn physical_memory_allocator_test_allocate_until_exhausted() {
    let regions = vec![MemoryRegion::new(0x1000, 0x1000)];

    let mut allocator = PhysicalBumpAllocator::new();
    allocator.reset(&regions, regions.len());

    // Allocate the only page.
    let address = allocator.allocate_page().unwrap();
    assert_eq!(address, 0x1000);

    // Try to allocate again: nothing is left.
    assert!(allocator.allocate_page().is_none());
}

#[test]
fn test_available_memory_size_new_allocator() {
    let regions = vec![
        MemoryRegion::new(0x1000, 0x4000),
        MemoryRegion::new(0x10000, 0x8000),
    ];

    let mut allocator = PhysicalBumpAllocator::new();
    allocator.reset(&regions, regions.len());

    // No memory allocated yet, so available equals total.
    assert_eq!(allocator.total_memory_size(), 0xC000);
    assert_eq!(allocator.allocated_memory_size(), 0);
    assert_eq!(allocator.available_memory_size(), 0xC000);
}

#[test]
fn test_available_memory_size_after_allocation() {
    let regions = vec![MemoryRegion::new(0x1000, 0x4000)];

    let mut allocator = PhysicalBumpAllocator::new();
    allocator.reset(&regions, regions.len());

    // Total memory is 0x4000, nothing allocated yet.
    assert_eq!(allocator.available_memory_size(), 0x4000);

    // Allocate one page (0x1000).
    let _address = allocator.allocate_page().unwrap();
    assert_eq!(allocator.allocated_memory_size(), 0x1000);
    assert_eq!(allocator.available_memory_size(), 0x3000);

    // Allocate two more pages (0x2000).
    let _address2 = allocator.allocate_page().unwrap();
    let _address3 = allocator.allocate_page().unwrap();
    assert_eq!(allocator.allocated_memory_size(), 0x3000);
    assert_eq!(allocator.available_memory_size(), 0x1000);
}

#[test]
fn test_available_memory_size_across_regions() {
    let regions = vec![
        MemoryRegion::new(0x1000, 0x1000),  // Just one page.
        MemoryRegion::new(0x10000, 0x2000), // Two pages.
    ];

    let mut allocator = PhysicalBumpAllocator::new();
    allocator.reset(&regions, regions.len());

    // Total memory is 0x1000 + 0x2000 = 0x3000.
    assert_eq!(allocator.total_memory_size(), 0x3000);
    assert_eq!(allocator.available_memory_size(), 0x3000);

    // Allocate from the first region.
    let _address1 = allocator.allocate_page().unwrap();
    assert_eq!(allocator.allocated_memory_size(), 0x1000);
    assert_eq!(allocator.available_memory_size(), 0x2000);

    // Allocate from the second region.
    let _address2 = allocator.allocate_page().unwrap();
    assert_eq!(allocator.allocated_memory_size(), 0x2000);
    assert_eq!(allocator.available_memory_size(), 0x1000);

    // Allocate the final page.
    let _address3 = allocator.allocate_page().unwrap();
    assert_eq!(allocator.allocated_memory_size(), 0x3000);
    assert_eq!(allocator.available_memory_size(), 0);
}

#[test]
fn test_available_memory_size_when_exhausted() {
    let regions = vec![MemoryRegion::new(0x1000, 0x1000)];

    let mut allocator = PhysicalBumpAllocator::new();
    allocator.reset(&regions, regions.len());

    // Initially 0x1000 bytes available.
    assert_eq!(allocator.available_memory_size(), 0x1000);

    // Allocate the only page.
    let _address = allocator.allocate_page().unwrap();

    // No more memory available.
    assert_eq!(allocator.allocated_memory_size(), 0x1000);
    assert_eq!(allocator.available_memory_size(), 0);
    assert!(allocator.allocate_page().is_none());
}

#[test]
fn test_allocations_are_monotonic_and_aligned() {
    // With regions sorted by address, successive allocations return strictly
    // increasing, page-aligned addresses inside the snapshotted regions.
    let regions = vec![
        MemoryRegion::new(0x1000, 0x2000),
        MemoryRegion::new(0x20000, 0x3000),
    ];

    let mut allocator = PhysicalBumpAllocator::new();
    allocator.reset(&regions, regions.len());

    let mut previous: Option<usize> = None;
    loop {
        match allocator.allocate_page() {
            Some(address) => {
                assert_eq!(address % 4096, 0);
                assert!(regions.iter().any(|r| {
                    r.start <= address && address + 4096 <= r.start + r.size
                }));
                if let Some(p) = previous {
                    assert!(address > p);
                }
                previous = Some(address);
            }
            None => break,
        }
    }
}

#[test]
fn test_allocation_count_bounded_by_total_size() {
    // The number of successful allocations is the total size divided by the
    // page size, and the call right after the last success fails.
    let regions = vec![MemoryRegion::new(0x1000, 0x5000)];

    let mut allocator = PhysicalBumpAllocator::new();
    allocator.reset(&regions, regions.len());

    let mut count = 0;
    while allocator.allocate_page().is_some() {
        count += 1;
    }
    assert_eq!(count, 0x5000 / 4096);
    assert!(allocator.allocate_page().is_none());
}

#[test]
fn test_allocated_regions_reports_consumed_memory() {
    let regions = vec![
        MemoryRegion::new(0x1000, 0x1000),
        MemoryRegion::new(0x10000, 0x2000),
    ];

    let mut allocator = PhysicalBumpAllocator::new();
    allocator.reset(&regions, regions.len());

    // Nothing consumed yet.
    assert!(allocator.allocated_regions().is_empty());

    // One page: the first region is fully consumed.
    allocator.allocate_page().unwrap();
    let consumed = allocator.allocated_regions();
    assert_eq!(consumed.len(), 1);
    assert_eq!(consumed[0].start, 0x1000);
    assert_eq!(consumed[0].size, 0x1000);

    // One more page: the second region is partially consumed.
    allocator.allocate_page().unwrap();
    let consumed = allocator.allocated_regions();
    assert_eq!(consumed.len(), 2);
    assert_eq!(consumed[1].start, 0x10000);
    assert_eq!(consumed[1].size, 0x1000);
}

#[test]
fn test_bump_allocator_hands_out_consecutive_pages() {
    let mut allocator = BumpAllocator::new(PhysicalPageNumber(10), PhysicalPageNumber(12));

    assert_eq!(allocator.allocate(), Some(PhysicalPageNumber(10)));
    assert_eq!(allocator.allocate(), Some(PhysicalPageNumber(11)));
    assert_eq!(allocator.allocate(), Some(PhysicalPageNumber(12)));
    assert_eq!(allocator.allocate(), None);
}
