use kernel_library::memory::{MemoryRegion, PhysicalPageNumber, VirtualPageNumber};

#[test]
fn mod_test_raw_ppn() {
    // Standard case.
    let ppn = PhysicalPageNumber(0x1234_5678);
    assert_eq!(ppn.raw_ppn(), 0x1234_5678);

    // Zero value.
    let ppn = PhysicalPageNumber(0);
    assert_eq!(ppn.raw_ppn(), 0);

    // Maximum 44-bit value.
    let max_ppn = 0x0FFF_FFFF_FFFF;
    let ppn = PhysicalPageNumber(max_ppn);
    assert_eq!(ppn.raw_ppn(), max_ppn);
}

#[test]
fn mod_test_from_physical_address() {
    // Standard case.
    let physical_addr: u64 = 0x8020_1000;
    let ppn = PhysicalPageNumber::from_physical_address(physical_addr);
    assert_eq!(ppn.0, physical_addr >> 12);

    // Address with page offset.
    let physical_addr_with_offset: u64 = 0x8020_1ABC;
    let ppn = PhysicalPageNumber::from_physical_address(physical_addr_with_offset);
    assert_eq!(ppn.0, 0x8020_1);

    // Zero address.
    let ppn = PhysicalPageNumber::from_physical_address(0);
    assert_eq!(ppn.0, 0);

    // Maximum physical address (56 bits).
    let max_physical_addr: u64 = 0x00FF_FFFF_FFFF_FFFF;
    let ppn = PhysicalPageNumber::from_physical_address(max_physical_addr);
    assert_eq!(ppn.0, max_physical_addr >> 12);
}

#[test]
fn mod_test_from_raw_physical_page_number() {
    // Standard case.
    let raw_ppn = 0x1234_5678;
    let ppn = PhysicalPageNumber::from_raw_physical_page_number(raw_ppn);
    assert_eq!(ppn.0, raw_ppn);

    // Zero value.
    let ppn = PhysicalPageNumber::from_raw_physical_page_number(0);
    assert_eq!(ppn.0, 0);

    // Maximum 44-bit PPN.
    let max_ppn = 0x0FFF_FFFF_FFFF;
    let ppn = PhysicalPageNumber::from_raw_physical_page_number(max_ppn);
    assert_eq!(ppn.0, max_ppn);
}

#[test]
fn mod_test_to_physical_address() {
    // Standard case.
    let ppn = PhysicalPageNumber(0x1234);
    assert_eq!(ppn.to_physical_address(), 0x1234 << 12);

    // Zero PPN.
    let ppn = PhysicalPageNumber(0);
    assert_eq!(ppn.to_physical_address(), 0);

    // Maximum 44-bit PPN.
    let max_ppn: u64 = 0x0FFF_FFFF_FFFF;
    let ppn = PhysicalPageNumber(max_ppn);
    assert_eq!(ppn.to_physical_address(), max_ppn << 12);

    // Verify round-trip conversion.
    let original_addr: u64 = 0x8000_0000;
    let page_aligned_addr = original_addr & !0xFFF;
    let ppn = PhysicalPageNumber::from_physical_address(original_addr);
    assert_eq!(ppn.to_physical_address(), page_aligned_addr);
}

#[test]
fn mod_test_conversions_round_trip() {
    // Round trip from physical address to PPN and back.
    let addresses: [u64; 4] = [
        0x0000_1000,
        0x8020_3000,
        0xFFFF_F000,
        0x00FF_FFFF_FFFF_F000,
    ];

    for addr in addresses.iter() {
        let ppn = PhysicalPageNumber::from_physical_address(*addr);
        let recovered_addr = ppn.to_physical_address();
        assert_eq!(recovered_addr, *addr & !0xFFF);
    }

    // Round trip from virtual address to VPN and back.
    let virtual_addresses: [u64; 3] = [0x0000_1000, 0x8020_3000, 0x7FFF_F000];

    for addr in virtual_addresses.iter() {
        let vpn = VirtualPageNumber::from_virtual_address(*addr);
        let recovered_addr = vpn.to_virtual_address();
        assert_eq!(recovered_addr, *addr & !0xFFF);
    }
}

#[test]
fn mod_test_raw_vpn() {
    // Standard case.
    let vpn = VirtualPageNumber(0x1234_5678);
    assert_eq!(vpn.raw_vpn(), 0x1234_5678);

    // Zero value.
    let vpn = VirtualPageNumber(0);
    assert_eq!(vpn.raw_vpn(), 0);

    // Maximum 27-bit value.
    let max_vpn = 0x0777_FFFF;
    let vpn = VirtualPageNumber(max_vpn);
    assert_eq!(vpn.raw_vpn(), max_vpn);
}

#[test]
fn mod_test_from_virtual_address() {
    // Standard case.
    let virtual_addr: u64 = 0x8020_1000;
    let vpn = VirtualPageNumber::from_virtual_address(virtual_addr);
    assert_eq!(vpn.0, virtual_addr >> 12);

    // Address with page offset.
    let virtual_addr_with_offset: u64 = 0x8020_1ABC;
    let vpn = VirtualPageNumber::from_virtual_address(virtual_addr_with_offset);
    assert_eq!(vpn.0, 0x8020_1);

    // Zero address.
    let vpn = VirtualPageNumber::from_virtual_address(0);
    assert_eq!(vpn.0, 0);

    // Maximum sv39 virtual address (sign extended 39 bits).
    let max_virtual_addr: u64 = 0x0000_007F_FFFF_FFFF;
    let vpn = VirtualPageNumber::from_virtual_address(max_virtual_addr);
    assert_eq!(vpn.0, max_virtual_addr >> 12);
}

#[test]
fn mod_test_from_raw_virtual_page_number() {
    // Standard case.
    let raw_vpn = 0x0123_4567;
    let vpn = VirtualPageNumber::from_raw_virtual_page_number(raw_vpn);
    assert_eq!(vpn.0, raw_vpn);

    // Zero value.
    let vpn = VirtualPageNumber::from_raw_virtual_page_number(0);
    assert_eq!(vpn.0, 0);

    // Maximum 27-bit VPN.
    let max_vpn = 0x0777_FFFF;
    let vpn = VirtualPageNumber::from_raw_virtual_page_number(max_vpn);
    assert_eq!(vpn.0, max_vpn);
}

#[test]
fn mod_test_to_virtual_address() {
    // Standard case.
    let vpn = VirtualPageNumber(0x1234);
    assert_eq!(vpn.to_virtual_address(), 0x1234 << 12);

    // Zero VPN.
    let vpn = VirtualPageNumber(0);
    assert_eq!(vpn.to_virtual_address(), 0);

    // Maximum 27-bit VPN.
    let max_vpn: u64 = 0x0777_FFFF;
    let vpn = VirtualPageNumber(max_vpn);
    assert_eq!(vpn.to_virtual_address(), max_vpn << 12);
}

#[test]
fn mod_test_page_table_indices() {
    // VPN with maximum values in each field.
    let vpn = VirtualPageNumber((0x1FF << 18) | (0x1FF << 9) | 0x1FF);
    assert_eq!(vpn.get_level_2_index(), 0x1FF);
    assert_eq!(vpn.get_level_1_index(), 0x1FF);
    assert_eq!(vpn.get_level_0_index(), 0x1FF);

    // Zero VPN.
    let vpn = VirtualPageNumber(0);
    assert_eq!(vpn.get_level_2_index(), 0);
    assert_eq!(vpn.get_level_1_index(), 0);
    assert_eq!(vpn.get_level_0_index(), 0);

    // VPN with specific bit patterns.
    let vpn = VirtualPageNumber(0b110_101010_111000111_101010101);
    assert_eq!(vpn.get_level_2_index(), 0b110_101010);
    assert_eq!(vpn.get_level_1_index(), 0b111000111);
    assert_eq!(vpn.get_level_0_index(), 0b101010101);
}

#[test]
fn test_new() {
    // Standard case.
    let region = MemoryRegion::new(0x8000_0000, 0x0200_0000);
    assert_eq!(region.start, 0x8000_0000);
    assert_eq!(region.size, 0x0200_0000);

    // Zero size.
    let region = MemoryRegion::new(0x8000_0000, 0);
    assert_eq!(region.start, 0x8000_0000);
    assert_eq!(region.size, 0);

    // Zero start.
    let region = MemoryRegion::new(0, 0x1000);
    assert_eq!(region.start, 0);
    assert_eq!(region.size, 0x1000);
}

#[test]
fn test_from_start_and_end() {
    // Standard case.
    let region = MemoryRegion::from_start_and_end(0x8000_0000, 0x81FF_FFFF);
    assert_eq!(region.start, 0x8000_0000);
    assert_eq!(region.size, 0x0200_0000);

    // Same start and end (single byte region).
    let region = MemoryRegion::from_start_and_end(0x8000_0000, 0x8000_0000);
    assert_eq!(region.start, 0x8000_0000);
    assert_eq!(region.size, 1);

    // End address less than start address.
    let region = MemoryRegion::from_start_and_end(0x8000_0000, 0x7FFF_FFFF);
    assert_eq!(region.start, 0x8000_0000);
    assert_eq!(region.size, 0);
}

#[test]
fn test_end() {
    // Standard case.
    let region = MemoryRegion::new(0x8000_0000, 0x0200_0000);
    assert_eq!(region.end(), 0x81FF_FFFF);

    // Zero size.
    let region = MemoryRegion::new(0x8000_0000, 0);
    assert_eq!(region.end(), 0);

    // Single byte region.
    let region = MemoryRegion::new(0x8000_0000, 1);
    assert_eq!(region.end(), 0x8000_0000);
}

#[test]
fn test_consistency() {
    // Creating a region from start and end and reading the end address
    // returns the original end.
    let start = 0x8000_0000;
    let end = 0x81FF_FFFF;
    let region = MemoryRegion::from_start_and_end(start, end);
    assert_eq!(region.end(), end);

    // Creating a region with new is consistent with its size.
    let start = 0x8000_0000;
    let size = 0x0200_0000;
    let region = MemoryRegion::new(start, size);
    assert_eq!(region.end(), start + size - 1);
}
