//! Page-number and memory-region primitives shared by the memory map, the
//! physical page allocator and the Sv39 page-table engine.

use vstd::prelude::*;

verus! {

/// Represents a physical page number (PPN).
///
/// This is the top 44 bits of a 56-bit physical address. The structure stores
/// the PPN with bit 0 representing the start of the PPN (the address
/// right-shifted by 12 bits), as it does not include the 12-bit page offset.
#[derive(Debug, Copy, Clone, PartialEq, Eq, Structural)]
pub struct PhysicalPageNumber(pub u64);

impl PhysicalPageNumber {
    /// Get the raw physical page number, that is, the physical address
    /// right-shifted by 12 bits.
    pub fn raw_ppn(&self) -> (r: u64)
        ensures
            r == self.0,
    {
        self.0
    }

    /// Create a new `PhysicalPageNumber` from a physical address. The lower
    /// 12 bits are lost, which is equivalent to rounding the address down to
    /// the nearest 4 KiB boundary.
    pub fn from_physical_address(physical_address: u64) -> (r: Self)
        ensures
            r.0 == physical_address / 4096,
    {
        proof {
            assert(physical_address >> 12 == physical_address / 4096) by (bit_vector);
        }
        Self(physical_address >> 12)
    }

    /// Create a new `PhysicalPageNumber` from a raw physical page number,
    /// typically coming from a page table entry.
    pub fn from_raw_physical_page_number(ppn: u64) -> (r: Self)
        ensures
            r.0 == ppn,
    {
        Self(ppn)
    }

    /// Get the physical address of the first byte of the 4 KiB page this
    /// `PhysicalPageNumber` refers to.
    pub fn to_physical_address(&self) -> (r: u64)
        requires
            self.0 * 4096 <= u64::MAX,
        ensures
            r == self.0 * 4096,
    {
        proof {
            let p = self.0;
            assert(p * 4096 <= u64::MAX ==> (p << 12) == p * 4096) by (bit_vector);
        }
        self.0 << 12
    }
}

/// Represents a virtual page number (VPN).
///
/// This is the top 27 bits of a 39-bit virtual address. The structure stores
/// the VPN with bit 0 representing the start of the VPN (the address
/// right-shifted by 12 bits), as it does not include the 12-bit page offset.
///
/// Only the Sv39 paging mode is supported, where virtual addresses are a
/// total of 39 bits (12-bit page offset + 27-bit VPN).
#[derive(Debug, Copy, Clone, PartialEq, Eq, Structural)]
pub struct VirtualPageNumber(pub u64);

impl VirtualPageNumber {
    /// Get the raw virtual page number, that is, the virtual address
    /// right-shifted by 12 bits.
    pub fn raw_vpn(&self) -> (r: u64)
        ensures
            r == self.0,
    {
        self.0
    }

    /// Create a new `VirtualPageNumber` from a virtual address. The lower 12
    /// bits are lost, which is equivalent to rounding the address down to the
    /// nearest 4 KiB boundary.
    pub fn from_virtual_address(virtual_address: u64) -> (r: Self)
        ensures
            r.0 == virtual_address / 4096,
    {
        proof {
            assert(virtual_address >> 12 == virtual_address / 4096) by (bit_vector);
        }
        Self(virtual_address >> 12)
    }

    /// Create a new `VirtualPageNumber` from a raw virtual page number,
    /// typically coming from a page table index computation.
    pub fn from_raw_virtual_page_number(vpn: u64) -> (r: Self)
        ensures
            r.0 == vpn,
    {
        Self(vpn)
    }

    /// Get the virtual address of the first byte of the 4 KiB page this
    /// `VirtualPageNumber` refers to.
    pub fn to_virtual_address(&self) -> (r: u64)
        requires
            self.0 * 4096 <= u64::MAX,
        ensures
            r == self.0 * 4096,
    {
        proof {
            let v = self.0;
            assert(v * 4096 <= u64::MAX ==> (v << 12) == v * 4096) by (bit_vector);
        }
        self.0 << 12
    }

    /// Get the index into the level 2 (root) page table: bits 26-18 of the
    /// virtual page number.
    pub fn get_level_2_index(&self) -> (r: usize)
        ensures
            r == level_2_index(self.0),
            r < 512,
    {
        proof {
            let v = self.0;
            assert((v >> 18) & 0x1FF < 512) by (bit_vector);
        }
        (((self.0) >> 18) & 0x1FF) as usize
    }

    /// Get the index into the level 1 (middle) page table: bits 17-9 of the
    /// virtual page number.
    pub fn get_level_1_index(&self) -> (r: usize)
        ensures
            r == level_1_index(self.0),
            r < 512,
    {
        proof {
            let v = self.0;
            assert((v >> 9) & 0x1FF < 512) by (bit_vector);
        }
        (((self.0) >> 9) & 0x1FF) as usize
    }

    /// Get the index into the level 0 (leaf) page table: bits 8-0 of the
    /// virtual page number.
    pub fn get_level_0_index(&self) -> (r: usize)
        ensures
            r == level_0_index(self.0),
            r < 512,
    {
        proof {
            let v = self.0;
            assert(v & 0x1FF < 512) by (bit_vector);
        }
        ((self.0) & 0x1FF) as usize
    }
}

/// Index into the level 2 (root) page table for a raw virtual page number.
pub open spec fn level_2_index(vpn: u64) -> usize {
    ((vpn >> 18) & 0x1FF) as usize
}

/// Index into the level 1 (middle) page table for a raw virtual page number.
pub open spec fn level_1_index(vpn: u64) -> usize {
    ((vpn >> 9) & 0x1FF) as usize
}

/// Index into the level 0 (leaf) page table for a raw virtual page number.
pub open spec fn level_0_index(vpn: u64) -> usize {
    (vpn & 0x1FF) as usize
}

/// Represents a contiguous region of physical memory with a starting address
/// and a size in bytes.
#[derive(Debug, Clone, Copy)]
pub struct MemoryRegion {
    /// The inclusive starting address of the memory region.
    pub start: usize,

    /// The size of the memory region in bytes.
    pub size: usize,
}

/// The inclusive end address of a region, or zero for an empty region.
pub open spec fn region_end(r: MemoryRegion) -> int {
    if r.size == 0 {
        0
    } else {
        r.start + r.size - 1
    }
}

/// Whether an address lies inside a region.
pub open spec fn region_contains(r: MemoryRegion, address: int) -> bool {
    r.start <= address < r.start + r.size
}

impl MemoryRegion {
    /// Creates a new memory region with the specified start address and size.
    pub fn new(start: usize, size: usize) -> (r: Self)
        ensures
            r.start == start,
            r.size == size,
    {
        MemoryRegion { start, size }
    }

    /// Creates a new memory region from an inclusive start and an inclusive
    /// end address. If the end address is less than the start address, the
    /// size is set to zero.
    pub fn from_start_and_end(start: usize, end: usize) -> (r: Self)
        requires
            start > 0 || end < usize::MAX,
        ensures
            r.start == start,
            r.size == if end >= start {
                end - start + 1
            } else {
                0
            },
    {
        MemoryRegion { start, size: if end >= start { end - start + 1 } else { 0 } }
    }

    /// Returns the inclusive end address of the memory region, or zero when
    /// the size is zero.
    pub fn end(&self) -> (r: usize)
        requires
            self.size == 0 || self.start + self.size - 1 <= usize::MAX,
        ensures
            r == region_end(*self),
    {
        if self.size == 0 {
            return 0;
        }

        self.start + (self.size - 1)
    }
}

} // verus!
