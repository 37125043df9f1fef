//! Sv39 page-table data model and algorithms.
//!
//! A page table holds 512 64-bit entries. An entry is valid when its V bit
//! is set and is a leaf when, in addition, at least one of the R, W or X
//! permission bits is set; a valid non-leaf entry points to a page table one
//! level further down. The 44-bit physical page number of the target sits in
//! bits 10 through 53.

use vstd::prelude::*;

use crate::memory::{level_0_index, level_1_index, level_2_index, PhysicalPageNumber,
    VirtualPageNumber};
use crate::memory_map::{regions_disjoint, regions_overlap};
use crate::physical_memory_allocator::{allocate_page_step, allocated_size,
    lemma_allocate_page_exhaustion, lemma_allocated_le_total, sum_region_sizes,
    PhysicalBumpAllocator};

verus! {

/// The V bit of a raw page table entry.
pub open spec fn pte_valid(e: u64) -> bool {
    e & 0x1 != 0
}

/// The R bit of a raw page table entry.
pub open spec fn pte_readable(e: u64) -> bool {
    e & 0x2 != 0
}

/// The W bit of a raw page table entry.
pub open spec fn pte_writable(e: u64) -> bool {
    e & 0x4 != 0
}

/// The X bit of a raw page table entry.
pub open spec fn pte_executable(e: u64) -> bool {
    e & 0x8 != 0
}

/// The U bit of a raw page table entry.
pub open spec fn pte_user(e: u64) -> bool {
    e & 0x10 != 0
}

/// The G bit of a raw page table entry.
pub open spec fn pte_global(e: u64) -> bool {
    e & 0x20 != 0
}

/// The A bit of a raw page table entry.
pub open spec fn pte_accessed(e: u64) -> bool {
    e & 0x40 != 0
}

/// The D bit of a raw page table entry.
pub open spec fn pte_dirty(e: u64) -> bool {
    e & 0x80 != 0
}

/// The 44-bit physical page number held in bits 10-53 of a raw entry.
pub open spec fn pte_ppn(e: u64) -> u64 {
    (e >> 10) & 0xFFF_FFFF_FFFF
}

/// A valid entry with at least one permission bit: it maps a page rather
/// than pointing at a further table.
pub open spec fn pte_leaf(e: u64) -> bool {
    pte_valid(e) && (pte_readable(e) || pte_writable(e) || pte_executable(e))
}

/// A valid entry without permission bits: it points at a page table one
/// level further down.
pub open spec fn pte_branch(e: u64) -> bool {
    pte_valid(e) && !pte_leaf(e)
}

/// A single 64-bit Sv39 page table entry.
#[derive(Copy, Clone)]
pub struct PageTableEntry(u64);

impl View for PageTableEntry {
    type V = u64;

    closed spec fn view(&self) -> u64 {
        self.0
    }
}

impl PageTableEntry {
    /// A cleared (invalid) entry.
    pub fn new() -> (r: Self)
        ensures
            r@ == 0u64,
    {
        Self(0)
    }

    /// Reset the entry to zero, making it invalid.
    pub fn clear(&mut self)
        ensures
            final(self)@ == 0u64,
    {
        self.0 = 0;
    }

    /// Whether the V bit is set.
    pub fn is_valid(&self) -> (r: bool)
        ensures
            r == pte_valid(self@),
    {
        self.0 & 0x1 != 0
    }

    /// Set or clear the V bit, leaving every other field unchanged.
    pub fn set_valid(&mut self, valid: bool)
        ensures
            pte_valid(final(self)@) == valid,
            pte_readable(final(self)@) == pte_readable(old(self)@),
            pte_writable(final(self)@) == pte_writable(old(self)@),
            pte_executable(final(self)@) == pte_executable(old(self)@),
            pte_user(final(self)@) == pte_user(old(self)@),
            pte_global(final(self)@) == pte_global(old(self)@),
            pte_accessed(final(self)@) == pte_accessed(old(self)@),
            pte_dirty(final(self)@) == pte_dirty(old(self)@),
            pte_ppn(final(self)@) == pte_ppn(old(self)@),
    {
        let ghost o = self.0;
        if valid {
            self.0 = self.0 | 0x1;
        } else {
            self.0 = self.0 & !0x1;
        }
        proof {
            let n = self.0;
            assert((pte_valid(n) == valid) && pte_readable(n) == pte_readable(o) && pte_writable(n)
                == pte_writable(o) && pte_executable(n) == pte_executable(o) && pte_user(n)
                == pte_user(o) && pte_global(n) == pte_global(o) && pte_accessed(n)
                == pte_accessed(o) && pte_dirty(n) == pte_dirty(o) && pte_ppn(n) == pte_ppn(o))
                by (bit_vector)
                requires
                    n == if valid {
                        o | 0x1
                    } else {
                        o & !0x1
                    },
            ;
        }
    }

    /// Whether the R bit is set.
    pub fn is_readable(&self) -> (r: bool)
        ensures
            r == pte_readable(self@),
    {
        self.0 & 0x2 != 0
    }

    /// Set or clear the R bit, leaving every other field unchanged.
    pub fn set_readable(&mut self, readable: bool)
        ensures
            pte_readable(final(self)@) == readable,
            pte_valid(final(self)@) == pte_valid(old(self)@),
            pte_writable(final(self)@) == pte_writable(old(self)@),
            pte_executable(final(self)@) == pte_executable(old(self)@),
            pte_user(final(self)@) == pte_user(old(self)@),
            pte_global(final(self)@) == pte_global(old(self)@),
            pte_accessed(final(self)@) == pte_accessed(old(self)@),
            pte_dirty(final(self)@) == pte_dirty(old(self)@),
            pte_ppn(final(self)@) == pte_ppn(old(self)@),
    {
        let ghost o = self.0;
        if readable {
            self.0 = self.0 | 0x2;
        } else {
            self.0 = self.0 & !0x2;
        }
        proof {
            let n = self.0;
            assert((pte_readable(n) == readable) && pte_valid(n) == pte_valid(o) && pte_writable(n)
                == pte_writable(o) && pte_executable(n) == pte_executable(o) && pte_user(n)
                == pte_user(o) && pte_global(n) == pte_global(o) && pte_accessed(n)
                == pte_accessed(o) && pte_dirty(n) == pte_dirty(o) && pte_ppn(n) == pte_ppn(o))
                by (bit_vector)
                requires
                    n == if readable {
                        o | 0x2
                    } else {
                        o & !0x2
                    },
            ;
        }
    }

    /// Whether the W bit is set.
    pub fn is_writable(&self) -> (r: bool)
        ensures
            r == pte_writable(self@),
    {
        self.0 & 0x4 != 0
    }

    /// Set or clear the W bit, leaving every other field unchanged.
    pub fn set_writable(&mut self, writable: bool)
        ensures
            pte_writable(final(self)@) == writable,
            pte_valid(final(self)@) == pte_valid(old(self)@),
            pte_readable(final(self)@) == pte_readable(old(self)@),
            pte_executable(final(self)@) == pte_executable(old(self)@),
            pte_user(final(self)@) == pte_user(old(self)@),
            pte_global(final(self)@) == pte_global(old(self)@),
            pte_accessed(final(self)@) == pte_accessed(old(self)@),
            pte_dirty(final(self)@) == pte_dirty(old(self)@),
            pte_ppn(final(self)@) == pte_ppn(old(self)@),
    {
        let ghost o = self.0;
        if writable {
            self.0 = self.0 | 0x4;
        } else {
            self.0 = self.0 & !0x4;
        }
        proof {
            let n = self.0;
            assert((pte_writable(n) == writable) && pte_valid(n) == pte_valid(o) && pte_readable(n)
                == pte_readable(o) && pte_executable(n) == pte_executable(o) && pte_user(n)
                == pte_user(o) && pte_global(n) == pte_global(o) && pte_accessed(n)
                == pte_accessed(o) && pte_dirty(n) == pte_dirty(o) && pte_ppn(n) == pte_ppn(o))
                by (bit_vector)
                requires
                    n == if writable {
                        o | 0x4
                    } else {
                        o & !0x4
                    },
            ;
        }
    }

    /// Whether the X bit is set.
    pub fn is_executable(&self) -> (r: bool)
        ensures
            r == pte_executable(self@),
    {
        self.0 & 0x8 != 0
    }

    /// Set or clear the X bit, leaving every other field unchanged.
    pub fn set_executable(&mut self, executable: bool)
        ensures
            pte_executable(final(self)@) == executable,
            pte_valid(final(self)@) == pte_valid(old(self)@),
            pte_readable(final(self)@) == pte_readable(old(self)@),
            pte_writable(final(self)@) == pte_writable(old(self)@),
            pte_user(final(self)@) == pte_user(old(self)@),
            pte_global(final(self)@) == pte_global(old(self)@),
            pte_accessed(final(self)@) == pte_accessed(old(self)@),
            pte_dirty(final(self)@) == pte_dirty(old(self)@),
            pte_ppn(final(self)@) == pte_ppn(old(self)@),
    {
        let ghost o = self.0;
        if executable {
            self.0 = self.0 | 0x8;
        } else {
            self.0 = self.0 & !0x8;
        }
        proof {
            let n = self.0;
            assert((pte_executable(n) == executable) && pte_valid(n) == pte_valid(o)
                && pte_readable(n) == pte_readable(o) && pte_writable(n) == pte_writable(o)
                && pte_user(n) == pte_user(o) && pte_global(n) == pte_global(o) && pte_accessed(n)
                == pte_accessed(o) && pte_dirty(n) == pte_dirty(o) && pte_ppn(n) == pte_ppn(o))
                by (bit_vector)
                requires
                    n == if executable {
                        o | 0x8
                    } else {
                        o & !0x8
                    },
            ;
        }
    }

    /// Whether the U bit is set.
    pub fn is_user(&self) -> (r: bool)
        ensures
            r == pte_user(self@),
    {
        self.0 & 0x10 != 0
    }

    /// Set or clear the U bit, leaving every other field unchanged.
    pub fn set_user(&mut self, user: bool)
        ensures
            pte_user(final(self)@) == user,
            pte_valid(final(self)@) == pte_valid(old(self)@),
            pte_readable(final(self)@) == pte_readable(old(self)@),
            pte_writable(final(self)@) == pte_writable(old(self)@),
            pte_executable(final(self)@) == pte_executable(old(self)@),
            pte_global(final(self)@) == pte_global(old(self)@),
            pte_accessed(final(self)@) == pte_accessed(old(self)@),
            pte_dirty(final(self)@) == pte_dirty(old(self)@),
            pte_ppn(final(self)@) == pte_ppn(old(self)@),
    {
        let ghost o = self.0;
        if user {
            self.0 = self.0 | 0x10;
        } else {
            self.0 = self.0 & !0x10;
        }
        proof {
            let n = self.0;
            assert((pte_user(n) == user) && pte_valid(n) == pte_valid(o) && pte_readable(n)
                == pte_readable(o) && pte_writable(n) == pte_writable(o) && pte_executable(n)
                == pte_executable(o) && pte_global(n) == pte_global(o) && pte_accessed(n)
                == pte_accessed(o) && pte_dirty(n) == pte_dirty(o) && pte_ppn(n) == pte_ppn(o))
                by (bit_vector)
                requires
                    n == if user {
                        o | 0x10
                    } else {
                        o & !0x10
                    },
            ;
        }
    }

    /// Whether the G bit is set.
    pub fn is_global(&self) -> (r: bool)
        ensures
            r == pte_global(self@),
    {
        self.0 & 0x20 != 0
    }

    /// Set or clear the G bit, leaving every other field unchanged.
    pub fn set_global(&mut self, global: bool)
        ensures
            pte_global(final(self)@) == global,
            pte_valid(final(self)@) == pte_valid(old(self)@),
            pte_readable(final(self)@) == pte_readable(old(self)@),
            pte_writable(final(self)@) == pte_writable(old(self)@),
            pte_executable(final(self)@) == pte_executable(old(self)@),
            pte_user(final(self)@) == pte_user(old(self)@),
            pte_accessed(final(self)@) == pte_accessed(old(self)@),
            pte_dirty(final(self)@) == pte_dirty(old(self)@),
            pte_ppn(final(self)@) == pte_ppn(old(self)@),
    {
        let ghost o = self.0;
        if global {
            self.0 = self.0 | 0x20;
        } else {
            self.0 = self.0 & !0x20;
        }
        proof {
            let n = self.0;
            assert((pte_global(n) == global) && pte_valid(n) == pte_valid(o) && pte_readable(n)
                == pte_readable(o) && pte_writable(n) == pte_writable(o) && pte_executable(n)
                == pte_executable(o) && pte_user(n) == pte_user(o) && pte_accessed(n)
                == pte_accessed(o) && pte_dirty(n) == pte_dirty(o) && pte_ppn(n) == pte_ppn(o))
                by (bit_vector)
                requires
                    n == if global {
                        o | 0x20
                    } else {
                        o & !0x20
                    },
            ;
        }
    }

    /// Whether the A bit is set.
    pub fn is_accessed(&self) -> (r: bool)
        ensures
            r == pte_accessed(self@),
    {
        self.0 & 0x40 != 0
    }

    /// Set or clear the A bit, leaving every other field unchanged.
    pub fn set_accessed(&mut self, accessed: bool)
        ensures
            pte_accessed(final(self)@) == accessed,
            pte_valid(final(self)@) == pte_valid(old(self)@),
            pte_readable(final(self)@) == pte_readable(old(self)@),
            pte_writable(final(self)@) == pte_writable(old(self)@),
            pte_executable(final(self)@) == pte_executable(old(self)@),
            pte_user(final(self)@) == pte_user(old(self)@),
            pte_global(final(self)@) == pte_global(old(self)@),
            pte_dirty(final(self)@) == pte_dirty(old(self)@),
            pte_ppn(final(self)@) == pte_ppn(old(self)@),
    {
        let ghost o = self.0;
        if accessed {
            self.0 = self.0 | 0x40;
        } else {
            self.0 = self.0 & !0x40;
        }
        proof {
            let n = self.0;
            assert((pte_accessed(n) == accessed) && pte_valid(n) == pte_valid(o) && pte_readable(n)
                == pte_readable(o) && pte_writable(n) == pte_writable(o) && pte_executable(n)
                == pte_executable(o) && pte_user(n) == pte_user(o) && pte_global(n) == pte_global(
                o,
            ) && pte_dirty(n) == pte_dirty(o) && pte_ppn(n) == pte_ppn(o)) by (bit_vector)
                requires
                    n == if accessed {
                        o | 0x40
                    } else {
                        o & !0x40
                    },
            ;
        }
    }

    /// Whether the D bit is set.
    pub fn is_dirty(&self) -> (r: bool)
        ensures
            r == pte_dirty(self@),
    {
        self.0 & 0x80 != 0
    }

    /// Set or clear the D bit, leaving every other field unchanged.
    pub fn set_dirty(&mut self, dirty: bool)
        ensures
            pte_dirty(final(self)@) == dirty,
            pte_valid(final(self)@) == pte_valid(old(self)@),
            pte_readable(final(self)@) == pte_readable(old(self)@),
            pte_writable(final(self)@) == pte_writable(old(self)@),
            pte_executable(final(self)@) == pte_executable(old(self)@),
            pte_user(final(self)@) == pte_user(old(self)@),
            pte_global(final(self)@) == pte_global(old(self)@),
            pte_accessed(final(self)@) == pte_accessed(old(self)@),
            pte_ppn(final(self)@) == pte_ppn(old(self)@),
    {
        let ghost o = self.0;
        if dirty {
            self.0 = self.0 | 0x80;
        } else {
            self.0 = self.0 & !0x80;
        }
        proof {
            let n = self.0;
            assert((pte_dirty(n) == dirty) && pte_valid(n) == pte_valid(o) && pte_readable(n)
                == pte_readable(o) && pte_writable(n) == pte_writable(o) && pte_executable(n)
                == pte_executable(o) && pte_user(n) == pte_user(o) && pte_global(n) == pte_global(
                o,
            ) && pte_accessed(n) == pte_accessed(o) && pte_ppn(n) == pte_ppn(o)) by (bit_vector)
                requires
                    n == if dirty {
                        o | 0x80
                    } else {
                        o & !0x80
                    },
            ;
        }
    }

    /// Apply a flag bundle: set or clear the R, W, X, U and G bits at once,
    /// leaving the V, A, D bits and the physical page number unchanged.
    pub fn set_flags(&mut self, flags: &PageTableEntryFlags)
        ensures
            pte_readable(final(self)@) == flags.readable,
            pte_writable(final(self)@) == flags.writable,
            pte_executable(final(self)@) == flags.executable,
            pte_user(final(self)@) == flags.user,
            pte_global(final(self)@) == flags.global,
            pte_valid(final(self)@) == pte_valid(old(self)@),
            pte_accessed(final(self)@) == pte_accessed(old(self)@),
            pte_dirty(final(self)@) == pte_dirty(old(self)@),
            pte_ppn(final(self)@) == pte_ppn(old(self)@),
    {
        self.set_readable(flags.readable);
        self.set_writable(flags.writable);
        self.set_executable(flags.executable);
        self.set_user(flags.user);
        self.set_global(flags.global);
    }

    /// The physical page number held in the entry.
    pub fn get_ppn(&self) -> (r: PhysicalPageNumber)
        ensures
            r.0 == pte_ppn(self@),
    {
        PhysicalPageNumber((self.0 >> 10) & 0x0000_0FFF_FFFF_FFFF)
    }

    /// Store a physical page number in bits 10-53, truncated to 44 bits,
    /// leaving all flag bits unchanged.
    pub fn set_ppn(&mut self, ppn: PhysicalPageNumber)
        ensures
            pte_ppn(final(self)@) == ppn.0 & 0xFFF_FFFF_FFFF,
            pte_valid(final(self)@) == pte_valid(old(self)@),
            pte_readable(final(self)@) == pte_readable(old(self)@),
            pte_writable(final(self)@) == pte_writable(old(self)@),
            pte_executable(final(self)@) == pte_executable(old(self)@),
            pte_user(final(self)@) == pte_user(old(self)@),
            pte_global(final(self)@) == pte_global(old(self)@),
            pte_accessed(final(self)@) == pte_accessed(old(self)@),
            pte_dirty(final(self)@) == pte_dirty(old(self)@),
    {
        let ghost o = self.0;
        let p = ppn.0;
        self.0 = (self.0 & !0x003F_FFFF_FFFF_FC00) | ((ppn.0 & 0x0000_0FFF_FFFF_FFFF) << 10);
        proof {
            let n = self.0;
            assert((pte_ppn(n) == p & 0xFFF_FFFF_FFFF) && pte_valid(n) == pte_valid(o)
                && pte_readable(n) == pte_readable(o) && pte_writable(n) == pte_writable(o)
                && pte_executable(n) == pte_executable(o) && pte_user(n) == pte_user(o)
                && pte_global(n) == pte_global(o) && pte_accessed(n) == pte_accessed(o)
                && pte_dirty(n) == pte_dirty(o)) by (bit_vector)
                requires
                    n == (o & !0x003F_FFFF_FFFF_FC00) | ((p & 0x0000_0FFF_FFFF_FFFF) << 10),
            ;
        }
    }

    /// Whether the entry is a leaf: valid with at least one of the R, W or X
    /// bits set.
    pub fn is_leaf(&self) -> (r: bool)
        ensures
            r == pte_leaf(self@),
    {
        self.is_valid() && (self.is_readable() || self.is_writable() || self.is_executable())
    }
}

/// The permission and attribute bits applied to a new mapping.
#[derive(Debug, Clone)]
pub struct PageTableEntryFlags {
    pub readable: bool,
    pub writable: bool,
    pub executable: bool,
    pub user: bool,
    pub global: bool,
}

impl Default for PageTableEntryFlags {
    /// A flag bundle with every bit cleared.
    fn default() -> (r: Self)
        ensures
            !r.readable && !r.writable && !r.executable && !r.user && !r.global,
    {
        PageTableEntryFlags {
            readable: false,
            writable: false,
            executable: false,
            user: false,
            global: false,
        }
    }
}

impl PageTableEntryFlags {
    pub fn get_readable(&self) -> (r: bool)
        ensures
            r == self.readable,
    {
        self.readable
    }

    pub fn set_readable(&mut self, readable: bool)
        ensures
            *final(self) == (PageTableEntryFlags { readable, ..*old(self) }),
    {
        self.readable = readable;
    }

    pub fn get_writable(&self) -> (r: bool)
        ensures
            r == self.writable,
    {
        self.writable
    }

    pub fn set_writable(&mut self, writable: bool)
        ensures
            *final(self) == (PageTableEntryFlags { writable, ..*old(self) }),
    {
        self.writable = writable;
    }

    pub fn get_executable(&self) -> (r: bool)
        ensures
            r == self.executable,
    {
        self.executable
    }

    pub fn set_executable(&mut self, executable: bool)
        ensures
            *final(self) == (PageTableEntryFlags { executable, ..*old(self) }),
    {
        self.executable = executable;
    }

    pub fn get_user(&self) -> (r: bool)
        ensures
            r == self.user,
    {
        self.user
    }

    pub fn set_user(&mut self, user: bool)
        ensures
            *final(self) == (PageTableEntryFlags { user, ..*old(self) }),
    {
        self.user = user;
    }

    pub fn get_global(&self) -> (r: bool)
        ensures
            r == self.global,
    {
        self.global
    }

    pub fn set_global(&mut self, global: bool)
        ensures
            *final(self) == (PageTableEntryFlags { global, ..*old(self) }),
    {
        self.global = global;
    }
}

/// One Sv39 page table: 512 entries covering one translation level.
#[derive(Clone)]
pub struct PageTable {
    entries: Vec<PageTableEntry>,
}

impl View for PageTable {
    type V = Seq<u64>;

    closed spec fn view(&self) -> Seq<u64> {
        self.entries@.map(|i: int, e: PageTableEntry| e@)
    }
}

impl PageTable {
    /// A page table always holds exactly 512 entries.
    pub open spec fn wf(&self) -> bool {
        self@.len() == 512
    }

    /// Create a new page table with all entries cleared to zero (invalid).
    pub fn new() -> (r: Self)
        ensures
            r.wf(),
            forall|i: int| 0 <= i < 512 ==> r@[i] == 0u64,
    {
        let mut entries: Vec<PageTableEntry> = Vec::new();
        let mut i: usize = 0;
        while i < 512
            invariant
                i <= 512,
                entries@.len() == i,
                forall|j: int| 0 <= j < i ==> (#[trigger] entries@[j])@ == 0u64,
            decreases 512 - i,
        {
            entries.push(PageTableEntry::new());
            i = i + 1;
        }
        PageTable { entries }
    }

    /// Reset every entry of the table to zero (invalid).
    pub fn clear(&mut self)
        requires
            old(self).wf(),
        ensures
            final(self).wf(),
            forall|i: int| 0 <= i < 512 ==> final(self)@[i] == 0u64,
    {
        let mut i: usize = 0;
        while i < 512
            invariant
                i <= 512,
                self.entries@.len() == 512,
                forall|j: int| 0 <= j < i ==> (#[trigger] self.entries@[j])@ == 0u64,
            decreases 512 - i,
        {
            self.entries[i] = PageTableEntry::new();
            i = i + 1;
        }
    }

    /// The entry at the given index.
    pub fn get_entry(&self, index: usize) -> (r: PageTableEntry)
        requires
            self.wf(),
            index < 512,
        ensures
            r@ == self@[index as int],
    {
        self.entries[index]
    }

    /// Store an entry at the given index.
    pub fn set_entry(&mut self, index: usize, entry: PageTableEntry)
        requires
            old(self).wf(),
            index < 512,
        ensures
            final(self).wf(),
            final(self)@ == old(self)@.update(index as int, entry@),
    {
        self.entries[index] = entry;
        proof {
            assert(self@ =~= old(self)@.update(index as int, entry@));
        }
    }

    /// Borrow one entry mutably.
    pub fn get_entry_mut(&mut self, index: usize) -> (entry: &mut PageTableEntry)
        requires
            old(self).wf(),
            index < 512,
        ensures
            (*entry)@ == old(self)@[index as int],
            final(self)@ =~= old(self)@.update(index as int, final(entry)@),
            final(self).wf(),
    {
        &mut self.entries[index]
    }

    /// Borrow the whole entry array.
    pub fn get_entries(&self) -> (r: &Vec<PageTableEntry>)
        ensures
            r@.len() == self@.len(),
            forall|i: int| 0 <= i < self@.len() ==> r@[i]@ == self@[i],
    {
        &self.entries
    }
}

/// The level 2 (root) index used when translating a virtual address:
/// bits 38-30.
pub open spec fn va_vpn2(va: u64) -> usize {
    ((va >> 30) & 0x1FF) as usize
}

/// The level 1 index used when translating a virtual address: bits 29-21.
pub open spec fn va_vpn1(va: u64) -> usize {
    ((va >> 21) & 0x1FF) as usize
}

/// The level 0 index used when translating a virtual address: bits 20-12.
pub open spec fn va_vpn0(va: u64) -> usize {
    ((va >> 12) & 0x1FF) as usize
}

/// The 12-bit page offset of a virtual address.
pub open spec fn va_page_offset(va: u64) -> u64 {
    va & 0xFFF
}

/// Whether a virtual address falls on the 4 KiB page a virtual page number
/// names: its three level indices equal the page number's.
pub open spec fn va_matches_vpn(va: u64, vpn: u64) -> bool {
    &&& va_vpn2(va) == level_2_index(vpn)
    &&& va_vpn1(va) == level_1_index(vpn)
    &&& va_vpn0(va) == level_0_index(vpn)
}

/// The virtual addresses of the page named by a virtual page number are
/// exactly the page base `vpn << 12` plus the offsets below 4096, and the
/// three translation indices of such an address equal the page number's.
pub proof fn lemma_page_virtual_addresses(vpn: u64, off: u64)
    by (bit_vector)
    requires
        off < 4096,
    ensures
        va_vpn2((vpn << 12) | off) == level_2_index(vpn),
        va_vpn1((vpn << 12) | off) == level_1_index(vpn),
        va_vpn0((vpn << 12) | off) == level_0_index(vpn),
        va_page_offset((vpn << 12) | off) == off,
        vpn * 4096 <= u64::MAX ==> ((vpn << 12) | off) == vpn * 4096 + off,
{
}

/// The first position at which a physical page number appears in a list of
/// table page numbers.
pub open spec fn first_index_of(ppns: Seq<u64>, p: u64) -> Option<int>
    decreases ppns.len(),
{
    if ppns.len() == 0 {
        None
    } else if ppns[0] == p {
        Some(0int)
    } else {
        match first_index_of(ppns.drop_first(), p) {
            Some(i) => Some(i + 1),
            None => None,
        }
    }
}

/// Whether a list of page numbers contains a given one.
pub open spec fn ppns_contain(ppns: Seq<u64>, p: u64) -> bool {
    exists|i: int| 0 <= i < ppns.len() && ppns[i] == p
}

/// `first_index_of` finds the first occurrence, and nothing else.
pub proof fn lemma_first_index_of_characterization(ppns: Seq<u64>, p: u64)
    ensures
        match first_index_of(ppns, p) {
            Some(i) => 0 <= i < ppns.len() && ppns[i] == p && forall|j: int|
                0 <= j < i ==> ppns[j] != p,
            None => forall|j: int| 0 <= j < ppns.len() ==> ppns[j] != p,
        },
    decreases ppns.len(),
{
    if ppns.len() > 0 && ppns[0] != p {
        let rest = ppns.drop_first();
        lemma_first_index_of_characterization(rest, p);
        match first_index_of(rest, p) {
            Some(i) => {
                assert(ppns[i + 1] == rest[i]);
                assert forall|j: int| 0 <= j < i + 1 implies ppns[j] != p by {
                    if j > 0 {
                        assert(ppns[j] == rest[j - 1]);
                    }
                }
            },
            None => {
                assert forall|j: int| 0 <= j < ppns.len() implies ppns[j] != p by {
                    if j > 0 {
                        assert(ppns[j] == rest[j - 1]);
                    }
                }
            },
        }
    }
}

/// Any position that holds the page number with no earlier occurrence is the
/// first index.
pub proof fn lemma_first_index_of_found(ppns: Seq<u64>, p: u64, i: int)
    requires
        0 <= i < ppns.len(),
        ppns[i] == p,
        forall|j: int| 0 <= j < i ==> ppns[j] != p,
    ensures
        first_index_of(ppns, p) == Some(i),
    decreases i,
{
    if i > 0 {
        assert(ppns[0] != p);
        let rest = ppns.drop_first();
        assert(forall|j: int| 0 <= j < rest.len() ==> rest[j] == ppns[j + 1]);
        lemma_first_index_of_found(rest, p, i - 1);
    }
}

/// A page number that occurs nowhere has no first index.
pub proof fn lemma_first_index_of_absent(ppns: Seq<u64>, p: u64)
    requires
        forall|j: int| 0 <= j < ppns.len() ==> ppns[j] != p,
    ensures
        first_index_of(ppns, p) is None,
{
    lemma_first_index_of_characterization(ppns, p);
    if first_index_of(ppns, p) is Some {
        let i = first_index_of(ppns, p)->Some_0;
        assert(ppns[i] == p);
    }
}

/// Appending a page number leaves the first index of every page number
/// already present unchanged, and gives a fresh page number the new
/// position.
pub proof fn lemma_first_index_of_push(ppns: Seq<u64>, x: u64, p: u64)
    ensures
        ppns_contain(ppns, p) ==> first_index_of(ppns.push(x), p) == first_index_of(ppns, p),
        !ppns_contain(ppns, p) && p == x ==> first_index_of(ppns.push(x), p) == Some(
            ppns.len() as int,
        ),
        !ppns_contain(ppns, p) && p != x ==> first_index_of(ppns.push(x), p) is None,
{
    lemma_first_index_of_characterization(ppns, p);
    if ppns_contain(ppns, p) {
        let i = first_index_of(ppns, p)->Some_0;
        if first_index_of(ppns, p) is None {
            let w = choose|w: int| 0 <= w < ppns.len() && ppns[w] == p;
            assert(ppns[w] == p);
            assert(false);
        }
        lemma_first_index_of_found(ppns.push(x), p, i);
    } else {
        assert(forall|j: int| 0 <= j < ppns.len() ==> ppns[j] != p) by {
            assert forall|j: int| 0 <= j < ppns.len() implies ppns[j] != p by {
                if ppns[j] == p {
                    assert(ppns_contain(ppns, p));
                }
            }
        }
        if p == x {
            lemma_first_index_of_found(ppns.push(x), p, ppns.len() as int);
        } else {
            lemma_first_index_of_absent(ppns.push(x), p);
        }
    }
}

/// An Sv39 address space: the root page table together with every level 1
/// and level 0 page table that has been allocated for it, each identified by
/// the physical page number of the frame that holds it.
pub struct AddressSpace {
    root: PageTable,
    l1_ppns: Vec<u64>,
    l1_tables: Vec<PageTable>,
    l0_ppns: Vec<u64>,
    l0_tables: Vec<PageTable>,
}

impl AddressSpace {
    /// The entries of the root (level 2) page table.
    pub closed spec fn root_spec(&self) -> Seq<u64> {
        self.root@
    }

    /// The physical page numbers of the level 1 tables.
    pub closed spec fn l1_ppns_spec(&self) -> Seq<u64> {
        self.l1_ppns@
    }

    /// The entries of the level 1 tables, in the same order as their page
    /// numbers.
    pub closed spec fn l1_tables_spec(&self) -> Seq<Seq<u64>> {
        self.l1_tables@.map(|i: int, t: PageTable| t@)
    }

    /// The physical page numbers of the level 0 tables.
    pub closed spec fn l0_ppns_spec(&self) -> Seq<u64> {
        self.l0_ppns@
    }

    /// The entries of the level 0 tables, in the same order as their page
    /// numbers.
    pub closed spec fn l0_tables_spec(&self) -> Seq<Seq<u64>> {
        self.l0_tables@.map(|i: int, t: PageTable| t@)
    }

    /// The raw entry at one index of one level 1 table.
    pub open spec fn l1_entry(&self, i: int, j: int) -> u64 {
        self.l1_tables_spec()[i][j]
    }

    /// The raw entry at one index of one level 0 table.
    pub open spec fn l0_entry(&self, i: int, j: int) -> u64 {
        self.l0_tables_spec()[i][j]
    }

    /// Whether a physical page number already hosts one of the tables of
    /// this address space.
    pub open spec fn owns_table_ppn(&self, p: u64) -> bool {
        ppns_contain(self.l1_ppns_spec(), p) || ppns_contain(self.l0_ppns_spec(), p)
    }

    /// Well-formedness of an address space:
    /// - every table has 512 entries and each level's page-number list and
    ///   table list run in parallel;
    /// - no two tables share a physical frame;
    /// - every valid non-leaf entry of the root names the frame of a known
    ///   level 1 table, every valid non-leaf entry of a level 1 table names
    ///   the frame of a known level 0 table, and no frame is named by two
    ///   such entries.
    pub open spec fn wf(&self) -> bool {
        &&& self.root_spec().len() == 512
        &&& self.l1_ppns_spec().len() == self.l1_tables_spec().len()
        &&& self.l0_ppns_spec().len() == self.l0_tables_spec().len()
        &&& forall|i: int|
            0 <= i < self.l1_tables_spec().len() ==> (#[trigger] self.l1_tables_spec()[i]).len()
                == 512
        &&& forall|i: int|
            0 <= i < self.l0_tables_spec().len() ==> (#[trigger] self.l0_tables_spec()[i]).len()
                == 512
        &&& forall|i: int, j: int|
            0 <= i < j < self.l1_ppns_spec().len() ==> self.l1_ppns_spec()[i]
                != self.l1_ppns_spec()[j]
        &&& forall|i: int, j: int|
            0 <= i < j < self.l0_ppns_spec().len() ==> self.l0_ppns_spec()[i]
                != self.l0_ppns_spec()[j]
        &&& forall|i: int, j: int|
            0 <= i < self.l1_ppns_spec().len() && 0 <= j < self.l0_ppns_spec().len()
                ==> self.l1_ppns_spec()[i] != self.l0_ppns_spec()[j]
        &&& forall|j: int|
            0 <= j < 512 && pte_branch(#[trigger] self.root_spec()[j]) ==> ppns_contain(
                self.l1_ppns_spec(),
                pte_ppn(self.root_spec()[j]),
            )
        &&& forall|j: int, k: int|
            0 <= j < 512 && 0 <= k < 512 && j != k && pte_branch(#[trigger] self.root_spec()[j])
                && pte_branch(#[trigger] self.root_spec()[k]) ==> pte_ppn(self.root_spec()[j])
                != pte_ppn(self.root_spec()[k])
        &&& forall|i: int, j: int|
            0 <= i < self.l1_tables_spec().len() && 0 <= j < 512 && pte_branch(
                #[trigger] self.l1_entry(i, j),
            ) ==> ppns_contain(self.l0_ppns_spec(), pte_ppn(self.l1_entry(i, j)))
        &&& forall|i: int, j: int, i2: int, j2: int|
            0 <= i < self.l1_tables_spec().len() && 0 <= j < 512 && 0 <= i2
                < self.l1_tables_spec().len() && 0 <= j2 < 512 && (i != i2 || j != j2)
                && pte_branch(#[trigger] self.l1_entry(i, j)) && pte_branch(
                #[trigger] self.l1_entry(i2, j2),
            ) ==> pte_ppn(self.l1_entry(i, j)) != pte_ppn(self.l1_entry(i2, j2))
    }
}

/// The result of walking the page-table hierarchy for a virtual address:
/// each step requires a valid entry; a leaf entry at any level yields the
/// physical address for its page size; a valid non-leaf entry descends into
/// the named table, and a name that matches no table fails the walk.
pub open spec fn translate_spec(s: AddressSpace, va: u64) -> Option<u64> {
    let e2 = s.root_spec()[va_vpn2(va) as int];
    if !pte_valid(e2) {
        None
    } else if pte_leaf(e2) {
        Some(((pte_ppn(e2) >> 18) << 30) | (va & 0x3FFF_FFFF))
    } else {
        match first_index_of(s.l1_ppns_spec(), pte_ppn(e2)) {
            None => None,
            Some(i) => {
                let e1 = s.l1_tables_spec()[i][va_vpn1(va) as int];
                if !pte_valid(e1) {
                    None
                } else if pte_leaf(e1) {
                    Some(((pte_ppn(e1) >> 9) << 21) | (va & 0x1F_FFFF))
                } else {
                    match first_index_of(s.l0_ppns_spec(), pte_ppn(e1)) {
                        None => None,
                        Some(k) => {
                            let e0 = s.l0_tables_spec()[k][va_vpn0(va) as int];
                            if !pte_valid(e0) {
                                None
                            } else {
                                Some((pte_ppn(e0) << 12) | va_page_offset(va))
                            }
                        },
                    }
                }
            },
        }
    }
}

/// The raw level 0 entry the 4 KiB walk for a virtual page number reaches,
/// if valid non-leaf entries lead all the way to a level 0 table.
pub open spec fn mapped_leaf(s: AddressSpace, vpn: u64) -> Option<u64> {
    let e2 = s.root_spec()[level_2_index(vpn) as int];
    if !pte_branch(e2) {
        None
    } else {
        match first_index_of(s.l1_ppns_spec(), pte_ppn(e2)) {
            None => None,
            Some(i) => {
                let e1 = s.l1_tables_spec()[i][level_1_index(vpn) as int];
                if !pte_branch(e1) {
                    None
                } else {
                    match first_index_of(s.l0_ppns_spec(), pte_ppn(e1)) {
                        None => None,
                        Some(k) => Some(s.l0_tables_spec()[k][level_0_index(vpn) as int]),
                    }
                }
            },
        }
    }
}

/// Find the position of a table page number in a page-number list.
fn find_ppn(ppns: &Vec<u64>, p: u64) -> (r: Option<usize>)
    ensures
        match r {
            Some(i) => first_index_of(ppns@, p) == Some(i as int),
            None => first_index_of(ppns@, p) is None,
        },
{
    let mut i: usize = 0;
    while i < ppns.len()
        invariant
            i <= ppns@.len(),
            forall|j: int| 0 <= j < i ==> ppns@[j] != p,
        decreases ppns@.len() - i,
    {
        if ppns[i] == p {
            proof {
                lemma_first_index_of_found(ppns@, p, i as int);
            }
            return Some(i);
        }
        i = i + 1;
    }
    proof {
        lemma_first_index_of_absent(ppns@, p);
    }
    None
}

impl AddressSpace {
    /// Creates an address space with a cleared root table and no subordinate
    /// tables: nothing is mapped.
    pub fn new() -> (r: AddressSpace)
        ensures
            r.wf(),
            r.l1_ppns_spec().len() == 0,
            r.l0_ppns_spec().len() == 0,
            forall|j: int| 0 <= j < 512 ==> r.root_spec()[j] == 0u64,
            forall|va: u64| translate_spec(r, va) == Option::<u64>::None,
    {
        let r = AddressSpace {
            root: PageTable::new(),
            l1_ppns: Vec::new(),
            l1_tables: Vec::new(),
            l0_ppns: Vec::new(),
            l0_tables: Vec::new(),
        };
        proof {
            lemma_zero_entry_invalid();
            assert forall|va: u64| translate_spec(r, va) == Option::<u64>::None by {
                let v = va;
                assert((v >> 30) & 0x1FF < 512) by (bit_vector);
            }
        }
        r
    }

    /// The entry at one index of the root page table.
    pub fn get_root_entry(&self, index: usize) -> (r: PageTableEntry)
        requires
            self.wf(),
            index < 512,
        ensures
            r@ == self.root_spec()[index as int],
    {
        self.root.get_entry(index)
    }

    /// The number of subordinate page tables this address space has
    /// allocated.
    pub fn table_count(&self) -> (r: usize)
        requires
            self.wf(),
            self.l1_ppns_spec().len() + self.l0_ppns_spec().len() <= usize::MAX,
        ensures
            r == self.l1_ppns_spec().len() + self.l0_ppns_spec().len(),
    {
        self.l1_ppns.len() + self.l0_ppns.len()
    }

    /// Borrow the table held at a given physical page number, if any: the
    /// level 1 table registered at that frame, the level 0 table registered
    /// there otherwise, and `None` when the frame hosts no table of this
    /// address space.
    pub fn table_for_ppn(&self, ppn: PhysicalPageNumber) -> (r: Option<&PageTable>)
        requires
            self.wf(),
        ensures
            r matches Some(t) ==> t.wf(),
            r matches Some(t) ==> (first_index_of(self.l1_ppns_spec(), ppn.0) matches Some(i)
                ==> t@ == self.l1_tables_spec()[i]),
            r matches Some(t) ==> (first_index_of(self.l1_ppns_spec(), ppn.0) is None
                ==> (first_index_of(self.l0_ppns_spec(), ppn.0) matches Some(k) && t@
                == self.l0_tables_spec()[k])),
            r is None ==> !self.owns_table_ppn(ppn.0),
    {
        match find_ppn(&self.l1_ppns, ppn.0) {
            Some(i) => {
                proof {
                    lemma_first_index_of_characterization(self.l1_ppns@, ppn.0);
                    assert(self.l1_tables_spec()[i as int] == self.l1_tables@[i as int]@);
                }
                Some(&self.l1_tables[i])
            },
            None => match find_ppn(&self.l0_ppns, ppn.0) {
                Some(i) => {
                    proof {
                        lemma_first_index_of_characterization(self.l0_ppns@, ppn.0);
                        assert(self.l0_tables_spec()[i as int] == self.l0_tables@[i as int]@);
                    }
                    Some(&self.l0_tables[i])
                },
                None => {
                    proof {
                        lemma_first_index_of_characterization(self.l1_ppns@, ppn.0);
                        lemma_first_index_of_characterization(self.l0_ppns@, ppn.0);
                        if self.owns_table_ppn(ppn.0) {
                            if ppns_contain(self.l1_ppns_spec(), ppn.0) {
                                let w = choose|w: int|
                                    0 <= w < self.l1_ppns_spec().len() && self.l1_ppns_spec()[w]
                                        == ppn.0;
                                assert(false);
                            } else {
                                let w = choose|w: int|
                                    0 <= w < self.l0_ppns_spec().len() && self.l0_ppns_spec()[w]
                                        == ppn.0;
                                assert(false);
                            }
                        }
                    }
                    None
                },
            },
        }
    }
}

/// A cleared page table entry is invalid.
proof fn lemma_zero_entry_invalid()
    by (bit_vector)
    ensures
        !pte_valid(0u64),
        !pte_readable(0u64),
        !pte_writable(0u64),
        !pte_executable(0u64),
        !pte_user(0u64),
        !pte_global(0u64),
        !pte_accessed(0u64),
        !pte_dirty(0u64),
        pte_ppn(0u64) == 0u64,
{
}

/// The three translation indices of a virtual address are always below 512.
proof fn lemma_va_indices_in_bounds(va: u64)
    by (bit_vector)
    ensures
        (va >> 30) & 0x1FF < 512,
        (va >> 21) & 0x1FF < 512,
        (va >> 12) & 0x1FF < 512,
{
}

/// Installing a fresh, empty level 1 table under a previously invalid root
/// entry changes no translation, and keeps the address space well-formed.
proof fn lemma_install_l1_preserves_translate(
    s1: AddressSpace,
    s2: AddressSpace,
    vpn2: usize,
    e2new: u64,
    p: u64,
    t: Seq<u64>,
)
    requires
        s1.wf(),
        vpn2 < 512,
        !pte_valid(s1.root_spec()[vpn2 as int]),
        !s1.owns_table_ppn(p),
        pte_branch(e2new),
        pte_ppn(e2new) == p,
        t.len() == 512,
        forall|j: int| 0 <= j < 512 ==> t[j] == 0u64,
        s2.root_spec() == s1.root_spec().update(vpn2 as int, e2new),
        s2.l1_ppns_spec() == s1.l1_ppns_spec().push(p),
        s2.l1_tables_spec() == s1.l1_tables_spec().push(t),
        s2.l0_ppns_spec() == s1.l0_ppns_spec(),
        s2.l0_tables_spec() == s1.l0_tables_spec(),
    ensures
        s2.wf(),
        forall|va: u64| translate_spec(s2, va) == translate_spec(s1, va),
        forall|q: u64| walk_blocked(s2, q) ==> walk_blocked(s1, q),
{
    lemma_zero_entry_invalid();
    let n1 = s1.l1_ppns_spec().len() as int;
    assert(forall|i: int| 0 <= i < n1 ==> #[trigger] s2.l1_ppns_spec()[i] == s1.l1_ppns_spec()[i]);
    assert(forall|i: int|
        0 <= i < n1 ==> #[trigger] s2.l1_tables_spec()[i] == s1.l1_tables_spec()[i]);
    assert(s2.l1_ppns_spec()[n1] == p);
    assert(s2.l1_tables_spec()[n1] == t);
    assert(forall|i: int| 0 <= i < n1 ==> #[trigger] s1.l1_ppns_spec()[i] != p) by {
        assert forall|i: int| 0 <= i < n1 implies #[trigger] s1.l1_ppns_spec()[i] != p by {
            if s1.l1_ppns_spec()[i] == p {
                assert(ppns_contain(s1.l1_ppns_spec(), p));
            }
        }
    }
    assert(forall|i: int|
        0 <= i < s1.l0_ppns_spec().len() ==> #[trigger] s1.l0_ppns_spec()[i] != p) by {
        assert forall|i: int|
            0 <= i < s1.l0_ppns_spec().len() implies #[trigger] s1.l0_ppns_spec()[i] != p by {
            if s1.l0_ppns_spec()[i] == p {
                assert(ppns_contain(s1.l0_ppns_spec(), p));
            }
        }
    }

    // Well-formedness of the extended space.
    assert(s2.wf()) by {
        assert forall|j: int|
            0 <= j < 512 && pte_branch(#[trigger] s2.root_spec()[j]) implies ppns_contain(
            s2.l1_ppns_spec(),
            pte_ppn(s2.root_spec()[j]),
        ) by {
            if j == vpn2 {
                assert(s2.l1_ppns_spec()[n1] == pte_ppn(e2new));
            } else {
                assert(s2.root_spec()[j] == s1.root_spec()[j]);
                let q = pte_ppn(s1.root_spec()[j]);
                assert(ppns_contain(s1.l1_ppns_spec(), q));
                let w = choose|w: int| 0 <= w < n1 && s1.l1_ppns_spec()[w] == q;
                assert(s2.l1_ppns_spec()[w] == q);
            }
        }
        assert forall|j: int, k: int|
            0 <= j < 512 && 0 <= k < 512 && j != k && pte_branch(#[trigger] s2.root_spec()[j])
                && pte_branch(#[trigger] s2.root_spec()[k]) implies pte_ppn(s2.root_spec()[j])
            != pte_ppn(s2.root_spec()[k]) by {
            if j == vpn2 {
                let q = pte_ppn(s1.root_spec()[k]);
                assert(ppns_contain(s1.l1_ppns_spec(), q));
                let w = choose|w: int| 0 <= w < n1 && s1.l1_ppns_spec()[w] == q;
                assert(s1.l1_ppns_spec()[w] != p);
            } else if k == vpn2 {
                let q = pte_ppn(s1.root_spec()[j]);
                assert(ppns_contain(s1.l1_ppns_spec(), q));
                let w = choose|w: int| 0 <= w < n1 && s1.l1_ppns_spec()[w] == q;
                assert(s1.l1_ppns_spec()[w] != p);
            }
        }
        assert forall|i: int, j: int|
            0 <= i < s2.l1_tables_spec().len() && 0 <= j < 512 && pte_branch(
                #[trigger] s2.l1_entry(i, j),
            ) implies ppns_contain(s2.l0_ppns_spec(), pte_ppn(s2.l1_entry(i, j))) by {
            if i < n1 {
                assert(s2.l1_entry(i, j) == s1.l1_entry(i, j));
            } else {
                assert(s2.l1_entry(i, j) == t[j]);
            }
        }
        assert forall|i: int, j: int, i2: int, j2: int|
            0 <= i < s2.l1_tables_spec().len() && 0 <= j < 512 && 0 <= i2
                < s2.l1_tables_spec().len() && 0 <= j2 < 512 && (i != i2 || j != j2) && pte_branch(
                #[trigger] s2.l1_entry(i, j),
            ) && pte_branch(#[trigger] s2.l1_entry(i2, j2)) implies pte_ppn(s2.l1_entry(i, j))
            != pte_ppn(s2.l1_entry(i2, j2)) by {
            if i == n1 {
                assert(s2.l1_entry(i, j) == t[j]);
            } else if i2 == n1 {
                assert(s2.l1_entry(i2, j2) == t[j2]);
            } else {
                assert(s2.l1_entry(i, j) == s1.l1_entry(i, j));
                assert(s2.l1_entry(i2, j2) == s1.l1_entry(i2, j2));
            }
        }
    }

    // No translation changes.
    assert forall|va: u64| translate_spec(s2, va) == translate_spec(s1, va) by {
        lemma_va_indices_in_bounds(va);
        let v2 = va_vpn2(va) as int;
        if v2 == vpn2 {
            assert(!pte_valid(s1.root_spec()[v2]));
            assert(translate_spec(s1, va) is None);
            assert(s2.root_spec()[v2] == e2new);
            lemma_first_index_of_push(s1.l1_ppns_spec(), p, p);
            if ppns_contain(s1.l1_ppns_spec(), p) {
                assert(false);
            }
            assert(first_index_of(s2.l1_ppns_spec(), p) == Some(n1));
            assert(s2.l1_tables_spec()[n1][va_vpn1(va) as int] == 0u64);
            assert(translate_spec(s2, va) is None);
        } else {
            assert(s2.root_spec()[v2] == s1.root_spec()[v2]);
            let e2 = s1.root_spec()[v2];
            if pte_valid(e2) && !pte_leaf(e2) {
                let q = pte_ppn(e2);
                assert(ppns_contain(s1.l1_ppns_spec(), q));
                lemma_first_index_of_push(s1.l1_ppns_spec(), p, q);
                assert(first_index_of(s2.l1_ppns_spec(), q) == first_index_of(
                    s1.l1_ppns_spec(),
                    q,
                ));
                lemma_first_index_of_characterization(s1.l1_ppns_spec(), q);
                match first_index_of(s1.l1_ppns_spec(), q) {
                    Some(i) => {
                        assert(s2.l1_tables_spec()[i] == s1.l1_tables_spec()[i]);
                    },
                    None => {
                        let w = choose|w: int| 0 <= w < n1 && s1.l1_ppns_spec()[w] == q;
                        assert(s1.l1_ppns_spec()[w] == q);
                        assert(false);
                    },
                }
            }
        }
    }

    // Installing a branch to an empty table blocks no walk that was not
    // blocked before.
    assert forall|q: u64| walk_blocked(s2, q) implies walk_blocked(s1, q) by {
        let qq = q;
        assert((qq >> 18) & 0x1FF < 512 && (qq >> 9) & 0x1FF < 512) by (bit_vector);
        let idx = level_2_index(q) as int;
        if idx == vpn2 {
            assert(s2.root_spec()[idx] == e2new);
            lemma_first_index_of_push(s1.l1_ppns_spec(), p, p);
            if ppns_contain(s1.l1_ppns_spec(), p) {
                assert(false);
            }
            assert(first_index_of(s2.l1_ppns_spec(), p) == Some(n1));
            assert(s2.l1_entry(n1, level_1_index(q) as int) == 0u64);
            assert(false);
        } else {
            assert(s2.root_spec()[idx] == s1.root_spec()[idx]);
            let e2 = s1.root_spec()[idx];
            if pte_branch(e2) {
                let q2 = pte_ppn(e2);
                assert(ppns_contain(s1.l1_ppns_spec(), q2));
                lemma_first_index_of_push(s1.l1_ppns_spec(), p, q2);
                lemma_first_index_of_characterization(s1.l1_ppns_spec(), q2);
                match first_index_of(s1.l1_ppns_spec(), q2) {
                    Some(i) => {
                        assert(s2.l1_entry(i, level_1_index(q) as int) == s1.l1_entry(
                            i,
                            level_1_index(q) as int,
                        ));
                    },
                    None => {
                        let w = choose|w: int| 0 <= w < n1 && s1.l1_ppns_spec()[w] == q2;
                        assert(s1.l1_ppns_spec()[w] == q2);
                        assert(false);
                    },
                }
            }
        }
    }
}

/// Installing a fresh, empty level 0 table under a previously invalid
/// level 1 entry changes no translation, and keeps the address space
/// well-formed.
proof fn lemma_install_l0_preserves_translate(
    s1: AddressSpace,
    s2: AddressSpace,
    i1: int,
    vpn1: usize,
    e1new: u64,
    p: u64,
    t: Seq<u64>,
)
    requires
        s1.wf(),
        0 <= i1 < s1.l1_tables_spec().len(),
        vpn1 < 512,
        !pte_valid(s1.l1_entry(i1, vpn1 as int)),
        !s1.owns_table_ppn(p),
        pte_branch(e1new),
        pte_ppn(e1new) == p,
        t.len() == 512,
        forall|j: int| 0 <= j < 512 ==> t[j] == 0u64,
        s2.root_spec() == s1.root_spec(),
        s2.l1_ppns_spec() == s1.l1_ppns_spec(),
        s2.l1_tables_spec() == s1.l1_tables_spec().update(
            i1,
            s1.l1_tables_spec()[i1].update(vpn1 as int, e1new),
        ),
        s2.l0_ppns_spec() == s1.l0_ppns_spec().push(p),
        s2.l0_tables_spec() == s1.l0_tables_spec().push(t),
    ensures
        s2.wf(),
        forall|va: u64| translate_spec(s2, va) == translate_spec(s1, va),
        forall|q: u64| walk_blocked(s2, q) ==> walk_blocked(s1, q),
{
    lemma_zero_entry_invalid();
    let n0 = s1.l0_ppns_spec().len() as int;
    assert(forall|i: int| 0 <= i < n0 ==> #[trigger] s2.l0_ppns_spec()[i] == s1.l0_ppns_spec()[i]);
    assert(forall|i: int|
        0 <= i < n0 ==> #[trigger] s2.l0_tables_spec()[i] == s1.l0_tables_spec()[i]);
    assert(s2.l0_ppns_spec()[n0] == p);
    assert(s2.l0_tables_spec()[n0] == t);
    assert(forall|i: int| 0 <= i < n0 ==> #[trigger] s1.l0_ppns_spec()[i] != p) by {
        assert forall|i: int| 0 <= i < n0 implies #[trigger] s1.l0_ppns_spec()[i] != p by {
            if s1.l0_ppns_spec()[i] == p {
                assert(ppns_contain(s1.l0_ppns_spec(), p));
            }
        }
    }
    assert(forall|i: int|
        0 <= i < s1.l1_ppns_spec().len() ==> #[trigger] s1.l1_ppns_spec()[i] != p) by {
        assert forall|i: int|
            0 <= i < s1.l1_ppns_spec().len() implies #[trigger] s1.l1_ppns_spec()[i] != p by {
            if s1.l1_ppns_spec()[i] == p {
                assert(ppns_contain(s1.l1_ppns_spec(), p));
            }
        }
    }
    // How the level 1 entries of the two spaces relate.
    assert(forall|i: int, j: int|
        0 <= i < s2.l1_tables_spec().len() && 0 <= j < 512 && (i != i1 || j != vpn1)
            ==> #[trigger] s2.l1_entry(i, j) == s1.l1_entry(i, j));
    assert(s2.l1_entry(i1, vpn1 as int) == e1new);

    assert(s2.wf()) by {
        assert forall|j: int|
            0 <= j < 512 && pte_branch(#[trigger] s2.root_spec()[j]) implies ppns_contain(
            s2.l1_ppns_spec(),
            pte_ppn(s2.root_spec()[j]),
        ) by {
            assert(s2.root_spec()[j] == s1.root_spec()[j]);
        }
        assert forall|i: int, j: int|
            0 <= i < s2.l1_tables_spec().len() && 0 <= j < 512 && pte_branch(
                #[trigger] s2.l1_entry(i, j),
            ) implies ppns_contain(s2.l0_ppns_spec(), pte_ppn(s2.l1_entry(i, j))) by {
            if i == i1 && j == vpn1 {
                assert(s2.l0_ppns_spec()[n0] == p);
            } else {
                assert(s2.l1_entry(i, j) == s1.l1_entry(i, j));
                let q = pte_ppn(s1.l1_entry(i, j));
                assert(ppns_contain(s1.l0_ppns_spec(), q));
                let w = choose|w: int| 0 <= w < n0 && s1.l0_ppns_spec()[w] == q;
                assert(s2.l0_ppns_spec()[w] == q);
            }
        }
        assert forall|i: int, j: int, i2: int, j2: int|
            0 <= i < s2.l1_tables_spec().len() && 0 <= j < 512 && 0 <= i2
                < s2.l1_tables_spec().len() && 0 <= j2 < 512 && (i != i2 || j != j2) && pte_branch(
                #[trigger] s2.l1_entry(i, j),
            ) && pte_branch(#[trigger] s2.l1_entry(i2, j2)) implies pte_ppn(s2.l1_entry(i, j))
            != pte_ppn(s2.l1_entry(i2, j2)) by {
            if i == i1 && j == vpn1 {
                assert(s2.l1_entry(i2, j2) == s1.l1_entry(i2, j2));
                let q = pte_ppn(s1.l1_entry(i2, j2));
                assert(ppns_contain(s1.l0_ppns_spec(), q));
                let w = choose|w: int| 0 <= w < n0 && s1.l0_ppns_spec()[w] == q;
                assert(s1.l0_ppns_spec()[w] != p);
            } else if i2 == i1 && j2 == vpn1 {
                assert(s2.l1_entry(i, j) == s1.l1_entry(i, j));
                let q = pte_ppn(s1.l1_entry(i, j));
                assert(ppns_contain(s1.l0_ppns_spec(), q));
                let w = choose|w: int| 0 <= w < n0 && s1.l0_ppns_spec()[w] == q;
                assert(s1.l0_ppns_spec()[w] != p);
            } else {
                assert(s2.l1_entry(i, j) == s1.l1_entry(i, j));
                assert(s2.l1_entry(i2, j2) == s1.l1_entry(i2, j2));
            }
        }
        assert(forall|i: int, j: int|
            0 <= i < s2.l1_ppns_spec().len() && 0 <= j < s2.l0_ppns_spec().len()
                ==> s2.l1_ppns_spec()[i] != s2.l0_ppns_spec()[j]);
    }

    assert forall|va: u64| translate_spec(s2, va) == translate_spec(s1, va) by {
        lemma_va_indices_in_bounds(va);
        let v2 = va_vpn2(va) as int;
        let e2 = s1.root_spec()[v2];
        if pte_valid(e2) && !pte_leaf(e2) {
            let q2 = pte_ppn(e2);
            assert(ppns_contain(s1.l1_ppns_spec(), q2));
            lemma_first_index_of_characterization(s1.l1_ppns_spec(), q2);
            match first_index_of(s1.l1_ppns_spec(), q2) {
                Some(i) => {
                    let v1 = va_vpn1(va) as int;
                    if i == i1 && v1 == vpn1 {
                        assert(!pte_valid(s1.l1_entry(i1, v1)));
                        assert(translate_spec(s1, va) is None);
                        assert(s2.l1_entry(i1, v1) == e1new);
                        lemma_first_index_of_push(s1.l0_ppns_spec(), p, p);
                        if ppns_contain(s1.l0_ppns_spec(), p) {
                            assert(false);
                        }
                        assert(first_index_of(s2.l0_ppns_spec(), p) == Some(n0));
                        assert(s2.l0_tables_spec()[n0][va_vpn0(va) as int] == 0u64);
                        assert(translate_spec(s2, va) is None);
                    } else {
                        assert(s2.l1_entry(i, v1) == s1.l1_entry(i, v1));
                        let e1 = s1.l1_entry(i, v1);
                        if pte_valid(e1) && !pte_leaf(e1) {
                            let q1 = pte_ppn(e1);
                            assert(ppns_contain(s1.l0_ppns_spec(), q1));
                            lemma_first_index_of_push(s1.l0_ppns_spec(), p, q1);
                            lemma_first_index_of_characterization(s1.l0_ppns_spec(), q1);
                            match first_index_of(s1.l0_ppns_spec(), q1) {
                                Some(k) => {
                                    assert(s2.l0_tables_spec()[k] == s1.l0_tables_spec()[k]);
                                },
                                None => {
                                    let w = choose|w: int|
                                        0 <= w < n0 && s1.l0_ppns_spec()[w] == q1;
                                    assert(s1.l0_ppns_spec()[w] == q1);
                                    assert(false);
                                },
                            }
                        }
                    }
                },
                None => {
                    let w = choose|w: int|
                        0 <= w < s1.l1_ppns_spec().len() && s1.l1_ppns_spec()[w] == q2;
                    assert(s1.l1_ppns_spec()[w] == q2);
                    assert(false);
                },
            }
        }
    }

    // Turning an invalid level 1 entry into a branch blocks no walk that
    // was not blocked before.
    assert forall|q: u64| walk_blocked(s2, q) implies walk_blocked(s1, q) by {
        let qq = q;
        assert((qq >> 18) & 0x1FF < 512 && (qq >> 9) & 0x1FF < 512) by (bit_vector);
        let idx = level_2_index(q) as int;
        let e2 = s1.root_spec()[idx];
        assert(s2.root_spec()[idx] == e2);
        if !pte_leaf(e2) && pte_branch(e2) {
            lemma_first_index_of_characterization(s1.l1_ppns_spec(), pte_ppn(e2));
            match first_index_of(s1.l1_ppns_spec(), pte_ppn(e2)) {
                Some(i) => {
                    if i == i1 && level_1_index(q) == vpn1 {
                        assert(s2.l1_entry(i, level_1_index(q) as int) == e1new);
                        assert(!pte_leaf(e1new));
                    } else {
                        assert(s2.l1_entry(i, level_1_index(q) as int) == s1.l1_entry(
                            i,
                            level_1_index(q) as int,
                        ));
                    }
                },
                None => {},
            }
        }
    }
}

/// Writing a level 0 entry changes the translation of exactly the virtual
/// addresses whose three indices name that entry through the walk, and keeps
/// the address space well-formed. Walks that were not blocked by a large
/// leaf stay unblocked: only level 0 entries change.
proof fn lemma_write_leaf_frame(
    s1: AddressSpace,
    s2: AddressSpace,
    vpn2: usize,
    vpn1: usize,
    vpn0: usize,
    i1: int,
    i0: int,
)
    requires
        s1.wf(),
        vpn2 < 512,
        vpn1 < 512,
        vpn0 < 512,
        pte_branch(s1.root_spec()[vpn2 as int]),
        first_index_of(s1.l1_ppns_spec(), pte_ppn(s1.root_spec()[vpn2 as int])) == Some(i1),
        pte_branch(s1.l1_entry(i1, vpn1 as int)),
        first_index_of(s1.l0_ppns_spec(), pte_ppn(s1.l1_entry(i1, vpn1 as int))) == Some(i0),
        s2.root_spec() == s1.root_spec(),
        s2.l1_ppns_spec() == s1.l1_ppns_spec(),
        s2.l1_tables_spec() == s1.l1_tables_spec(),
        s2.l0_ppns_spec() == s1.l0_ppns_spec(),
        s2.l0_tables_spec() == s1.l0_tables_spec().update(
            i0,
            s1.l0_tables_spec()[i0].update(vpn0 as int, s2.l0_entry(i0, vpn0 as int)),
        ),
    ensures
        s2.wf(),
        forall|va: u64|
            !(va_vpn2(va) == vpn2 && va_vpn1(va) == vpn1 && va_vpn0(va) == vpn0)
                ==> translate_spec(s2, va) == translate_spec(s1, va),
        forall|q: u64| walk_blocked(s2, q) == walk_blocked(s1, q),
{
    assert forall|q: u64| walk_blocked(s2, q) == walk_blocked(s1, q) by {
        let qq = q;
        assert((qq >> 18) & 0x1FF < 512 && (qq >> 9) & 0x1FF < 512) by (bit_vector);
        let idx = level_2_index(q) as int;
        let e2 = s1.root_spec()[idx];
        assert(s2.root_spec()[idx] == e2);
        if pte_branch(e2) {
            lemma_first_index_of_characterization(s1.l1_ppns_spec(), pte_ppn(e2));
            match first_index_of(s1.l1_ppns_spec(), pte_ppn(e2)) {
                Some(i) => {
                    assert(s2.l1_entry(i, level_1_index(q) as int) == s1.l1_entry(
                        i,
                        level_1_index(q) as int,
                    ));
                },
                None => {},
            }
        }
    }
    lemma_first_index_of_characterization(s1.l1_ppns_spec(), pte_ppn(
        s1.root_spec()[vpn2 as int],
    ));
    lemma_first_index_of_characterization(s1.l0_ppns_spec(), pte_ppn(
        s1.l1_entry(i1, vpn1 as int),
    ));
    assert(0 <= i1 < s1.l1_tables_spec().len());
    assert(0 <= i0 < s1.l0_tables_spec().len());

    assert(s2.wf()) by {
        assert forall|i: int, j: int|
            0 <= i < s2.l1_tables_spec().len() && 0 <= j < 512 && pte_branch(
                #[trigger] s2.l1_entry(i, j),
            ) implies ppns_contain(s2.l0_ppns_spec(), pte_ppn(s2.l1_entry(i, j))) by {
            assert(s2.l1_entry(i, j) == s1.l1_entry(i, j));
        }
        assert forall|i: int, j: int, i2: int, j2: int|
            0 <= i < s2.l1_tables_spec().len() && 0 <= j < 512 && 0 <= i2
                < s2.l1_tables_spec().len() && 0 <= j2 < 512 && (i != i2 || j != j2) && pte_branch(
                #[trigger] s2.l1_entry(i, j),
            ) && pte_branch(#[trigger] s2.l1_entry(i2, j2)) implies pte_ppn(s2.l1_entry(i, j))
            != pte_ppn(s2.l1_entry(i2, j2)) by {
            assert(s2.l1_entry(i, j) == s1.l1_entry(i, j));
            assert(s2.l1_entry(i2, j2) == s1.l1_entry(i2, j2));
        }
        assert forall|i: int|
            0 <= i < s2.l0_tables_spec().len() implies (#[trigger] s2.l0_tables_spec()[i]).len()
            == 512 by {
            if i != i0 {
                assert(s2.l0_tables_spec()[i] == s1.l0_tables_spec()[i]);
            }
        }
    }

    assert forall|va: u64|
        !(va_vpn2(va) == vpn2 && va_vpn1(va) == vpn1 && va_vpn0(va) == vpn0)
            implies translate_spec(s2, va) == translate_spec(s1, va) by {
        lemma_va_indices_in_bounds(va);
        let v2 = va_vpn2(va) as int;
        let e2 = s1.root_spec()[v2];
        if pte_valid(e2) && !pte_leaf(e2) {
            let q2 = pte_ppn(e2);
            lemma_first_index_of_characterization(s1.l1_ppns_spec(), q2);
            match first_index_of(s1.l1_ppns_spec(), q2) {
                Some(i) => {
                    let v1 = va_vpn1(va) as int;
                    let e1 = s1.l1_entry(i, v1);
                    if pte_valid(e1) && !pte_leaf(e1) {
                        let q1 = pte_ppn(e1);
                        lemma_first_index_of_characterization(s1.l0_ppns_spec(), q1);
                        match first_index_of(s1.l0_ppns_spec(), q1) {
                            Some(k) => {
                                let v0 = va_vpn0(va) as int;
                                if k == i0 && v0 == vpn0 {
                                    // The walk for this address would reach
                                    // the written entry, so its indices must
                                    // all match, a contradiction.
                                    assert(s1.l0_ppns_spec()[k] == q1);
                                    assert(s1.l0_ppns_spec()[i0] == pte_ppn(
                                        s1.l1_entry(i1, vpn1 as int),
                                    ));
                                    assert(pte_ppn(e1) == pte_ppn(s1.l1_entry(i1, vpn1 as int)));
                                    assert(i == i1 && v1 == vpn1);
                                    assert(s1.l1_ppns_spec()[i] == q2);
                                    assert(s1.l1_ppns_spec()[i1] == pte_ppn(
                                        s1.root_spec()[vpn2 as int],
                                    ));
                                    assert(pte_ppn(e2) == pte_ppn(s1.root_spec()[vpn2 as int]));
                                    assert(v2 == vpn2);
                                    assert(false);
                                } else {
                                    if k != i0 {
                                        assert(s2.l0_tables_spec()[k] == s1.l0_tables_spec()[k]);
                                    } else {
                                        assert(s2.l0_tables_spec()[k][v0]
                                            == s1.l0_tables_spec()[k][v0]);
                                    }
                                }
                            },
                            None => {},
                        }
                    }
                },
                None => {},
            }
        }
    }
}

/// Masking a value to 44 bits twice is the same as doing it once.
proof fn lemma_mask44_idempotent(x: u64)
    by (bit_vector)
    ensures
        (x & 0xFFF_FFFF_FFFF) & 0xFFF_FFFF_FFFF == x & 0xFFF_FFFF_FFFF,
{
}

impl AddressSpace {
    /// Make the root entry at `vpn2` point to a level 1 table, allocating
    /// and installing a cleared one when the entry is invalid. Returns the
    /// index of that table, or `None` when the entry holds a leaf, the
    /// allocator is out of memory, or the allocated frame already hosts a
    /// table of this space.
    fn ensure_level_1(&mut self, vpn2: usize, allocator: &mut PhysicalBumpAllocator) -> (r: Option<
        usize,
    >)
        requires
            old(self).wf(),
            vpn2 < 512,
            old(allocator).wf(),
        ensures
            final(self).wf(),
            final(allocator).wf(),
            final(allocator).regions() == old(allocator).regions(),
            forall|va: u64|
                translate_spec(*final(self), va) == translate_spec(*old(self), va),
            final(self).l0_ppns_spec() == old(self).l0_ppns_spec(),
            final(self).l0_tables_spec() == old(self).l0_tables_spec(),
            r is None ==> *final(self) == *old(self),
            pte_branch(old(self).root_spec()[vpn2 as int]) ==> *final(self) == *old(self) && r
                == first_index_as_usize(
                old(self).l1_ppns_spec(),
                pte_ppn(old(self).root_spec()[vpn2 as int]),
            ),
            pte_leaf(old(self).root_spec()[vpn2 as int]) ==> r is None,
            r matches Some(i) ==> {
                &&& i < final(self).l1_tables_spec().len()
                &&& pte_branch(final(self).root_spec()[vpn2 as int])
                &&& first_index_of(
                    final(self).l1_ppns_spec(),
                    pte_ppn(final(self).root_spec()[vpn2 as int]),
                ) == Some(i as int)
            },
            !pte_branch(old(self).root_spec()[vpn2 as int]) ==> (r matches Some(i) ==> forall|
                j: int,
            |
                0 <= j < 512 ==> final(self).l1_entry(i as int, j) == 0u64),
            allocated_size(*final(allocator)) <= allocated_size(*old(allocator)) + 4096,
            pte_branch(old(self).root_spec()[vpn2 as int]) ==> *final(allocator) == *old(
                allocator,
            ),
            // Success is owed when no leaf blocks the slot, allocator frames
            // are fresh, and at least one page is left.
            !pte_leaf(old(self).root_spec()[vpn2 as int]) && regions_disjoint(
                old(allocator).regions(),
            ) && allocator_frames_fresh(*old(self), *old(allocator)) && allocated_size(
                *old(allocator),
            ) + 4096 <= sum_region_sizes(old(allocator).regions()) ==> r is Some,
            regions_disjoint(old(allocator).regions()) && allocator_frames_fresh(
                *old(self),
                *old(allocator),
            ) ==> allocator_frames_fresh(*final(self), *final(allocator)),
            forall|q: u64| !walk_blocked(*old(self), q) ==> !walk_blocked(*final(self), q),
    {
        let entry2 = self.root.get_entry(vpn2);
        if entry2.is_valid() {
            if entry2.is_leaf() {
                return None;
            }
            let found = find_ppn(&self.l1_ppns, entry2.get_ppn().raw_ppn());
            match found {
                Some(i) => {
                    proof {
                        lemma_first_index_of_characterization(self.l1_ppns@, pte_ppn(entry2@));
                    }
                    return Some(i);
                },
                None => {
                    proof {
                        // Impossible in a well-formed space: every branch
                        // entry of the root names a known level 1 table.
                        let q = pte_ppn(entry2@);
                        assert(ppns_contain(self.l1_ppns_spec(), q));
                        let w = choose|w: int|
                            0 <= w < self.l1_ppns_spec().len() && self.l1_ppns_spec()[w] == q;
                        lemma_first_index_of_characterization(self.l1_ppns@, q);
                        assert(false);
                    }
                    return None;
                },
            }
        }

        // The entry is invalid: allocate and install a fresh level 1 table.
        let page_address = match allocator.allocate_page() {
            Some(a) => a,
            None => {
                proof {
                    lemma_may_return_congruence(*old(allocator), *allocator);
                    if regions_disjoint(old(allocator).regions()) && allocator_frames_fresh(
                        *old(self),
                        *old(allocator),
                    ) {
                        assert forall|x: usize| #[trigger] allocator_may_return(
                            *allocator,
                            x,
                        ) implies x < 0x100_0000_0000_0000 && !self.owns_table_ppn(
                            frame_of_address(x),
                        ) by {
                            assert(allocator_may_return(*old(allocator), x));
                        }
                    }
                    if allocated_size(*old(allocator)) + 4096 <= sum_region_sizes(
                        old(allocator).regions(),
                    ) {
                        lemma_allocate_page_exhaustion(*old(allocator));
                        assert(false);
                    }
                }
                return None;
            },
        };
        proof {
            lemma_allocate_page_exhaustion(*old(allocator));
            assert(allocator.regions() == old(allocator).regions());
            assert(allocated_size(*allocator) == allocated_size(*old(allocator)) + 4096);
        }
        let table_ppn = (page_address as u64 >> 12) & 0x0000_0FFF_FFFF_FFFF;
        let found_level_1 = find_ppn(&self.l1_ppns, table_ppn);
        if found_level_1.is_some() {
            proof {
                lemma_first_index_of_characterization(self.l1_ppns@, table_ppn);
                if regions_disjoint(old(allocator).regions()) && allocator_frames_fresh(
                    *old(self),
                    *old(allocator),
                ) {
                    lemma_allocate_step_fresh(*old(allocator), *allocator, page_address);
                    assert(allocator_may_return(*old(allocator), page_address));
                    let i = found_level_1->Some_0;
                    assert(self.l1_ppns_spec()[i as int] == table_ppn);
                    assert(ppns_contain(self.l1_ppns_spec(), table_ppn));
                    assert(false);
                }
            }
            return None;
        }
        let found_level_0 = find_ppn(&self.l0_ppns, table_ppn);
        if found_level_0.is_some() {
            proof {
                lemma_first_index_of_characterization(self.l0_ppns@, table_ppn);
                if regions_disjoint(old(allocator).regions()) && allocator_frames_fresh(
                    *old(self),
                    *old(allocator),
                ) {
                    lemma_allocate_step_fresh(*old(allocator), *allocator, page_address);
                    assert(allocator_may_return(*old(allocator), page_address));
                    let i = found_level_0->Some_0;
                    assert(self.l0_ppns_spec()[i as int] == table_ppn);
                    assert(ppns_contain(self.l0_ppns_spec(), table_ppn));
                    assert(false);
                }
            }
            return None;
        }
        proof {
            lemma_first_index_of_characterization(self.l1_ppns@, table_ppn);
            lemma_first_index_of_characterization(self.l0_ppns@, table_ppn);
            if ppns_contain(self.l1_ppns_spec(), table_ppn) {
                let w = choose|w: int|
                    0 <= w < self.l1_ppns_spec().len() && self.l1_ppns_spec()[w] == table_ppn;
                assert(false);
            }
            if ppns_contain(self.l0_ppns_spec(), table_ppn) {
                let w = choose|w: int|
                    0 <= w < self.l0_ppns_spec().len() && self.l0_ppns_spec()[w] == table_ppn;
                assert(false);
            }
        }

        let ghost s1 = *self;
        let table = PageTable::new();
        let ghost tview = table@;
        self.l1_ppns.push(table_ppn);
        self.l1_tables.push(table);

        let mut entry = PageTableEntry::new();
        entry.set_valid(true);
        entry.set_ppn(PhysicalPageNumber(table_ppn));
        proof {
            lemma_zero_entry_invalid();
            lemma_mask44_idempotent(page_address as u64 >> 12);
            assert(pte_branch(entry@));
            assert(pte_ppn(entry@) == table_ppn);
        }
        self.root.set_entry(vpn2, entry);

        proof {
            assert(self.l1_tables_spec() =~= s1.l1_tables_spec().push(tview));
            lemma_install_l1_preserves_translate(s1, *self, vpn2, entry@, table_ppn, tview);
            lemma_first_index_of_push(s1.l1_ppns_spec(), table_ppn, table_ppn);
            // The remaining allocator frames stay fresh for the extended
            // space: the consumed frame is the only new table.
            if regions_disjoint(old(allocator).regions()) && allocator_frames_fresh(
                *old(self),
                *old(allocator),
            ) {
                lemma_allocate_step_fresh(*old(allocator), *allocator, page_address);
                assert(allocator_may_return(*old(allocator), page_address));
                let ghost n1 = s1.l1_ppns_spec().len() as int;
                assert forall|x: usize| #[trigger] allocator_may_return(*allocator, x) implies x
                    < 0x100_0000_0000_0000 && !self.owns_table_ppn(frame_of_address(x)) by {
                    assert(allocator_may_return(*old(allocator), x));
                    assert(frame_of_address(x) != frame_of_address(page_address));
                    if self.owns_table_ppn(frame_of_address(x)) {
                        if ppns_contain(self.l1_ppns_spec(), frame_of_address(x)) {
                            let w = choose|w: int|
                                0 <= w < self.l1_ppns_spec().len() && self.l1_ppns_spec()[w]
                                    == frame_of_address(x);
                            if w < n1 {
                                assert(s1.l1_ppns_spec()[w] == frame_of_address(x));
                                assert(ppns_contain(s1.l1_ppns_spec(), frame_of_address(x)));
                            } else {
                                assert(frame_of_address(x) == table_ppn);
                            }
                            assert(false);
                        } else {
                            let w = choose|w: int|
                                0 <= w < self.l0_ppns_spec().len() && self.l0_ppns_spec()[w]
                                    == frame_of_address(x);
                            assert(ppns_contain(s1.l0_ppns_spec(), frame_of_address(x)));
                            assert(false);
                        }
                    }
                }
            }
        }
        Some(self.l1_ppns.len() - 1)
    }

    /// Make the entry at `vpn1` of the level 1 table at `l1_index` point to
    /// a level 0 table, allocating and installing a cleared one when the
    /// entry is invalid. Returns the index of that table, or `None` when the
    /// entry holds a leaf, the allocator is out of memory, or the allocated
    /// frame already hosts a table of this space.
    fn ensure_level_0(
        &mut self,
        l1_index: usize,
        vpn1: usize,
        allocator: &mut PhysicalBumpAllocator,
    ) -> (r: Option<usize>)
        requires
            old(self).wf(),
            l1_index < old(self).l1_tables_spec().len(),
            vpn1 < 512,
            old(allocator).wf(),
        ensures
            final(self).wf(),
            final(allocator).wf(),
            final(allocator).regions() == old(allocator).regions(),
            forall|va: u64|
                translate_spec(*final(self), va) == translate_spec(*old(self), va),
            final(self).root_spec() == old(self).root_spec(),
            final(self).l1_ppns_spec() == old(self).l1_ppns_spec(),
            final(self).l1_tables_spec().len() == old(self).l1_tables_spec().len(),
            r is None ==> *final(self) == *old(self),
            pte_branch(old(self).l1_entry(l1_index as int, vpn1 as int)) ==> *final(self) == *old(
                self,
            ) && r == first_index_as_usize(
                old(self).l0_ppns_spec(),
                pte_ppn(old(self).l1_entry(l1_index as int, vpn1 as int)),
            ),
            pte_leaf(old(self).l1_entry(l1_index as int, vpn1 as int)) ==> r is None,
            r matches Some(k) ==> {
                &&& k < final(self).l0_tables_spec().len()
                &&& pte_branch(final(self).l1_entry(l1_index as int, vpn1 as int))
                &&& first_index_of(
                    final(self).l0_ppns_spec(),
                    pte_ppn(final(self).l1_entry(l1_index as int, vpn1 as int)),
                ) == Some(k as int)
            },
            !pte_branch(old(self).l1_entry(l1_index as int, vpn1 as int)) ==> (r matches Some(k)
                ==> forall|j: int| 0 <= j < 512 ==> final(self).l0_entry(k as int, j) == 0u64),
            allocated_size(*final(allocator)) <= allocated_size(*old(allocator)) + 4096,
            pte_branch(old(self).l1_entry(l1_index as int, vpn1 as int)) ==> *final(allocator)
                == *old(allocator),
            // Success is owed when no leaf blocks the entry, allocator
            // frames are fresh, and at least one page is left.
            !pte_leaf(old(self).l1_entry(l1_index as int, vpn1 as int)) && regions_disjoint(
                old(allocator).regions(),
            ) && allocator_frames_fresh(*old(self), *old(allocator)) && allocated_size(
                *old(allocator),
            ) + 4096 <= sum_region_sizes(old(allocator).regions()) ==> r is Some,
            regions_disjoint(old(allocator).regions()) && allocator_frames_fresh(
                *old(self),
                *old(allocator),
            ) ==> allocator_frames_fresh(*final(self), *final(allocator)),
            forall|q: u64| !walk_blocked(*old(self), q) ==> !walk_blocked(*final(self), q),
    {
        proof {
            assert(self.l1_tables_spec()[l1_index as int] == self.l1_tables@[l1_index as int]@);
        }
        let entry1 = (&self.l1_tables[l1_index]).get_entry(vpn1);
        if entry1.is_valid() {
            if entry1.is_leaf() {
                return None;
            }
            let found = find_ppn(&self.l0_ppns, entry1.get_ppn().raw_ppn());
            match found {
                Some(k) => {
                    proof {
                        lemma_first_index_of_characterization(self.l0_ppns@, pte_ppn(entry1@));
                    }
                    return Some(k);
                },
                None => {
                    proof {
                        let q = pte_ppn(entry1@);
                        assert(ppns_contain(self.l0_ppns_spec(), q));
                        let w = choose|w: int|
                            0 <= w < self.l0_ppns_spec().len() && self.l0_ppns_spec()[w] == q;
                        lemma_first_index_of_characterization(self.l0_ppns@, q);
                        assert(false);
                    }
                    return None;
                },
            }
        }

        // The entry is invalid: allocate and install a fresh level 0 table.
        let page_address = match allocator.allocate_page() {
            Some(a) => a,
            None => {
                proof {
                    lemma_may_return_congruence(*old(allocator), *allocator);
                    if regions_disjoint(old(allocator).regions()) && allocator_frames_fresh(
                        *old(self),
                        *old(allocator),
                    ) {
                        assert forall|x: usize| #[trigger] allocator_may_return(
                            *allocator,
                            x,
                        ) implies x < 0x100_0000_0000_0000 && !self.owns_table_ppn(
                            frame_of_address(x),
                        ) by {
                            assert(allocator_may_return(*old(allocator), x));
                        }
                    }
                    if allocated_size(*old(allocator)) + 4096 <= sum_region_sizes(
                        old(allocator).regions(),
                    ) {
                        lemma_allocate_page_exhaustion(*old(allocator));
                        assert(false);
                    }
                }
                return None;
            },
        };
        proof {
            lemma_allocate_page_exhaustion(*old(allocator));
            assert(allocator.regions() == old(allocator).regions());
            assert(allocated_size(*allocator) == allocated_size(*old(allocator)) + 4096);
        }
        let table_ppn = (page_address as u64 >> 12) & 0x0000_0FFF_FFFF_FFFF;
        let found_level_1 = find_ppn(&self.l1_ppns, table_ppn);
        if found_level_1.is_some() {
            proof {
                lemma_first_index_of_characterization(self.l1_ppns@, table_ppn);
                if regions_disjoint(old(allocator).regions()) && allocator_frames_fresh(
                    *old(self),
                    *old(allocator),
                ) {
                    lemma_allocate_step_fresh(*old(allocator), *allocator, page_address);
                    assert(allocator_may_return(*old(allocator), page_address));
                    let i = found_level_1->Some_0;
                    assert(self.l1_ppns_spec()[i as int] == table_ppn);
                    assert(ppns_contain(self.l1_ppns_spec(), table_ppn));
                    assert(false);
                }
            }
            return None;
        }
        let found_level_0 = find_ppn(&self.l0_ppns, table_ppn);
        if found_level_0.is_some() {
            proof {
                lemma_first_index_of_characterization(self.l0_ppns@, table_ppn);
                if regions_disjoint(old(allocator).regions()) && allocator_frames_fresh(
                    *old(self),
                    *old(allocator),
                ) {
                    lemma_allocate_step_fresh(*old(allocator), *allocator, page_address);
                    assert(allocator_may_return(*old(allocator), page_address));
                    let i = found_level_0->Some_0;
                    assert(self.l0_ppns_spec()[i as int] == table_ppn);
                    assert(ppns_contain(self.l0_ppns_spec(), table_ppn));
                    assert(false);
                }
            }
            return None;
        }
        proof {
            lemma_first_index_of_characterization(self.l1_ppns@, table_ppn);
            lemma_first_index_of_characterization(self.l0_ppns@, table_ppn);
            if ppns_contain(self.l1_ppns_spec(), table_ppn) {
                let w = choose|w: int|
                    0 <= w < self.l1_ppns_spec().len() && self.l1_ppns_spec()[w] == table_ppn;
                assert(false);
            }
            if ppns_contain(self.l0_ppns_spec(), table_ppn) {
                let w = choose|w: int|
                    0 <= w < self.l0_ppns_spec().len() && self.l0_ppns_spec()[w] == table_ppn;
                assert(false);
            }
        }

        let ghost s1 = *self;
        let table = PageTable::new();
        let ghost tview = table@;
        self.l0_ppns.push(table_ppn);
        self.l0_tables.push(table);

        let mut entry = PageTableEntry::new();
        entry.set_valid(true);
        entry.set_ppn(PhysicalPageNumber(table_ppn));
        proof {
            lemma_zero_entry_invalid();
            lemma_mask44_idempotent(page_address as u64 >> 12);
            assert(pte_branch(entry@));
            assert(pte_ppn(entry@) == table_ppn);
        }
        let level_1_table = &mut self.l1_tables[l1_index];
        level_1_table.set_entry(vpn1, entry);

        proof {
            assert(self.l0_tables_spec() =~= s1.l0_tables_spec().push(tview));
            assert(self.l1_tables_spec() =~= s1.l1_tables_spec().update(
                l1_index as int,
                s1.l1_tables_spec()[l1_index as int].update(vpn1 as int, entry@),
            ));
            lemma_install_l0_preserves_translate(
                s1,
                *self,
                l1_index as int,
                vpn1,
                entry@,
                table_ppn,
                tview,
            );
            lemma_first_index_of_push(s1.l0_ppns_spec(), table_ppn, table_ppn);
            // The remaining allocator frames stay fresh for the extended
            // space: the consumed frame is the only new table.
            if regions_disjoint(old(allocator).regions()) && allocator_frames_fresh(
                *old(self),
                *old(allocator),
            ) {
                lemma_allocate_step_fresh(*old(allocator), *allocator, page_address);
                assert(allocator_may_return(*old(allocator), page_address));
                let ghost n0 = s1.l0_ppns_spec().len() as int;
                assert forall|x: usize| #[trigger] allocator_may_return(*allocator, x) implies x
                    < 0x100_0000_0000_0000 && !self.owns_table_ppn(frame_of_address(x)) by {
                    assert(allocator_may_return(*old(allocator), x));
                    assert(frame_of_address(x) != frame_of_address(page_address));
                    if self.owns_table_ppn(frame_of_address(x)) {
                        if ppns_contain(self.l0_ppns_spec(), frame_of_address(x)) {
                            let w = choose|w: int|
                                0 <= w < self.l0_ppns_spec().len() && self.l0_ppns_spec()[w]
                                    == frame_of_address(x);
                            if w < n0 {
                                assert(s1.l0_ppns_spec()[w] == frame_of_address(x));
                                assert(ppns_contain(s1.l0_ppns_spec(), frame_of_address(x)));
                            } else {
                                assert(frame_of_address(x) == table_ppn);
                            }
                            assert(false);
                        } else {
                            let w = choose|w: int|
                                0 <= w < self.l1_ppns_spec().len() && self.l1_ppns_spec()[w]
                                    == frame_of_address(x);
                            assert(ppns_contain(s1.l1_ppns_spec(), frame_of_address(x)));
                            assert(false);
                        }
                    }
                }
            }
        }
        Some(self.l0_ppns.len() - 1)
    }
}

/// The first index of a page number, as the option of a machine integer.
/// The 44-bit frame number of a physical byte address, as a page table
/// entry would store it.
pub open spec fn frame_of_address(address: usize) -> u64 {
    ((address as u64) >> 12) & 0xFFF_FFFF_FFFF
}

/// Whether the allocator may still return this address from some future
/// allocation: it lies in the current region at or past the bump pointer,
/// or in a later region.
pub open spec fn allocator_may_return(a: PhysicalBumpAllocator, address: usize) -> bool {
    exists|j: int|
        a.index() <= j < a.regions().len() && (#[trigger] a.regions()[j]).start <= address
            < a.regions()[j].start + a.regions()[j].size && (j > a.index() || address >= a.next())
}

/// No frame the allocator may still hand out hosts one of the address
/// space's tables, and every such frame lies below the 56-bit physical
/// address bound, so distinct frames keep distinct 44-bit numbers. Under
/// this condition a table allocation can never collide with an existing
/// table.
pub open spec fn allocator_frames_fresh(s: AddressSpace, a: PhysicalBumpAllocator) -> bool {
    forall|address: usize|
        #[trigger] allocator_may_return(a, address) ==> address < 0x100_0000_0000_0000
            && !s.owns_table_ppn(frame_of_address(address))
}

/// Whether the three-level walk for a virtual page number runs into a 1 GiB
/// or 2 MiB leaf: a valid leaf at the root slot, or one at the level 1
/// entry. Such a walk cannot be extended with a 4 KiB mapping without
/// clobbering the larger page. A branch that names no known table counts as
/// blocked too, though a well-formed address space never holds one.
pub open spec fn walk_blocked(s: AddressSpace, vpn: u64) -> bool {
    let e2 = s.root_spec()[level_2_index(vpn) as int];
    pte_leaf(e2) || (pte_branch(e2) && match first_index_of(s.l1_ppns_spec(), pte_ppn(e2)) {
        None => true,
        Some(i) => pte_leaf(s.l1_entry(i, level_1_index(vpn) as int)),
    })
}

/// Two allocators with the same snapshot and position may return the same
/// addresses.
proof fn lemma_may_return_congruence(a: PhysicalBumpAllocator, b: PhysicalBumpAllocator)
    requires
        a.regions() == b.regions(),
        a.index() == b.index(),
        a.next() == b.next(),
    ensures
        forall|x: usize| allocator_may_return(a, x) == allocator_may_return(b, x),
{
    assert forall|x: usize|
        allocator_may_return(a, x) == allocator_may_return(b, x) by {
        if allocator_may_return(a, x) {
            let j = choose|j: int|
                a.index() <= j < a.regions().len() && (#[trigger] a.regions()[j]).start <= x
                    < a.regions()[j].start + a.regions()[j].size && (j > a.index() || x
                    >= a.next());
            assert(b.regions()[j].start <= x < b.regions()[j].start + b.regions()[j].size);
            assert(allocator_may_return(b, x));
        }
        if allocator_may_return(b, x) {
            let j = choose|j: int|
                b.index() <= j < b.regions().len() && (#[trigger] b.regions()[j]).start <= x
                    < b.regions()[j].start + b.regions()[j].size && (j > b.index() || x
                    >= b.next());
            assert(a.regions()[j].start <= x < a.regions()[j].start + a.regions()[j].size);
            assert(allocator_may_return(a, x));
        }
    }
}

/// The number of pages in a closed page-number range, zero when it is
/// empty.
pub open spec fn page_span(lo: u64, hi: u64) -> int {
    if lo <= hi {
        hi - lo + 1
    } else {
        0
    }
}

/// A successful allocation hands out an address the allocator could still
/// return, and afterwards no remaining address shares that frame: the
/// returned frame is consumed for good.
proof fn lemma_allocate_step_fresh(
    a: PhysicalBumpAllocator,
    a2: PhysicalBumpAllocator,
    address: usize,
)
    requires
        a.wf(),
        regions_disjoint(a.regions()),
        a2.regions() == a.regions(),
        a2.index() == allocate_page_step(a).0,
        a2.next() == allocate_page_step(a).1,
        allocate_page_step(a).2 == Some(address),
    ensures
        allocator_may_return(a, address),
        forall|x: usize|
            #[trigger] allocator_may_return(a2, x) ==> allocator_may_return(a, x) && (x
                < 0x100_0000_0000_0000 && address < 0x100_0000_0000_0000 ==> frame_of_address(x)
                != frame_of_address(address)),
{
    let idx = a.index() as int;
    let region = a.regions()[idx];
    assert(allocator_may_return(a, address)) by {
        assert(a.regions()[idx].start <= address < a.regions()[idx].start + a.regions()[idx].size);
    }
    assert forall|x: usize| #[trigger] allocator_may_return(a2, x) implies allocator_may_return(
        a,
        x,
    ) && (x < 0x100_0000_0000_0000 && address < 0x100_0000_0000_0000 ==> frame_of_address(x)
        != frame_of_address(address)) by {
        let j = choose|j: int|
            a2.index() <= j < a2.regions().len() && (#[trigger] a2.regions()[j]).start <= x
                < a2.regions()[j].start + a2.regions()[j].size && (j > a2.index() || x
                >= a2.next());
        assert(a.regions()[j].start <= x < a.regions()[j].start + a.regions()[j].size);
        assert(allocator_may_return(a, x)) by {
            assert(j >= a.index());
            if j == a.index() {
                assert(x >= a2.next() && a2.index() == a.index());
                assert(a2.next() >= a.next());
            }
        }
        if x < 0x100_0000_0000_0000 && address < 0x100_0000_0000_0000 {
            assert(address == a.next() && address % 4096 == 0);
            // The handed-out page is consumed: every remaining address lies
            // at least one page further on, or in a disjoint region.
            assert(x >= address + 4096 || x < address) by {
                if j == idx {
                    assert(x >= a2.next());
                    assert(a2.next() >= address + 4096);
                } else {
                    assert(!regions_overlap(a.regions()[idx], a.regions()[j]));
                    if address <= x < address + 4096 {
                        assert(region.start <= x < region.start + region.size);
                        assert(crate::memory::region_contains(a.regions()[idx], x as int));
                        assert(crate::memory::region_contains(a.regions()[j], x as int));
                        assert(regions_overlap(a.regions()[idx], a.regions()[j]));
                    }
                }
            }
            let addr64 = address as u64;
            let x64 = x as u64;
            assert(((x64 >> 12) & 0xFFF_FFFF_FFFF) != ((addr64 >> 12) & 0xFFF_FFFF_FFFF))
                by (bit_vector)
                requires
                    addr64 % 4096 == 0,
                    x64 < 0x100_0000_0000_0000,
                    addr64 < 0x100_0000_0000_0000,
                    x64 >= addr64 + 4096 || x64 < addr64,
            ;
        }
    }
}

pub open spec fn first_index_as_usize(ppns: Seq<u64>, p: u64) -> Option<usize> {
    match first_index_of(ppns, p) {
        Some(i) => Some(i as usize),
        None => None,
    }
}

/// Assigns a physical page to the specified virtual page number in the
/// address space, creating intermediate page tables as needed. A new
/// physical page is allocated when no `ppn` is provided.
///
/// The resulting leaf entry is valid, carries the permissions of `flags`,
/// and has its accessed and dirty bits cleared. If the virtual page already
/// has a valid 4 KiB leaf mapping, that mapping is left as it is and its
/// physical page number is returned.
///
/// Returns the physical page number that was mapped, or `None` when an
/// allocation fails, when an allocated frame already hosts one of this
/// address space's tables, or when a 1 GiB or 2 MiB leaf already covers the
/// virtual page. A call that returns `None` changes no translation.
pub fn allocate_vpn(
    address_space: &mut AddressSpace,
    vpn: VirtualPageNumber,
    ppn: Option<PhysicalPageNumber>,
    flags: &PageTableEntryFlags,
    physical_memory_allocator: &mut PhysicalBumpAllocator,
) -> (r: Option<PhysicalPageNumber>)
    requires
        old(address_space).wf(),
        old(physical_memory_allocator).wf(),
    ensures
        final(address_space).wf(),
        final(physical_memory_allocator).wf(),
        final(physical_memory_allocator).regions() == old(physical_memory_allocator).regions(),
        // Every address of the mapped page translates to the returned frame.
        r matches Some(p) ==> forall|va: u64|
            va_matches_vpn(va, vpn.0) ==> translate_spec(*final(address_space), va) == Some(
                ((p.0 & 0xFFF_FFFF_FFFF) << 12) | va_page_offset(va),
            ),
        // No other page's translation changes.
        forall|va: u64|
            !va_matches_vpn(va, vpn.0) ==> translate_spec(*final(address_space), va)
                == translate_spec(*old(address_space), va),
        // A failed call changes no translation at all.
        r is None ==> forall|va: u64|
            translate_spec(*final(address_space), va) == translate_spec(
                *old(address_space),
                va,
            ),
        // An existing 4 KiB leaf mapping is returned unchanged.
        mapped_leaf(*old(address_space), vpn.0) matches Some(e0) ==> (pte_leaf(e0) ==> r == Some(
            PhysicalPageNumber(pte_ppn(e0)),
        ) && *final(address_space) == *old(address_space)),
        // When the walk already exists and a frame is supplied, success is
        // owed: nothing needs to be allocated.
        mapped_leaf(*old(address_space), vpn.0) matches Some(e0) ==> (!pte_leaf(e0) && ppn is Some
            ==> r == ppn),
        // A supplied frame is the one that gets mapped, unless a leaf already
        // stood there.
        (r is Some && ppn is Some && !(mapped_leaf(*old(address_space), vpn.0) matches Some(e0)
            && pte_leaf(e0))) ==> r == ppn,
        // Returning an existing mapping consumes nothing: the allocator is
        // untouched.
        mapped_leaf(*old(address_space), vpn.0) matches Some(e0) ==> (pte_leaf(e0)
            ==> *final(physical_memory_allocator) == *old(physical_memory_allocator)),
        // A call with a supplied frame consumes at most the two intermediate
        // tables.
        ppn is Some ==> allocated_size(*final(physical_memory_allocator)) <= allocated_size(
            *old(physical_memory_allocator),
        ) + 2 * 4096,
        // A freshly installed leaf carries exactly the requested permission
        // bits, with the accessed and dirty bits cleared.
        (r is Some && !(mapped_leaf(*old(address_space), vpn.0) matches Some(e) && pte_leaf(e)))
            ==> (mapped_leaf(*final(address_space), vpn.0) matches Some(e0) && pte_valid(e0)
            && pte_readable(e0) == flags.readable && pte_writable(e0) == flags.writable
            && pte_executable(e0) == flags.executable && pte_user(e0) == flags.user
            && pte_global(e0) == flags.global && !pte_accessed(e0) && !pte_dirty(e0)),
        // Success is owed when a frame is supplied, no 1 GiB or 2 MiB leaf
        // blocks the walk, the allocator's remaining frames host no table of
        // this space, and two pages are left: the call can then only fail by
        // choice, and it does not.
        ppn is Some && !walk_blocked(*old(address_space), vpn.0) && regions_disjoint(
            old(physical_memory_allocator).regions(),
        ) && allocator_frames_fresh(*old(address_space), *old(physical_memory_allocator))
            && allocated_size(*old(physical_memory_allocator)) + 2 * 4096 <= sum_region_sizes(
            old(physical_memory_allocator).regions(),
        ) ==> r is Some,
        // With no frame supplied, a third page backs the mapping itself:
        // success is owed with three pages left.
        ppn is None && !walk_blocked(*old(address_space), vpn.0) && regions_disjoint(
            old(physical_memory_allocator).regions(),
        ) && allocator_frames_fresh(*old(address_space), *old(physical_memory_allocator))
            && allocated_size(*old(physical_memory_allocator)) + 3 * 4096 <= sum_region_sizes(
            old(physical_memory_allocator).regions(),
        ) ==> r is Some,
        allocated_size(*final(physical_memory_allocator)) <= allocated_size(
            *old(physical_memory_allocator),
        ) + 3 * 4096,
        // Fresh allocator frames stay fresh, and no unblocked walk becomes
        // blocked: only level 0 leaves and branches to new tables are
        // installed.
        regions_disjoint(old(physical_memory_allocator).regions()) && allocator_frames_fresh(
            *old(address_space),
            *old(physical_memory_allocator),
        ) ==> allocator_frames_fresh(*final(address_space), *final(physical_memory_allocator)),
        forall|q: u64|
            !walk_blocked(*old(address_space), q) ==> !walk_blocked(*final(address_space), q),
{
    let ghost s0 = *address_space;
    let vpn2 = vpn.get_level_2_index();
    let vpn1 = vpn.get_level_1_index();
    let vpn0 = vpn.get_level_0_index();

    let level_1_table_index = match address_space.ensure_level_1(
        vpn2,
        physical_memory_allocator,
    ) {
        Some(i) => i,
        None => {
            proof {
                if mapped_leaf(s0, vpn.0) is Some {
                    // The root entry is a branch to a known table, so the
                    // helper would have returned its index.
                    assert(pte_branch(s0.root_spec()[vpn2 as int]));
                    let q2 = pte_ppn(s0.root_spec()[vpn2 as int]);
                    assert(ppns_contain(s0.l1_ppns_spec(), q2));
                    lemma_first_index_of_characterization(s0.l1_ppns_spec(), q2);
                    if first_index_of(s0.l1_ppns_spec(), q2) is None {
                        let w = choose|w: int|
                            0 <= w < s0.l1_ppns_spec().len() && s0.l1_ppns_spec()[w] == q2;
                        assert(false);
                    }
                    assert(false);
                }
                if !walk_blocked(s0, vpn.0) && regions_disjoint(
                    old(physical_memory_allocator).regions(),
                ) && allocator_frames_fresh(s0, *old(physical_memory_allocator))
                    && allocated_size(*old(physical_memory_allocator)) + 2 * 4096
                    <= sum_region_sizes(old(physical_memory_allocator).regions()) {
                    assert(!pte_leaf(s0.root_spec()[vpn2 as int]));
                    assert(false);
                }
            }
            return None;
        },
    };
    let ghost s_l1 = *address_space;
    let ghost a_l1 = *physical_memory_allocator;

    let level_0_table_index = match address_space.ensure_level_0(
        level_1_table_index,
        vpn1,
        physical_memory_allocator,
    ) {
        Some(k) => k,
        None => {
            proof {
                assert forall|va: u64|
                    translate_spec(*address_space, va) == translate_spec(s0, va) by {
                    assert(translate_spec(s_l1, va) == translate_spec(s0, va));
                }
                if mapped_leaf(s0, vpn.0) is Some {
                    // The helpers walk exactly the path the old mapping
                    // uses, so the level 1 entry is a branch to a known
                    // level 0 table and the helper would have succeeded.
                    assert(pte_branch(s0.root_spec()[vpn2 as int]));
                    assert(s_l1 == s0);
                    assert(pte_branch(s0.l1_entry(level_1_table_index as int, vpn1 as int)));
                    let q1 = pte_ppn(s0.l1_entry(level_1_table_index as int, vpn1 as int));
                    assert(ppns_contain(s0.l0_ppns_spec(), q1));
                    lemma_first_index_of_characterization(s0.l0_ppns_spec(), q1);
                    if first_index_of(s0.l0_ppns_spec(), q1) is None {
                        let w = choose|w: int|
                            0 <= w < s0.l0_ppns_spec().len() && s0.l0_ppns_spec()[w] == q1;
                        assert(false);
                    }
                    assert(false);
                }
                if !walk_blocked(s0, vpn.0) && regions_disjoint(
                    old(physical_memory_allocator).regions(),
                ) && allocator_frames_fresh(s0, *old(physical_memory_allocator))
                    && allocated_size(*old(physical_memory_allocator)) + 2 * 4096
                    <= sum_region_sizes(old(physical_memory_allocator).regions()) {
                    // The level 1 entry is no leaf, frames are still fresh
                    // and a page is left, so the helper succeeds.
                    lemma_zero_entry_invalid();
                    if pte_branch(s0.root_spec()[vpn2 as int]) {
                        assert(s_l1 == s0);
                        assert(!pte_leaf(s_l1.l1_entry(level_1_table_index as int, vpn1 as int)));
                    } else {
                        assert(s_l1.l1_entry(level_1_table_index as int, vpn1 as int) == 0u64);
                    }
                    assert(allocator_frames_fresh(s_l1, a_l1));
                    assert(allocated_size(a_l1) + 4096 <= sum_region_sizes(a_l1.regions()));
                    assert(false);
                }
                assert forall|q: u64|
                    !walk_blocked(s0, q) implies !walk_blocked(*address_space, q) by {
                    assert(!walk_blocked(s_l1, q));
                }
                if regions_disjoint(old(physical_memory_allocator).regions())
                    && allocator_frames_fresh(s0, *old(physical_memory_allocator)) {
                    assert(allocator_frames_fresh(
                        *address_space,
                        *physical_memory_allocator,
                    ));
                }
            }
            return None;
        },
    };
    let ghost s_l0 = *address_space;
    let ghost a_l0 = *physical_memory_allocator;

    proof {
        // The path facts established by the two helpers survive, because
        // `ensure_level_0` leaves the root and the level 1 page numbers
        // untouched.
        assert(pte_branch(s_l0.root_spec()[vpn2 as int]));
        assert(first_index_of(s_l0.l1_ppns_spec(), pte_ppn(s_l0.root_spec()[vpn2 as int]))
            == Some(level_1_table_index as int));
        assert forall|va: u64| translate_spec(s_l0, va) == translate_spec(s0, va) by {
            assert(translate_spec(s_l0, va) == translate_spec(s_l1, va));
            assert(translate_spec(s_l1, va) == translate_spec(s0, va));
        }
        assert forall|q: u64| !walk_blocked(s0, q) implies !walk_blocked(s_l0, q) by {
            assert(!walk_blocked(s_l1, q));
        }
        if regions_disjoint(old(physical_memory_allocator).regions()) && allocator_frames_fresh(
            s0,
            *old(physical_memory_allocator),
        ) {
            assert(allocator_frames_fresh(s_l1, a_l1));
            assert(allocator_frames_fresh(s_l0, a_l0));
        }
        assert(allocated_size(a_l0) <= allocated_size(*old(physical_memory_allocator)) + 2
            * 4096);
    }

    proof {
        assert(address_space.l0_tables_spec()[level_0_table_index as int]
            == address_space.l0_tables@[level_0_table_index as int]@);
        // Either nothing was installed and the current walk is the old one,
        // or a freshly installed table makes the level 0 entry invalid.
        assert(s_l0 == s0 || !pte_valid(
            address_space.l0_entry(level_0_table_index as int, vpn0 as int),
        )) by {
            lemma_zero_entry_invalid();
            if pte_branch(s0.root_spec()[vpn2 as int]) {
                assert(s_l1 == s0);
                if !pte_branch(s0.l1_entry(level_1_table_index as int, vpn1 as int)) {
                    assert(address_space.l0_entry(level_0_table_index as int, vpn0 as int)
                        == 0u64);
                }
            } else {
                assert(s_l1.l1_entry(level_1_table_index as int, vpn1 as int) == 0u64);
                assert(address_space.l0_entry(level_0_table_index as int, vpn0 as int) == 0u64);
            }
        }
        // When the old space already held the whole walk, the helpers
        // returned exactly its lookup indices.
        if mapped_leaf(s0, vpn.0) is Some {
            assert(pte_branch(s0.root_spec()[vpn2 as int]));
            assert(s_l0 == s0);
            assert(mapped_leaf(s0, vpn.0) == Some(
                s0.l0_entry(level_0_table_index as int, vpn0 as int),
            )) by {
                lemma_roundtrip_from_path(
                    s0,
                    vpn.0,
                    vpn2,
                    vpn1,
                    vpn0,
                    level_1_table_index as int,
                    level_0_table_index as int,
                );
            }
        }
    }

    let entry0 = (&address_space.l0_tables[level_0_table_index]).get_entry(vpn0);

    if entry0.is_valid() && entry0.is_leaf() {
        // The page is already mapped: return the existing physical page;
        // nothing was installed and nothing was allocated on the way here.
        let existing = entry0.get_ppn();
        proof {
            assert(s_l0 == s0);
            assert(*physical_memory_allocator == *old(physical_memory_allocator)) by {
                assert(pte_branch(s0.root_spec()[vpn2 as int]));
                assert(pte_branch(s0.l1_entry(level_1_table_index as int, vpn1 as int)));
            }
            lemma_roundtrip_from_path(
                *address_space,
                vpn.0,
                vpn2,
                vpn1,
                vpn0,
                level_1_table_index as int,
                level_0_table_index as int,
            );
            lemma_mask44_idempotent(entry0@ >> 10);
            assert forall|va: u64| va_matches_vpn(va, vpn.0) implies translate_spec(
                *address_space,
                va,
            ) == Some(((existing.0 & 0xFFF_FFFF_FFFF) << 12) | va_page_offset(va)) by {
                assert(existing.0 & 0xFFF_FFFF_FFFF == pte_ppn(entry0@));
            }
        }
        return Some(existing);
    }

    proof {
        // A pre-existing leaf would have been returned above.
        if mapped_leaf(s0, vpn.0) is Some {
            let e0 = mapped_leaf(s0, vpn.0)->Some_0;
            if pte_leaf(e0) {
                assert(entry0@ == e0);
                assert(false);
            }
        }
    }

    // Determine the physical page to map: the caller's, or a fresh one.
    let target = match ppn {
        Some(supplied) => supplied,
        None => {
            match physical_memory_allocator.allocate_page() {
                Some(address) => {
                    proof {
                        lemma_allocate_page_exhaustion(a_l0);
                        assert(allocated_size(*physical_memory_allocator) == allocated_size(a_l0)
                            + 4096);
                        if regions_disjoint(old(physical_memory_allocator).regions())
                            && allocator_frames_fresh(s0, *old(physical_memory_allocator)) {
                            lemma_allocate_step_fresh(
                                a_l0,
                                *physical_memory_allocator,
                                address,
                            );
                            assert forall|x: usize| #[trigger] allocator_may_return(
                                *physical_memory_allocator,
                                x,
                            ) implies x < 0x100_0000_0000_0000 && !address_space.owns_table_ppn(
                                frame_of_address(x),
                            ) by {
                                assert(allocator_may_return(a_l0, x));
                            }
                            assert(allocator_frames_fresh(
                                *address_space,
                                *physical_memory_allocator,
                            ));
                        }
                    }
                    PhysicalPageNumber((address as u64) >> 12)
                },
                None => {
                    proof {
                        assert forall|va: u64|
                            translate_spec(*address_space, va) == translate_spec(s0, va) by {
                            assert(translate_spec(s_l0, va) == translate_spec(s0, va));
                        }
                        lemma_may_return_congruence(a_l0, *physical_memory_allocator);
                        if !walk_blocked(s0, vpn.0) && regions_disjoint(
                            old(physical_memory_allocator).regions(),
                        ) && allocator_frames_fresh(s0, *old(physical_memory_allocator))
                            && allocated_size(*old(physical_memory_allocator)) + 3 * 4096
                            <= sum_region_sizes(old(physical_memory_allocator).regions()) {
                            lemma_allocate_page_exhaustion(a_l0);
                            assert(false);
                        }
                        if regions_disjoint(old(physical_memory_allocator).regions())
                            && allocator_frames_fresh(s0, *old(physical_memory_allocator)) {
                            assert forall|x: usize| #[trigger] allocator_may_return(
                                *physical_memory_allocator,
                                x,
                            ) implies x < 0x100_0000_0000_0000 && !address_space.owns_table_ppn(
                                frame_of_address(x),
                            ) by {
                                assert(allocator_may_return(a_l0, x));
                            }
                        }
                    }
                    return None;
                },
            }
        },
    };
    let ghost a_target = *physical_memory_allocator;
    proof {
        if regions_disjoint(old(physical_memory_allocator).regions()) && allocator_frames_fresh(
            s0,
            *old(physical_memory_allocator),
        ) {
            assert(allocator_frames_fresh(*address_space, a_target));
        }
    }

    // Build and install the leaf entry: valid, with the requested
    // permissions, accessed and dirty cleared.
    let mut leaf_entry = PageTableEntry::new();
    leaf_entry.set_valid(true);
    leaf_entry.set_flags(flags);
    leaf_entry.set_ppn(target);
    proof {
        lemma_zero_entry_invalid();
    }

    let ghost s_before = *address_space;
    let level_0_table = &mut address_space.l0_tables[level_0_table_index];
    level_0_table.set_entry(vpn0, leaf_entry);

    proof {
        assert(address_space.l0_tables_spec() =~= s_before.l0_tables_spec().update(
            level_0_table_index as int,
            s_before.l0_tables_spec()[level_0_table_index as int].update(
                vpn0 as int,
                leaf_entry@,
            ),
        ));
        lemma_write_leaf_frame(
            s_before,
            *address_space,
            vpn2,
            vpn1,
            vpn0,
            level_1_table_index as int,
            level_0_table_index as int,
        );
        lemma_roundtrip_from_path(
            *address_space,
            vpn.0,
            vpn2,
            vpn1,
            vpn0,
            level_1_table_index as int,
            level_0_table_index as int,
        );
        lemma_mapped_leaf_from_path(
            s0,
            s_before,
            vpn.0,
            vpn2,
            vpn1,
            vpn0,
            level_1_table_index as int,
            level_0_table_index as int,
        );
        assert forall|va: u64|
            !va_matches_vpn(va, vpn.0) implies translate_spec(*address_space, va)
            == translate_spec(s0, va) by {
            assert(translate_spec(*address_space, va) == translate_spec(s_before, va));
            assert(translate_spec(s_before, va) == translate_spec(s0, va));
        }
        // The installed leaf carries exactly the requested bits.
        assert(mapped_leaf(*address_space, vpn.0) == Some(leaf_entry@));
        // No unblocked walk became blocked, and the remaining allocator
        // frames are still fresh: the written level 0 entry affects neither.
        assert forall|q: u64|
            !walk_blocked(s0, q) implies !walk_blocked(*address_space, q) by {
            assert(!walk_blocked(s_l0, q));
            assert(walk_blocked(*address_space, q) == walk_blocked(s_before, q));
        }
        if regions_disjoint(old(physical_memory_allocator).regions()) && allocator_frames_fresh(
            s0,
            *old(physical_memory_allocator),
        ) {
            assert forall|x: usize| #[trigger] allocator_may_return(a_target, x) implies x
                < 0x100_0000_0000_0000 && !address_space.owns_table_ppn(frame_of_address(x)) by {
                assert(!s_before.owns_table_ppn(frame_of_address(x)));
                assert(address_space.l1_ppns_spec() == s_before.l1_ppns_spec());
                assert(address_space.l0_ppns_spec() == s_before.l0_ppns_spec());
            }
            assert(allocator_frames_fresh(*address_space, *physical_memory_allocator));
        }
    }

    Some(target)
}

/// When the branch path for a virtual page number stands in the address
/// space, every matching virtual address translates through its level 0
/// entry.
proof fn lemma_roundtrip_from_path(
    s: AddressSpace,
    vpn: u64,
    vpn2: usize,
    vpn1: usize,
    vpn0: usize,
    i1: int,
    i0: int,
)
    requires
        s.wf(),
        vpn2 == level_2_index(vpn),
        vpn1 == level_1_index(vpn),
        vpn0 == level_0_index(vpn),
        pte_branch(s.root_spec()[vpn2 as int]),
        first_index_of(s.l1_ppns_spec(), pte_ppn(s.root_spec()[vpn2 as int])) == Some(i1),
        pte_branch(s.l1_entry(i1, vpn1 as int)),
        first_index_of(s.l0_ppns_spec(), pte_ppn(s.l1_entry(i1, vpn1 as int))) == Some(i0),
    ensures
        forall|va: u64|
            va_matches_vpn(va, vpn) ==> translate_spec(s, va) == (if pte_valid(
                s.l0_entry(i0, vpn0 as int),
            ) {
                Some((pte_ppn(s.l0_entry(i0, vpn0 as int)) << 12) | va_page_offset(va))
            } else {
                Option::<u64>::None
            }),
        mapped_leaf(s, vpn) == Some(s.l0_entry(i0, vpn0 as int)),
{
    lemma_first_index_of_characterization(s.l1_ppns_spec(), pte_ppn(s.root_spec()[vpn2 as int]));
    lemma_first_index_of_characterization(s.l0_ppns_spec(), pte_ppn(s.l1_entry(i1, vpn1 as int)));
}

/// The level 0 entry the walk reaches is the same before and after the two
/// table-installing steps, provided the old walk already existed; and when
/// the old walk did not exist, the freshly installed tables hold a cleared
/// entry there.
proof fn lemma_mapped_leaf_from_path(
    s0: AddressSpace,
    s: AddressSpace,
    vpn: u64,
    vpn2: usize,
    vpn1: usize,
    vpn0: usize,
    i1: int,
    i0: int,
)
    requires
        s0.wf(),
        s.wf(),
        vpn2 == level_2_index(vpn),
        vpn1 == level_1_index(vpn),
        vpn0 == level_0_index(vpn),
        pte_branch(s.root_spec()[vpn2 as int]),
        first_index_of(s.l1_ppns_spec(), pte_ppn(s.root_spec()[vpn2 as int])) == Some(i1),
        pte_branch(s.l1_entry(i1, vpn1 as int)),
        first_index_of(s.l0_ppns_spec(), pte_ppn(s.l1_entry(i1, vpn1 as int))) == Some(i0),
        mapped_leaf(s0, vpn) is Some ==> s0 == s,
    ensures
        mapped_leaf(s0, vpn) is Some ==> mapped_leaf(s0, vpn) == Some(
            s.l0_entry(i0, vpn0 as int),
        ),
{
    lemma_first_index_of_characterization(s.l1_ppns_spec(), pte_ppn(s.root_spec()[vpn2 as int]));
    lemma_first_index_of_characterization(s.l0_ppns_spec(), pte_ppn(s.l1_entry(i1, vpn1 as int)));
}

/// Translates a virtual address to its corresponding physical address by
/// walking the three-level page-table hierarchy, following the Sv39 rules
/// for 1 GiB and 2 MiB leaf entries on the way down. Returns `None` as soon
/// as the walk meets an invalid entry.
pub fn translate_virtual_address(address_space: &AddressSpace, virtual_address: u64) -> (r: Option<
    u64,
>)
    requires
        address_space.wf(),
    ensures
        r == translate_spec(*address_space, virtual_address),
{
    let va = virtual_address;
    proof {
        assert((va >> 30) & 0x1FF < 512 && (va >> 21) & 0x1FF < 512 && (va >> 12) & 0x1FF < 512)
            by (bit_vector);
    }
    let vpn2 = ((va >> 30) & 0x1FF) as usize;
    let vpn1 = ((va >> 21) & 0x1FF) as usize;
    let vpn0 = ((va >> 12) & 0x1FF) as usize;
    let offset = va & 0xFFF;

    let entry2 = address_space.root.get_entry(vpn2);
    if !entry2.is_valid() {
        return None;
    }
    if entry2.is_leaf() {
        // A leaf at the root level maps a 1 GiB gigapage.
        return Some(((entry2.get_ppn().0 >> 18) << 30) | (va & 0x3FFF_FFFF));
    }

    let level_1_table_index = match find_ppn(&address_space.l1_ppns, entry2.get_ppn().0) {
        Some(i) => i,
        None => {
            return None;
        },
    };
    proof {
        lemma_first_index_of_characterization(address_space.l1_ppns@, pte_ppn(entry2@));
    }

    let entry1 = address_space.l1_tables[level_1_table_index].get_entry(vpn1);
    if !entry1.is_valid() {
        return None;
    }
    if entry1.is_leaf() {
        // A leaf at level 1 maps a 2 MiB megapage.
        return Some(((entry1.get_ppn().0 >> 9) << 21) | (va & 0x1F_FFFF));
    }

    let level_0_table_index = match find_ppn(&address_space.l0_ppns, entry1.get_ppn().0) {
        Some(i) => i,
        None => {
            return None;
        },
    };
    proof {
        lemma_first_index_of_characterization(address_space.l0_ppns@, pte_ppn(entry1@));
    }

    let entry0 = address_space.l0_tables[level_0_table_index].get_entry(vpn0);
    if !entry0.is_valid() {
        return None;
    }

    Some((entry0.get_ppn().0 << 12) | offset)
}

/// The 27-bit page index a virtual address translates under: the three level
/// indices taken together.
pub open spec fn va_page_index(va: u64) -> u64 {
    (va >> 12) & 0x7FF_FFFF
}

/// A virtual address matches a virtual page number below 2^27 exactly when
/// its page index equals that number, and such a page number is unchanged by
/// masking to 44 bits.
pub proof fn lemma_va_matches_page_index(va: u64, q: u64)
    by (bit_vector)
    requires
        q < 0x800_0000,
    ensures
        va_matches_vpn(va, q) <==> va_page_index(va) == q,
        q & 0xFFF_FFFF_FFFF == q,
{
}

/// Adding an offset to a virtual page number adds it to the page index, as
/// long as the masked index does not wrap.
pub proof fn lemma_va_matches_vpn_offset(va: u64, vpn: u64, i: u64)
    by (bit_vector)
    requires
        (vpn & 0x7FF_FFFF) + i < 0x800_0000,
        vpn + i <= u64::MAX,
    ensures
        va_matches_vpn(va, (vpn + i) as u64) <==> va_page_index(va) == (vpn & 0x7FF_FFFF) + i,
{
}

/// Maps a virtual page number directly to a physical page number using a
/// level 2 (1 GiB) gigapage leaf in the root page table.
///
/// The entry is installed only when the root slot for the page number's
/// level 2 index is invalid; a slot that already holds a leaf or points at a
/// level 1 table is left untouched and the call returns `false`, so an
/// existing mapping is never clobbered. This makes a second call for the
/// same slot fail while the first mapping stays exactly as it was.
pub fn allocate_level_2_vpn(
    address_space: &mut AddressSpace,
    vpn: VirtualPageNumber,
    ppn: PhysicalPageNumber,
    flags: &PageTableEntryFlags,
) -> (r: bool)
    requires
        old(address_space).wf(),
        flags.readable || flags.writable || flags.executable,
    ensures
        final(address_space).wf(),
        r == !pte_valid(old(address_space).root_spec()[level_2_index(vpn.0) as int]),
        !r ==> *final(address_space) == *old(address_space),
        r ==> pte_leaf(final(address_space).root_spec()[level_2_index(vpn.0) as int]),
        r ==> pte_ppn(final(address_space).root_spec()[level_2_index(vpn.0) as int]) == ppn.0
            & 0xFFF_FFFF_FFFF,
        r ==> pte_readable(final(address_space).root_spec()[level_2_index(vpn.0) as int])
            == flags.readable,
        r ==> pte_writable(final(address_space).root_spec()[level_2_index(vpn.0) as int])
            == flags.writable,
        r ==> pte_executable(final(address_space).root_spec()[level_2_index(vpn.0) as int])
            == flags.executable,
        r ==> pte_user(final(address_space).root_spec()[level_2_index(vpn.0) as int])
            == flags.user,
        r ==> pte_global(final(address_space).root_spec()[level_2_index(vpn.0) as int])
            == flags.global,
        r ==> !pte_accessed(final(address_space).root_spec()[level_2_index(vpn.0) as int]),
        r ==> !pte_dirty(final(address_space).root_spec()[level_2_index(vpn.0) as int]),
        // Every address under the mapped gigapage translates into the 1 GiB
        // physical region the frame number names.
        r ==> forall|va: u64|
            va_vpn2(va) == level_2_index(vpn.0) ==> translate_spec(*final(address_space), va)
                == Some((((ppn.0 & 0xFFF_FFFF_FFFF) >> 18) << 30) | (va & 0x3FFF_FFFF)),
        // Addresses under other root slots keep their translation, and the
        // other root entries themselves are untouched.
        forall|va: u64|
            va_vpn2(va) != level_2_index(vpn.0) ==> translate_spec(*final(address_space), va)
                == translate_spec(*old(address_space), va),
        forall|j: int|
            0 <= j < 512 && j != level_2_index(vpn.0) ==> final(address_space).root_spec()[j]
                == old(address_space).root_spec()[j],
{
    let vpn2 = vpn.get_level_2_index();

    let entry2 = address_space.root.get_entry(vpn2);
    if entry2.is_valid() {
        // The slot is taken, either by a leaf or by a pointer to a level 1
        // table: refuse to clobber it.
        return false;
    }

    let mut entry = PageTableEntry::new();
    entry.set_valid(true);
    entry.set_flags(flags);
    entry.set_ppn(ppn);
    proof {
        lemma_zero_entry_invalid();
    }

    let ghost s1 = *address_space;
    address_space.root.set_entry(vpn2, entry);

    proof {
        let s2 = *address_space;
        assert(s2.wf()) by {
            assert forall|j: int|
                0 <= j < 512 && pte_branch(#[trigger] s2.root_spec()[j]) implies ppns_contain(
                s2.l1_ppns_spec(),
                pte_ppn(s2.root_spec()[j]),
            ) by {
                assert(s2.root_spec()[j] == s1.root_spec()[j]);
            }
            assert forall|j: int, k: int|
                0 <= j < 512 && 0 <= k < 512 && j != k && pte_branch(#[trigger] s2.root_spec()[j])
                    && pte_branch(#[trigger] s2.root_spec()[k]) implies pte_ppn(s2.root_spec()[j])
                != pte_ppn(s2.root_spec()[k]) by {
                assert(s2.root_spec()[j] == s1.root_spec()[j]);
                assert(s2.root_spec()[k] == s1.root_spec()[k]);
            }
            assert forall|i: int, j: int|
                0 <= i < s2.l1_tables_spec().len() && 0 <= j < 512 && pte_branch(
                    #[trigger] s2.l1_entry(i, j),
                ) implies ppns_contain(s2.l0_ppns_spec(), pte_ppn(s2.l1_entry(i, j))) by {
                assert(s2.l1_entry(i, j) == s1.l1_entry(i, j));
            }
            assert forall|i: int, j: int, i2: int, j2: int|
                0 <= i < s2.l1_tables_spec().len() && 0 <= j < 512 && 0 <= i2
                    < s2.l1_tables_spec().len() && 0 <= j2 < 512 && (i != i2 || j != j2)
                    && pte_branch(#[trigger] s2.l1_entry(i, j)) && pte_branch(
                    #[trigger] s2.l1_entry(i2, j2),
                ) implies pte_ppn(s2.l1_entry(i, j)) != pte_ppn(s2.l1_entry(i2, j2)) by {
                assert(s2.l1_entry(i, j) == s1.l1_entry(i, j));
                assert(s2.l1_entry(i2, j2) == s1.l1_entry(i2, j2));
            }
        }
        assert forall|va: u64|
            va_vpn2(va) == level_2_index(vpn.0) implies translate_spec(s2, va) == Some(
            (((ppn.0 & 0xFFF_FFFF_FFFF) >> 18) << 30) | (va & 0x3FFF_FFFF),
        ) by {
            lemma_va_indices_in_bounds(va);
        }
        assert forall|va: u64|
            va_vpn2(va) != level_2_index(vpn.0) implies translate_spec(s2, va) == translate_spec(
            s1,
            va,
        ) by {
            lemma_va_indices_in_bounds(va);
            assert(s2.root_spec()[va_vpn2(va) as int] == s1.root_spec()[va_vpn2(va) as int]);
        }
    }
    true
}

/// Maps a range of physical pages to the same virtual addresses in the
/// address space, creating intermediate page tables as needed.
///
/// After the call, every page of the closed range either translates to
/// itself or keeps the translation it had: a failed allocation for one page
/// is swallowed and the remaining pages are still mapped. Pages outside the
/// range keep their translation. An empty range (start above end) changes
/// nothing. When the allocator's remaining frames host no table of the
/// space, no larger leaf blocks a page of the range, and enough memory is
/// left, nothing can fail and every page of the range is guaranteed mapped.
pub fn identity_map_range(
    address_space: &mut AddressSpace,
    start_ppn_inclusive: PhysicalPageNumber,
    end_ppn_inclusive: PhysicalPageNumber,
    flags: &PageTableEntryFlags,
    physical_memory_allocator: &mut PhysicalBumpAllocator,
)
    requires
        old(address_space).wf(),
        old(physical_memory_allocator).wf(),
        end_ppn_inclusive.0 < 0x800_0000,
    ensures
        final(address_space).wf(),
        final(physical_memory_allocator).wf(),
        final(physical_memory_allocator).regions() == old(physical_memory_allocator).regions(),
        forall|va: u64|
            start_ppn_inclusive.0 <= va_page_index(va) <= end_ppn_inclusive.0 ==> (translate_spec(
                *final(address_space),
                va,
            ) == Some((va_page_index(va) << 12) | va_page_offset(va)) || translate_spec(
                *final(address_space),
                va,
            ) == translate_spec(*old(address_space), va)),
        forall|va: u64|
            !(start_ppn_inclusive.0 <= va_page_index(va) <= end_ppn_inclusive.0)
                ==> translate_spec(*final(address_space), va) == translate_spec(
                *old(address_space),
                va,
            ),
        // The call consumes at most two frames per page of the range.
        allocated_size(*final(physical_memory_allocator)) <= allocated_size(
            *old(physical_memory_allocator),
        ) + page_span(start_ppn_inclusive.0, end_ppn_inclusive.0) * 2 * 4096,
        // Fresh allocator frames stay fresh and no unblocked walk becomes
        // blocked.
        regions_disjoint(old(physical_memory_allocator).regions()) && allocator_frames_fresh(
            *old(address_space),
            *old(physical_memory_allocator),
        ) ==> allocator_frames_fresh(*final(address_space), *final(physical_memory_allocator)),
        forall|q: u64|
            !walk_blocked(*old(address_space), q) ==> !walk_blocked(*final(address_space), q),
        // Full coverage is owed when nothing can fail: the allocator's
        // remaining frames host no table of the space, no large leaf blocks
        // a page of the range, and enough pages are left for every
        // intermediate table. Every page of the range is then mapped.
        (regions_disjoint(old(physical_memory_allocator).regions()) && allocator_frames_fresh(
            *old(address_space),
            *old(physical_memory_allocator),
        ) && (forall|q: u64|
            start_ppn_inclusive.0 <= q <= end_ppn_inclusive.0 ==> !walk_blocked(
                *old(address_space),
                q,
            )) && allocated_size(*old(physical_memory_allocator)) + page_span(
            start_ppn_inclusive.0,
            end_ppn_inclusive.0,
        ) * 2 * 4096 <= sum_region_sizes(old(physical_memory_allocator).regions())) ==> forall|
            va: u64,
        |
            start_ppn_inclusive.0 <= va_page_index(va) <= end_ppn_inclusive.0 ==> translate_spec(
                *final(address_space),
                va,
            ) is Some,
{
    let ghost s0 = *address_space;
    let ghost a0 = *physical_memory_allocator;
    let ghost keep_fresh = regions_disjoint(a0.regions()) && allocator_frames_fresh(s0, a0);
    let ghost favorable = keep_fresh && (forall|q: u64|
        start_ppn_inclusive.0 <= q <= end_ppn_inclusive.0 ==> !walk_blocked(s0, q))
        && allocated_size(a0) + page_span(start_ppn_inclusive.0, end_ppn_inclusive.0) * 2 * 4096
        <= sum_region_sizes(a0.regions());
    if start_ppn_inclusive.raw_ppn() > end_ppn_inclusive.raw_ppn() {
        return ;
    }

    let end = end_ppn_inclusive.raw_ppn();
    let mut current: u64 = start_ppn_inclusive.raw_ppn();
    while current <= end
        invariant
            address_space.wf(),
            physical_memory_allocator.wf(),
            physical_memory_allocator.regions() == old(physical_memory_allocator).regions(),
            start_ppn_inclusive.0 <= current <= end + 1,
            end == end_ppn_inclusive.0,
            end < 0x800_0000,
            forall|va: u64|
                start_ppn_inclusive.0 <= va_page_index(va) < current ==> (translate_spec(
                    *address_space,
                    va,
                ) == Some((va_page_index(va) << 12) | va_page_offset(va)) || translate_spec(
                    *address_space,
                    va,
                ) == translate_spec(s0, va)),
            forall|va: u64|
                !(start_ppn_inclusive.0 <= va_page_index(va) < current) ==> translate_spec(
                    *address_space,
                    va,
                ) == translate_spec(s0, va),
            physical_memory_allocator.regions() == a0.regions(),
            allocated_size(*physical_memory_allocator) <= allocated_size(a0) + (current
                - start_ppn_inclusive.0) * 2 * 4096,
            keep_fresh == (regions_disjoint(a0.regions()) && allocator_frames_fresh(s0, a0)),
            favorable == (keep_fresh && (forall|q: u64|
                start_ppn_inclusive.0 <= q <= end_ppn_inclusive.0 ==> !walk_blocked(s0, q))
                && allocated_size(a0) + page_span(start_ppn_inclusive.0, end_ppn_inclusive.0) * 2
                * 4096 <= sum_region_sizes(a0.regions())),
            keep_fresh ==> allocator_frames_fresh(*address_space, *physical_memory_allocator),
            forall|q: u64| !walk_blocked(s0, q) ==> !walk_blocked(*address_space, q),
            favorable ==> forall|va: u64|
                start_ppn_inclusive.0 <= va_page_index(va) < current ==> translate_spec(
                    *address_space,
                    va,
                ) is Some,
        decreases end + 1 - current,
    {
        let ghost s_prev = *address_space;
        let ghost a_prev = *physical_memory_allocator;
        let vpn = VirtualPageNumber::from_raw_virtual_page_number(current);
        let target = PhysicalPageNumber::from_raw_physical_page_number(current);
        let mapped = allocate_vpn(
            address_space,
            vpn,
            Some(target),
            flags,
            physical_memory_allocator,
        );

        proof {
            assert forall|va: u64|
                start_ppn_inclusive.0 <= va_page_index(va) < current + 1 implies (translate_spec(
                *address_space,
                va,
            ) == Some((va_page_index(va) << 12) | va_page_offset(va)) || translate_spec(
                *address_space,
                va,
            ) == translate_spec(s0, va)) by {
                lemma_va_matches_page_index(va, current);
                if va_page_index(va) == current {
                    match mapped {
                        Some(p) => {
                            if mapped_leaf(s_prev, vpn.0) matches Some(e0) && pte_leaf(e0) {
                                assert(*address_space == s_prev);
                            } else {
                                assert(p == target);
                                assert(translate_spec(*address_space, va) == Some(((p.0
                                    & 0xFFF_FFFF_FFFF) << 12) | va_page_offset(va)));
                                assert(current & 0xFFF_FFFF_FFFF == current) by (bit_vector)
                                    requires
                                        current < 0x800_0000,
                                ;
                            }
                        },
                        None => {
                            assert(translate_spec(*address_space, va) == translate_spec(
                                s_prev,
                                va,
                            ));
                        },
                    }
                } else {
                    assert(!va_matches_vpn(va, current));
                    assert(translate_spec(*address_space, va) == translate_spec(s_prev, va));
                }
            }
            assert forall|va: u64|
                !(start_ppn_inclusive.0 <= va_page_index(va) < current + 1) implies translate_spec(
                *address_space,
                va,
            ) == translate_spec(s0, va) by {
                lemma_va_matches_page_index(va, current);
                assert(!va_matches_vpn(va, current));
                assert(translate_spec(*address_space, va) == translate_spec(s_prev, va));
            }
            if favorable {
                // Nothing can have failed for this page: it is mapped now.
                assert(!walk_blocked(s0, current));
                assert(!walk_blocked(s_prev, current));
                assert(allocated_size(a_prev) + 2 * 4096 <= sum_region_sizes(a_prev.regions()));
                assert(mapped is Some);
                assert forall|va: u64|
                    start_ppn_inclusive.0 <= va_page_index(va) < current + 1 implies
                    translate_spec(*address_space, va) is Some by {
                    lemma_va_matches_page_index(va, current);
                    if va_page_index(va) == current {
                        assert(translate_spec(*address_space, va) is Some);
                    } else {
                        assert(translate_spec(*address_space, va) == translate_spec(s_prev, va));
                    }
                }
            }
        }
        current = current + 1;
    }
}

/// Maps a range of physical pages to a range of virtual pages, creating
/// intermediate page tables as needed. One more page than
/// `number_of_pages_inclusive` is mapped: the count is treated as an
/// inclusive offset.
///
/// After the call, every page of the range either translates to its
/// counterpart or keeps the translation it had: a failed allocation for one
/// page is swallowed and the remaining pages are still mapped. Pages outside
/// the range keep their translation. When the allocator's remaining frames
/// host no table of the space, no larger leaf blocks a page of the window,
/// and enough memory is left, every page of the window is guaranteed
/// mapped.
pub fn map_range(
    address_space: &mut AddressSpace,
    start_ppn_inclusive: PhysicalPageNumber,
    start_vpn_inclusive: VirtualPageNumber,
    number_of_pages_inclusive: u64,
    flags: &PageTableEntryFlags,
    physical_memory_allocator: &mut PhysicalBumpAllocator,
)
    requires
        old(address_space).wf(),
        old(physical_memory_allocator).wf(),
        start_vpn_inclusive.0 + number_of_pages_inclusive <= u64::MAX,
        start_ppn_inclusive.0 + number_of_pages_inclusive <= u64::MAX,
        (start_vpn_inclusive.0 & 0x7FF_FFFF) + number_of_pages_inclusive < 0x800_0000,
    ensures
        final(address_space).wf(),
        final(physical_memory_allocator).wf(),
        final(physical_memory_allocator).regions() == old(physical_memory_allocator).regions(),
        forall|va: u64|
            (start_vpn_inclusive.0 & 0x7FF_FFFF) <= va_page_index(va) <= (start_vpn_inclusive.0
                & 0x7FF_FFFF) + number_of_pages_inclusive ==> (translate_spec(
                *final(address_space),
                va,
            ) == Some((((start_ppn_inclusive.0 + (va_page_index(va) - (start_vpn_inclusive.0
                & 0x7FF_FFFF))) as u64 & 0xFFF_FFFF_FFFF) << 12) | va_page_offset(va))
                || translate_spec(*final(address_space), va) == translate_spec(
                *old(address_space),
                va,
            )),
        forall|va: u64|
            !((start_vpn_inclusive.0 & 0x7FF_FFFF) <= va_page_index(va) <= (start_vpn_inclusive.0
                & 0x7FF_FFFF) + number_of_pages_inclusive) ==> translate_spec(
                *final(address_space),
                va,
            ) == translate_spec(*old(address_space), va),
        // The call consumes at most two frames per page of the window.
        allocated_size(*final(physical_memory_allocator)) <= allocated_size(
            *old(physical_memory_allocator),
        ) + (number_of_pages_inclusive + 1) * 2 * 4096,
        // Fresh allocator frames stay fresh and no unblocked walk becomes
        // blocked.
        regions_disjoint(old(physical_memory_allocator).regions()) && allocator_frames_fresh(
            *old(address_space),
            *old(physical_memory_allocator),
        ) ==> allocator_frames_fresh(*final(address_space), *final(physical_memory_allocator)),
        forall|q: u64|
            !walk_blocked(*old(address_space), q) ==> !walk_blocked(*final(address_space), q),
        // Full coverage is owed when nothing can fail: every page of the
        // window is then mapped.
        (regions_disjoint(old(physical_memory_allocator).regions()) && allocator_frames_fresh(
            *old(address_space),
            *old(physical_memory_allocator),
        ) && (forall|q: u64|
            (start_vpn_inclusive.0 & 0x7FF_FFFF) <= q <= (start_vpn_inclusive.0 & 0x7FF_FFFF)
                + number_of_pages_inclusive ==> !walk_blocked(*old(address_space), q))
            && allocated_size(*old(physical_memory_allocator)) + (number_of_pages_inclusive + 1)
            * 2 * 4096 <= sum_region_sizes(old(physical_memory_allocator).regions())) ==> forall|
            va: u64,
        |
            (start_vpn_inclusive.0 & 0x7FF_FFFF) <= va_page_index(va) <= (start_vpn_inclusive.0
                & 0x7FF_FFFF) + number_of_pages_inclusive ==> translate_spec(
                *final(address_space),
                va,
            ) is Some,
{
    let ghost s0 = *address_space;
    let ghost base = start_vpn_inclusive.0 & 0x7FF_FFFF;
    let ghost a0 = *physical_memory_allocator;
    let ghost keep_fresh = regions_disjoint(a0.regions()) && allocator_frames_fresh(s0, a0);
    let ghost favorable = keep_fresh && (forall|q: u64|
        base <= q <= base + number_of_pages_inclusive ==> !walk_blocked(s0, q))
        && allocated_size(a0) + (number_of_pages_inclusive + 1) * 2 * 4096 <= sum_region_sizes(
        a0.regions(),
    );
    let mut i: u64 = 0;
    while i <= number_of_pages_inclusive
        invariant
            address_space.wf(),
            physical_memory_allocator.wf(),
            physical_memory_allocator.regions() == old(physical_memory_allocator).regions(),
            0 <= i <= number_of_pages_inclusive + 1,
            base == start_vpn_inclusive.0 & 0x7FF_FFFF,
            start_vpn_inclusive.0 + number_of_pages_inclusive <= u64::MAX,
            start_ppn_inclusive.0 + number_of_pages_inclusive <= u64::MAX,
            base + number_of_pages_inclusive < 0x800_0000,
            forall|va: u64|
                base <= va_page_index(va) < base + i ==> (translate_spec(*address_space, va)
                    == Some((((start_ppn_inclusive.0 + (va_page_index(va) - base)) as u64
                    & 0xFFF_FFFF_FFFF) << 12) | va_page_offset(va)) || translate_spec(
                    *address_space,
                    va,
                ) == translate_spec(s0, va)),
            forall|va: u64|
                !(base <= va_page_index(va) < base + i) ==> translate_spec(*address_space, va)
                    == translate_spec(s0, va),
            physical_memory_allocator.regions() == a0.regions(),
            allocated_size(*physical_memory_allocator) <= allocated_size(a0) + i * 2 * 4096,
            keep_fresh == (regions_disjoint(a0.regions()) && allocator_frames_fresh(s0, a0)),
            favorable == (keep_fresh && (forall|q: u64|
                base <= q <= base + number_of_pages_inclusive ==> !walk_blocked(s0, q))
                && allocated_size(a0) + (number_of_pages_inclusive + 1) * 2 * 4096
                <= sum_region_sizes(a0.regions())),
            keep_fresh ==> allocator_frames_fresh(*address_space, *physical_memory_allocator),
            forall|q: u64| !walk_blocked(s0, q) ==> !walk_blocked(*address_space, q),
            favorable ==> forall|va: u64|
                base <= va_page_index(va) < base + i ==> translate_spec(*address_space, va)
                    is Some,
        decreases number_of_pages_inclusive + 1 - i,
    {
        let ghost s_prev = *address_space;
        let ghost a_prev = *physical_memory_allocator;
        let vpn = VirtualPageNumber::from_raw_virtual_page_number(start_vpn_inclusive.0 + i);
        let target = PhysicalPageNumber::from_raw_physical_page_number(start_ppn_inclusive.0 + i);
        let mapped = allocate_vpn(
            address_space,
            vpn,
            Some(target),
            flags,
            physical_memory_allocator,
        );

        proof {
            assert forall|va: u64|
                base <= va_page_index(va) < base + (i + 1) implies (translate_spec(
                *address_space,
                va,
            ) == Some((((start_ppn_inclusive.0 + (va_page_index(va) - base)) as u64
                & 0xFFF_FFFF_FFFF) << 12) | va_page_offset(va)) || translate_spec(
                *address_space,
                va,
            ) == translate_spec(s0, va)) by {
                lemma_va_matches_vpn_offset(va, start_vpn_inclusive.0, i);
                if va_page_index(va) == base + i {
                    match mapped {
                        Some(p) => {
                            if mapped_leaf(s_prev, vpn.0) matches Some(e0) && pte_leaf(e0) {
                                assert(*address_space == s_prev);
                            } else {
                                assert(p == target);
                                assert(translate_spec(*address_space, va) == Some(((p.0
                                    & 0xFFF_FFFF_FFFF) << 12) | va_page_offset(va)));
                            }
                        },
                        None => {
                            assert(translate_spec(*address_space, va) == translate_spec(
                                s_prev,
                                va,
                            ));
                        },
                    }
                } else {
                    assert(!va_matches_vpn(va, vpn.0));
                    assert(translate_spec(*address_space, va) == translate_spec(s_prev, va));
                }
            }
            assert forall|va: u64|
                !(base <= va_page_index(va) < base + (i + 1)) implies translate_spec(
                *address_space,
                va,
            ) == translate_spec(s0, va) by {
                lemma_va_matches_vpn_offset(va, start_vpn_inclusive.0, i);
                assert(!va_matches_vpn(va, vpn.0));
                assert(translate_spec(*address_space, va) == translate_spec(s_prev, va));
            }
            if favorable {
                // Nothing can have failed for this page: it is mapped now.
                assert(!walk_blocked(s0, (base + i) as u64));
                let v = vpn.0;
                let sv = start_vpn_inclusive.0;
                let b = base as u64;
                assert(v & 0x7FF_FFFF == b + i) by (bit_vector)
                    requires
                        v == (sv + i) as u64,
                        b == sv & 0x7FF_FFFF,
                        b + i < 0x800_0000,
                        sv + i <= u64::MAX,
                ;
                assert(walk_blocked(s_prev, vpn.0) == walk_blocked(s_prev, (base + i) as u64))
                    by {
                    lemma_walk_blocked_masked(s_prev, vpn.0);
                    lemma_walk_blocked_masked(s_prev, (base + i) as u64);
                }
                assert(!walk_blocked(s_prev, vpn.0));
                assert(allocated_size(a_prev) + 2 * 4096 <= sum_region_sizes(a_prev.regions()));
                assert(mapped is Some);
                assert forall|va: u64|
                    base <= va_page_index(va) < base + (i + 1) implies translate_spec(
                    *address_space,
                    va,
                ) is Some by {
                    lemma_va_matches_vpn_offset(va, start_vpn_inclusive.0, i);
                    if va_page_index(va) == base + i {
                        assert(translate_spec(*address_space, va) is Some);
                    } else {
                        assert(translate_spec(*address_space, va) == translate_spec(s_prev, va));
                    }
                }
            }
        }
        i = i + 1;
    }
}

/// A walk's blocked state depends only on the low 27 bits of the page
/// number: the level indices mask everything above them.
proof fn lemma_walk_blocked_masked(s: AddressSpace, vpn: u64)
    ensures
        walk_blocked(s, vpn) == walk_blocked(s, vpn & 0x7FF_FFFF),
{
    let m = vpn & 0x7FF_FFFF;
    assert(((vpn >> 18) & 0x1FF) == ((m >> 18) & 0x1FF) && ((vpn >> 9) & 0x1FF) == ((m >> 9)
        & 0x1FF)) by (bit_vector)
        requires
            m == vpn & 0x7FF_FFFF,
    ;
    assert(level_2_index(vpn) == level_2_index(m));
    assert(level_1_index(vpn) == level_1_index(m));
}

/// Calculates the virtual page number at which the page table serving the
/// given virtual page number at the given level would appear under a
/// recursive page-table mapping that uses the last root slot (index 511) to
/// point at the root itself.
pub fn get_recursive_vpn_for_page_table_at_level(vpn: VirtualPageNumber, level: usize) -> (r:
    Option<VirtualPageNumber>)
    ensures
        level == 0 ==> r == Some(
            VirtualPageNumber(
                (511u64 << 18) | ((level_2_index(vpn.0) as u64) << 9) | (level_1_index(
                    vpn.0,
                ) as u64),
            ),
        ),
        level == 1 ==> r == Some(
            VirtualPageNumber((511u64 << 18) | (511u64 << 9) | (level_2_index(vpn.0) as u64)),
        ),
        level == 2 ==> r == Some(VirtualPageNumber((511u64 << 18) | (511u64 << 9) | 511u64)),
        level > 2 ==> r is None,
{
    let vpn2 = vpn.get_level_2_index() as u64;
    let vpn1 = vpn.get_level_1_index() as u64;

    if level == 0 {
        // The level 0 table serving this page sits at [511][vpn2][vpn1].
        Some(VirtualPageNumber((511u64 << 18) | (vpn2 << 9) | vpn1))
    } else if level == 1 {
        // The level 1 table serving this page sits at [511][511][vpn2].
        Some(VirtualPageNumber((511u64 << 18) | (511u64 << 9) | vpn2))
    } else if level == 2 {
        // The root itself sits at [511][511][511].
        Some(VirtualPageNumber((511u64 << 18) | (511u64 << 9) | 511u64))
    } else {
        None
    }
}

/// A translation only succeeds when every page table entry along the walk is
/// valid: whenever the walk meets an entry with its V bit clear, the result
/// is `None`.
pub proof fn lemma_translate_requires_valid_walk(s: AddressSpace, va: u64)
    ensures
        !pte_valid(s.root_spec()[va_vpn2(va) as int]) ==> translate_spec(s, va) is None,
        pte_branch(s.root_spec()[va_vpn2(va) as int]) ==> (match first_index_of(
            s.l1_ppns_spec(),
            pte_ppn(s.root_spec()[va_vpn2(va) as int]),
        ) {
            None => translate_spec(s, va) is None,
            Some(i) => {
                &&& !pte_valid(s.l1_entry(i, va_vpn1(va) as int)) ==> translate_spec(s, va)
                    is None
                &&& pte_branch(s.l1_entry(i, va_vpn1(va) as int)) ==> (match first_index_of(
                    s.l0_ppns_spec(),
                    pte_ppn(s.l1_entry(i, va_vpn1(va) as int)),
                ) {
                    None => translate_spec(s, va) is None,
                    Some(k) => !pte_valid(s.l0_entry(k, va_vpn0(va) as int)) ==> translate_spec(
                        s,
                        va,
                    ) is None,
                })
            },
        }),
{
}

} // verus!
