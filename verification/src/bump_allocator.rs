//! A minimal bump allocator over a single contiguous range of physical page
//! frames.

use vstd::prelude::*;

use crate::memory::PhysicalPageNumber;

verus! {

/// Hands out consecutive physical page numbers from an inclusive range and
/// never reclaims them.
pub struct BumpAllocator {
    start_inclusive: PhysicalPageNumber,
    end_inclusive: PhysicalPageNumber,
    next: PhysicalPageNumber,
}

impl BumpAllocator {
    /// The first page number of the range.
    pub closed spec fn start_spec(&self) -> u64 {
        self.start_inclusive.0
    }

    /// The last page number of the range.
    pub closed spec fn end_spec(&self) -> u64 {
        self.end_inclusive.0
    }

    /// The page number the next allocation will return, if any is left.
    pub closed spec fn next_spec(&self) -> u64 {
        self.next.0
    }

    /// Creates an allocator over the inclusive range of page numbers.
    pub fn new(start_inclusive: PhysicalPageNumber, end_inclusive: PhysicalPageNumber) -> (r: Self)
        ensures
            r.start_spec() == start_inclusive.0,
            r.end_spec() == end_inclusive.0,
            r.next_spec() == start_inclusive.0,
    {
        Self { start_inclusive, end_inclusive, next: start_inclusive }
    }

    /// Returns the next unused page number of the range, or `None` once the
    /// range is exhausted.
    pub fn allocate(&mut self) -> (r: Option<PhysicalPageNumber>)
        requires
            old(self).end_spec() < u64::MAX,
        ensures
            final(self).start_spec() == old(self).start_spec(),
            final(self).end_spec() == old(self).end_spec(),
            old(self).next_spec() <= old(self).end_spec() ==> r == Some(
                PhysicalPageNumber { 0: old(self).next_spec() },
            ) && final(self).next_spec() == old(self).next_spec() + 1,
            old(self).next_spec() > old(self).end_spec() ==> r is None && final(self).next_spec()
                == old(self).next_spec(),
    {
        if self.next.0 <= self.end_inclusive.0 {
            let ppn = self.next;
            self.next.0 = self.next.0 + 1;

            Some(ppn)
        } else {
            None
        }
    }
}

} // verus!
