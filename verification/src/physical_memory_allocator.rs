//! Physical memory bump allocator.
//!
//! A simple bump allocator for 4 KiB physical memory pages: it snapshots the
//! regions of a memory map and hands out page-aligned frames region by
//! region. It does not support deallocation.

use vstd::prelude::*;

use crate::memory::MemoryRegion;

verus! {

/// A simple bump allocator for physical memory pages.
///
/// The allocator keeps a snapshot of the usable memory regions, the index of
/// the region it currently allocates from, and the address the next
/// allocation will return.
pub struct PhysicalBumpAllocator {
    memory_regions: Vec<MemoryRegion>,
    current_region_index: usize,
    next_allocation_address: usize,
}

impl PhysicalBumpAllocator {
    /// The snapshot of usable memory regions.
    pub closed spec fn regions(&self) -> Seq<MemoryRegion> {
        self.memory_regions@
    }

    /// The index of the region allocations are currently served from.
    pub closed spec fn index(&self) -> usize {
        self.current_region_index
    }

    /// The address the next allocation will return.
    pub closed spec fn next(&self) -> usize {
        self.next_allocation_address
    }

    /// Well-formedness of an allocator: the snapshot holds page-aligned,
    /// non-empty regions that fit the address space, and the next-allocation
    /// address lies within the current region with room for at least one
    /// page, unless every region has been consumed.
    pub open spec fn wf(&self) -> bool {
        &&& self.regions().len() <= 128
        &&& allocator_regions_wf(self.regions())
        &&& self.index() <= self.regions().len()
        &&& self.index() < self.regions().len() ==> {
            let r = self.regions()[self.index() as int];
            &&& r.start <= self.next()
            &&& self.next() + 4096 <= r.start + r.size
            &&& self.next() % 4096 == 0
        }
    }

    /// Creates an allocator with no memory regions; every allocation fails
    /// until `reset` installs a snapshot.
    pub fn new() -> (r: PhysicalBumpAllocator)
        ensures
            r.regions() == Seq::<MemoryRegion>::empty(),
            r.index() == 0,
            r.next() == 0,
            r.wf(),
    {
        PhysicalBumpAllocator {
            memory_regions: Vec::new(),
            current_region_index: 0,
            next_allocation_address: 0,
        }
    }

    /// Resets the allocator with a snapshot of the provided memory regions.
    /// All current state is lost. At most 128 regions are kept; allocation
    /// restarts at the first region.
    pub fn reset(&mut self, regions: &Vec<MemoryRegion>, region_count: usize)
        requires
            region_count <= regions@.len(),
            allocator_regions_wf(regions@.take(if region_count <= 128 {
                region_count as int
            } else {
                128
            })),
        ensures
            final(self).regions() == regions@.take(if region_count <= 128 {
                region_count as int
            } else {
                128
            }),
            final(self).index() == 0,
            region_count > 0 ==> final(self).next() == regions@[0].start,
            region_count == 0 ==> final(self).next() == 0,
            final(self).wf(),
    {
        let copy_count = if region_count <= 128 {
            region_count
        } else {
            128
        };

        let mut snapshot: Vec<MemoryRegion> = Vec::new();
        let mut i: usize = 0;
        while i < copy_count
            invariant
                i <= copy_count,
                copy_count <= regions@.len(),
                snapshot@ == regions@.take(i as int),
            decreases copy_count - i,
        {
            snapshot.push(regions[i]);
            proof {
                assert(regions@.take(i + 1 as int) =~= regions@.take(i as int).push(
                    regions@[i as int],
                ));
            }
            i = i + 1;
        }

        self.memory_regions = snapshot;
        self.current_region_index = 0;
        if copy_count > 0 {
            self.next_allocation_address = self.memory_regions[0].start;
        } else {
            self.next_allocation_address = 0;
        }
    }

    /// Allocates a single 4 KiB page of physical memory, advancing to the
    /// next region when the current one is exhausted. Returns the physical
    /// address of the page, or `None` once no memory is left.
    pub fn allocate_page(&mut self) -> (r: Option<usize>)
        requires
            old(self).wf(),
        ensures
            final(self).wf(),
            final(self).regions() == old(self).regions(),
            (final(self).index(), final(self).next(), r) == allocate_page_step(*old(self)),
    {
        if self.current_region_index >= self.memory_regions.len() {
            return None;
        }

        let region = self.memory_regions[self.current_region_index];
        let region_end_address = region.start + region.size;

        let allocation_address = self.next_allocation_address;
        self.next_allocation_address = allocation_address + 4096;

        // If this allocation used the last available page in the region,
        // move on to the next region.
        if self.next_allocation_address > region_end_address - 4096 {
            self.current_region_index = self.current_region_index + 1;

            if self.current_region_index < self.memory_regions.len() {
                self.next_allocation_address =
                    self.memory_regions[self.current_region_index].start;
            }
        }

        Some(allocation_address)
    }

    /// The total amount of memory available for allocation, in bytes.
    pub fn total_memory_size(&self) -> (r: usize)
        requires
            self.wf(),
            sum_region_sizes(self.regions()) <= usize::MAX,
        ensures
            r == sum_region_sizes(self.regions()),
    {
        let ghost all = self.regions();
        let mut total_size: usize = 0;
        let mut i: usize = 0;
        proof {
            lemma_sum_region_sizes_nonneg(all);
            assert(all.skip(0) =~= all);
        }
        while i < self.memory_regions.len()
            invariant
                i <= all.len(),
                self.regions() == all,
                sum_region_sizes(all) <= usize::MAX,
                total_size + sum_region_sizes(all.skip(i as int)) == sum_region_sizes(all),
            decreases all.len() - i,
        {
            proof {
                assert(all.skip(i as int)[0] == all[i as int]);
                assert(all.skip(i as int).drop_first() =~= all.skip(i + 1 as int));
                lemma_sum_region_sizes_nonneg(all.skip(i + 1 as int));
            }
            total_size = total_size + self.memory_regions[i].size;
            i = i + 1;
        }
        proof {
            assert(all.skip(all.len() as int) =~= Seq::<MemoryRegion>::empty());
        }
        total_size
    }

    /// The amount of memory handed out so far, in bytes: the sizes of all
    /// fully consumed regions plus the consumed part of the current region.
    pub fn allocated_memory_size(&self) -> (r: usize)
        requires
            self.wf(),
            sum_region_sizes(self.regions()) <= usize::MAX,
        ensures
            r == allocated_size(*self),
    {
        let ghost all = self.regions();
        let mut allocated: usize = 0;
        let mut i: usize = 0;
        proof {
            lemma_sum_prefix_bound(all, self.index() as int);
            assert(all.take(0) =~= Seq::<MemoryRegion>::empty());
        }
        while i < self.current_region_index
            invariant
                self.wf(),
                sum_region_sizes(self.regions()) <= usize::MAX,
                self.regions() == all,
                i <= self.index(),
                self.index() <= all.len(),
                allocated == sum_region_sizes(all.take(i as int)),
                allocated <= sum_region_sizes(all.take(self.index() as int)),
            decreases self.index() - i,
        {
            proof {
                lemma_sum_take_step(all, i as int);
                lemma_sum_prefix_monotonic(all, i + 1 as int, self.index() as int);
                lemma_sum_prefix_bound(all, self.index() as int);
            }
            allocated = allocated + self.memory_regions[i].size;
            i = i + 1;
        }

        if self.current_region_index < self.memory_regions.len() {
            proof {
                lemma_sum_prefix_bound(all, self.index() as int);
                lemma_sum_take_step(all, self.index() as int);
                lemma_sum_prefix_bound(all, self.index() + 1 as int);
            }
            let current_region = self.memory_regions[self.current_region_index];
            allocated = allocated + (self.next_allocation_address - current_region.start);
        } else {
            proof {
                assert(all.take(self.index() as int) =~= all);
            }
        }

        allocated
    }

    /// The amount of memory still available for allocation, in bytes.
    pub fn available_memory_size(&self) -> (r: usize)
        requires
            self.wf(),
            sum_region_sizes(self.regions()) <= usize::MAX,
        ensures
            r == sum_region_sizes(self.regions()) - allocated_size(*self),
    {
        proof {
            lemma_allocated_le_total(*self);
        }
        let total = self.total_memory_size();
        let allocated = self.allocated_memory_size();
        total - allocated
    }

    /// A copy of all memory regions registered with this allocator.
    pub fn memory_regions(&self) -> (r: Vec<MemoryRegion>)
        ensures
            r@ == self.regions(),
    {
        let mut out: Vec<MemoryRegion> = Vec::new();
        let mut i: usize = 0;
        while i < self.memory_regions.len()
            invariant
                i <= self.regions().len(),
                out@ == self.regions().take(i as int),
            decreases self.regions().len() - i,
        {
            out.push(self.memory_regions[i]);
            proof {
                assert(self.regions().take(i + 1 as int) =~= self.regions().take(i as int).push(
                    self.regions()[i as int],
                ));
            }
            i = i + 1;
        }
        proof {
            assert(self.regions().take(self.regions().len() as int) =~= self.regions());
        }
        out
    }

    /// The memory regions that have been handed out so far: every fully
    /// consumed region, followed by the consumed part of the current region
    /// when any of it has been allocated.
    pub fn allocated_regions(&self) -> (r: Vec<MemoryRegion>)
        requires
            self.wf(),
        ensures
            r@ == allocated_regions_spec(*self),
    {
        let ghost all = self.regions();
        let mut out: Vec<MemoryRegion> = Vec::new();
        let mut i: usize = 0;
        while i < self.current_region_index
            invariant
                self.wf(),
                self.regions() == all,
                i <= self.index(),
                out@ == all.take(i as int),
            decreases self.index() - i,
        {
            out.push(self.memory_regions[i]);
            proof {
                assert(all.take(i + 1 as int) =~= all.take(i as int).push(all[i as int]));
            }
            i = i + 1;
        }
        if self.current_region_index < self.memory_regions.len() {
            let current_region = self.memory_regions[self.current_region_index];
            let consumed = self.next_allocation_address - current_region.start;
            if consumed > 0 {
                out.push(MemoryRegion { start: current_region.start, size: consumed });
            }
        }
        out
    }

    /// The index of the region allocations are currently served from.
    pub fn current_region_index(&self) -> (r: usize)
        ensures
            r == self.index(),
    {
        self.current_region_index
    }

    /// The address the next allocation will return.
    pub fn next_allocation_address(&self) -> (r: usize)
        ensures
            r == self.next(),
    {
        self.next_allocation_address
    }

    /// The number of regions in the snapshot.
    pub fn region_count(&self) -> (r: usize)
        ensures
            r == self.regions().len(),
    {
        self.memory_regions.len()
    }
}

/// Regions an allocator may be reset with: page-aligned start and size, at
/// least one page large, and fitting the address space.
pub open spec fn allocator_regions_wf(regions: Seq<MemoryRegion>) -> bool {
    forall|i: int|
        0 <= i < regions.len() ==> {
            let r = #[trigger] regions[i];
            &&& r.start % 4096 == 0
            &&& r.size % 4096 == 0
            &&& r.size >= 4096
            &&& r.start + r.size <= usize::MAX
        }
}

/// What one `allocate_page` call does: the new region index, the new
/// next-allocation address, and the returned address, if any. The snapshot of
/// regions never changes.
pub open spec fn allocate_page_step(a: PhysicalBumpAllocator) -> (usize, usize, Option<usize>) {
    if a.index() >= a.regions().len() {
        (a.index(), a.next(), None)
    } else {
        let region = a.regions()[a.index() as int];
        let address = a.next();
        let bumped = (address + 4096) as usize;
        if bumped + 4096 > region.start + region.size {
            // The region is exhausted: advance to the next one.
            if a.index() + 1 < a.regions().len() {
                (
                    (a.index() + 1) as usize,
                    a.regions()[a.index() + 1].start,
                    Some(address),
                )
            } else {
                ((a.index() + 1) as usize, bumped, Some(address))
            }
        } else {
            (a.index(), bumped, Some(address))
        }
    }
}

/// The number of bytes covered by a sequence of regions.
pub open spec fn sum_region_sizes(regions: Seq<MemoryRegion>) -> int
    decreases regions.len(),
{
    if regions.len() == 0 {
        0
    } else {
        regions[0].size + sum_region_sizes(regions.drop_first())
    }
}

/// The regions the allocator has handed out: the fully consumed regions in
/// order, plus the consumed prefix of the current region when it is not
/// empty.
pub open spec fn allocated_regions_spec(a: PhysicalBumpAllocator) -> Seq<MemoryRegion> {
    let consumed = a.regions().take(a.index() as int);
    if a.index() < a.regions().len() && a.next() > a.regions()[a.index() as int].start {
        consumed.push(
            MemoryRegion {
                start: a.regions()[a.index() as int].start,
                size: (a.next() - a.regions()[a.index() as int].start) as usize,
            },
        )
    } else {
        consumed
    }
}

/// The number of bytes the allocator has handed out.
pub open spec fn allocated_size(a: PhysicalBumpAllocator) -> int {
    if a.index() < a.regions().len() {
        sum_region_sizes(a.regions().take(a.index() as int)) + (a.next() - a.regions()[a.index()
            as int].start)
    } else {
        sum_region_sizes(a.regions())
    }
}

proof fn lemma_sum_region_sizes_nonneg(regions: Seq<MemoryRegion>)
    ensures
        sum_region_sizes(regions) >= 0,
    decreases regions.len(),
{
    if regions.len() > 0 {
        lemma_sum_region_sizes_nonneg(regions.drop_first());
    }
}

/// Summing one more region extends the prefix sum by that region's size.
proof fn lemma_sum_take_step(regions: Seq<MemoryRegion>, i: int)
    requires
        0 <= i < regions.len(),
    ensures
        sum_region_sizes(regions.take(i + 1)) == sum_region_sizes(regions.take(i))
            + regions[i].size,
    decreases i,
{
    if i == 0 {
        assert(regions.take(0) =~= Seq::<MemoryRegion>::empty());
        assert(regions.take(1) =~= seq![regions[0]]);
        assert(seq![regions[0]].drop_first() =~= Seq::<MemoryRegion>::empty());
    } else {
        lemma_sum_take_step(regions.drop_first(), i - 1);
        assert(regions.take(i + 1).drop_first() =~= regions.drop_first().take(i));
        assert(regions.take(i).drop_first() =~= regions.drop_first().take(i - 1));
        assert(regions.take(i + 1)[0] == regions[0]);
        assert(regions.take(i)[0] == regions[0]);
        assert(regions.drop_first()[i - 1] == regions[i]);
    }
}

proof fn lemma_sum_prefix_monotonic(regions: Seq<MemoryRegion>, i: int, j: int)
    requires
        0 <= i <= j <= regions.len(),
        allocator_regions_wf(regions),
    ensures
        sum_region_sizes(regions.take(i)) <= sum_region_sizes(regions.take(j)),
    decreases j - i,
{
    if i < j {
        lemma_sum_take_step(regions, i);
        lemma_sum_prefix_monotonic(regions, i + 1, j);
    }
}

proof fn lemma_sum_prefix_bound(regions: Seq<MemoryRegion>, i: int)
    requires
        0 <= i <= regions.len(),
        allocator_regions_wf(regions),
    ensures
        sum_region_sizes(regions.take(i)) >= 0,
        sum_region_sizes(regions.take(i)) <= sum_region_sizes(regions),
    decreases regions.len() - i,
{
    lemma_sum_region_sizes_nonneg(regions.take(i));
    if i < regions.len() {
        lemma_sum_take_step(regions, i);
        lemma_sum_prefix_bound(regions, i + 1);
    } else {
        assert(regions.take(i) =~= regions);
    }
}

/// Regions ordered by address and separated: each region ends at or before
/// the next one starts.
pub open spec fn regions_sorted(regions: Seq<MemoryRegion>) -> bool {
    forall|i: int, j: int|
        0 <= i < j < regions.len() ==> (#[trigger] regions[i]).start + regions[i].size
            <= (#[trigger] regions[j]).start
}

/// Allocation is monotonic: every page handed out is 4 KiB-aligned and lies
/// within a snapshotted region, and when the regions are sorted by address,
/// the next successful allocation returns a strictly greater address.
pub proof fn lemma_allocate_page_monotonic(a: PhysicalBumpAllocator)
    requires
        a.wf(),
        regions_sorted(a.regions()),
    ensures
        allocate_page_step(a).2 matches Some(address) ==> {
            &&& address % 4096 == 0
            &&& exists|k: int|
                0 <= k < a.regions().len() && (#[trigger] a.regions()[k]).start <= address
                    && address + 4096 <= a.regions()[k].start + a.regions()[k].size
            &&& forall|a2: PhysicalBumpAllocator|
                (#[trigger] a2.regions() == a.regions() && a2.index() == allocate_page_step(a).0
                    && a2.next() == allocate_page_step(a).1) ==> a2.wf() && (allocate_page_step(
                    a2,
                ).2 matches Some(address2) ==> address2 >= address + 4096)
        },
{
    if allocate_page_step(a).2 is Some {
        let region = a.regions()[a.index() as int];
        let address = a.next();
        assert(0 <= a.index() < a.regions().len() && a.regions()[a.index() as int].start
            <= address && address + 4096 <= a.regions()[a.index() as int].start + a.regions()[
        a.index() as int].size);
        assert forall|a2: PhysicalBumpAllocator|
            (#[trigger] a2.regions() == a.regions() && a2.index() == allocate_page_step(a).0
                && a2.next() == allocate_page_step(a).1) implies a2.wf() && (allocate_page_step(
            a2,
        ).2 matches Some(address2) ==> address2 >= address + 4096) by {
            let bumped = (address + 4096) as usize;
            assert(bumped % 4096 == 0) by (nonlinear_arith)
                requires
                    address % 4096 == 0,
                    bumped == address + 4096,
            ;
            if bumped + 4096 > region.start + region.size {
                if a.index() + 1 < a.regions().len() {
                    let next_region = a.regions()[a.index() + 1];
                    assert(region.start + region.size <= next_region.start);
                    assert(a2.wf());
                    assert(a2.next() >= address + 4096);
                } else {
                    assert(a2.index() >= a2.regions().len());
                    assert(a2.wf());
                }
            } else {
                assert(a2.wf());
                assert(a2.next() == address + 4096);
            }
        }
    }
}

/// Exhaustion: allocation fails exactly when everything the allocator owns
/// has been handed out; each success hands out exactly 4 KiB more, so the
/// number of successful allocations never exceeds the total size divided by
/// the page size.
pub proof fn lemma_allocate_page_exhaustion(a: PhysicalBumpAllocator)
    requires
        a.wf(),
    ensures
        allocate_page_step(a).2 is None <==> allocated_size(a) == sum_region_sizes(a.regions()),
        allocate_page_step(a).2 is Some ==> allocated_size(a) + 4096 <= sum_region_sizes(
            a.regions(),
        ),
        allocate_page_step(a).2 is Some ==> forall|a2: PhysicalBumpAllocator|
            (#[trigger] a2.regions() == a.regions() && a2.index() == allocate_page_step(a).0
                && a2.next() == allocate_page_step(a).1) ==> allocated_size(a2) == allocated_size(
                a,
            ) + 4096,
{
    lemma_allocated_le_total(a);
    let regions = a.regions();
    if a.index() < regions.len() {
        let region = regions[a.index() as int];
        lemma_sum_take_step(regions, a.index() as int);
        assert(allocated_size(a) < sum_region_sizes(regions)) by {
            lemma_sum_prefix_bound(regions, a.index() + 1);
        }
        assert forall|a2: PhysicalBumpAllocator|
            (#[trigger] a2.regions() == a.regions() && a2.index() == allocate_page_step(a).0
                && a2.next() == allocate_page_step(a).1) implies allocated_size(a2)
            == allocated_size(a) + 4096 by {
            let bumped = (a.next() + 4096) as usize;
            if bumped + 4096 > region.start + region.size {
                assert(bumped == region.start + region.size);
                if a.index() + 1 < regions.len() {
                    assert(allocated_size(a2) == sum_region_sizes(regions.take(a.index() + 1)));
                } else {
                    assert(regions.take(regions.len() as int) =~= regions);
                }
            }
        }
    } else {
        assert(allocated_size(a) == sum_region_sizes(regions));
    }
}

/// The allocator never hands out more than it owns.
pub proof fn lemma_allocated_le_total(a: PhysicalBumpAllocator)
    requires
        a.wf(),
    ensures
        0 <= allocated_size(a) <= sum_region_sizes(a.regions()),
        a.index() < a.regions().len() ==> allocated_size(a) + 4096 <= sum_region_sizes(
            a.regions(),
        ),
    decreases a.regions().len(),
{
    let regions = a.regions();
    if a.index() < regions.len() {
        let r = regions[a.index() as int];
        lemma_sum_prefix_bound(regions, a.index() as int);
        lemma_sum_take_step(regions, a.index() as int);
        lemma_sum_prefix_bound(regions, a.index() + 1);
        assert(a.next() - r.start + 4096 <= r.size);
    } else {
        lemma_sum_region_sizes_nonneg(regions);
    }
}

} // verus!
