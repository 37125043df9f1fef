//! Fixed-capacity collection of non-overlapping physical memory regions.
//!
//! The map is populated from the devicetree's memory nodes and then reduced
//! by carving out reserved ranges; the physical page allocator snapshots the
//! result.

use vstd::prelude::*;

use crate::dtb::{reg_entries_from, DtbStructure, DtbStructureEvent};
use crate::memory::{region_contains, region_end, MemoryRegion};
use crate::physical_memory_allocator::allocator_regions_wf;

verus! {

/// Maximum number of regions a memory map can hold.
pub const MEMORY_MAP_MAX_REGIONS: usize = 128;

/// All regions of a map fit the machine word: `start + size` never overflows.
pub open spec fn map_regions_wf(regions: Seq<MemoryRegion>) -> bool {
    &&& regions.len() <= 128
    &&& forall|i: int|
        0 <= i < regions.len() ==> (#[trigger] regions[i]).start + regions[i].size <= usize::MAX
}

/// Whether a region intersects the reserved range `[s, e)`.
pub open spec fn region_intersects(r: MemoryRegion, s: usize, e: int) -> bool {
    region_end(r) >= s && r.start < e
}

/// What is left of a region at its original position after removing the
/// reserved range `[s, e)`: the whole region when there is no intersection,
/// nothing when the range covers it, and the trimmed or leading part
/// otherwise.
pub open spec fn carve_main(r: MemoryRegion, s: usize, e: int) -> Option<MemoryRegion> {
    if !region_intersects(r, s, e) {
        Some(r)
    } else if s <= r.start && e > region_end(r) {
        None
    } else if s <= r.start && e <= region_end(r) {
        Some(MemoryRegion { start: e as usize, size: (region_end(r) + 1 - e) as usize })
    } else {
        Some(MemoryRegion { start: r.start, size: (s - r.start) as usize })
    }
}

/// The trailing part split off a region when the reserved range `[s, e)`
/// falls strictly inside it.
pub open spec fn carve_suffix(r: MemoryRegion, s: usize, e: int) -> Option<MemoryRegion> {
    if region_intersects(r, s, e) && s > r.start && e <= region_end(r) {
        Some(MemoryRegion { start: e as usize, size: (region_end(r) + 1 - e) as usize })
    } else {
        None
    }
}

/// The surviving parts of all regions, in their original order.
pub open spec fn carve_mains(regions: Seq<MemoryRegion>, s: usize, e: int) -> Seq<MemoryRegion>
    decreases regions.len(),
{
    if regions.len() == 0 {
        Seq::empty()
    } else {
        match carve_main(regions[0], s, e) {
            Some(p) => seq![p] + carve_mains(regions.drop_first(), s, e),
            None => carve_mains(regions.drop_first(), s, e),
        }
    }
}

/// The split-off trailing parts of all regions, in their original order.
pub open spec fn carve_suffixes(regions: Seq<MemoryRegion>, s: usize, e: int) -> Seq<MemoryRegion>
    decreases regions.len(),
{
    if regions.len() == 0 {
        Seq::empty()
    } else {
        match carve_suffix(regions[0], s, e) {
            Some(p) => seq![p] + carve_suffixes(regions.drop_first(), s, e),
            None => carve_suffixes(regions.drop_first(), s, e),
        }
    }
}

/// Append as many elements of `extra` to `base` as the capacity allows;
/// whatever does not fit is dropped.
pub open spec fn append_capped(
    base: Seq<MemoryRegion>,
    extra: Seq<MemoryRegion>,
    cap: int,
) -> Seq<MemoryRegion> {
    let room = cap - base.len();
    if room <= 0 {
        base
    } else if extra.len() <= room {
        base + extra
    } else {
        base + extra.take(room)
    }
}

/// The regions of a map after removing the reserved range
/// `[s, s + size)` from every region: surviving parts stay in place and
/// split-off trailing parts are appended at the end, up to the map's
/// capacity. A zero-size reserved range changes nothing.
pub open spec fn carve_spec(
    regions: Seq<MemoryRegion>,
    s: usize,
    size: usize,
) -> Seq<MemoryRegion> {
    if size == 0 {
        regions
    } else {
        append_capped(
            carve_mains(regions, s, s + size),
            carve_suffixes(regions, s, s + size),
            128,
        )
    }
}

/// A fixed-capacity ordered collection of physical memory regions.
pub struct MemoryMap {
    regions: Vec<MemoryRegion>,
}

impl View for MemoryMap {
    type V = Seq<MemoryRegion>;

    closed spec fn view(&self) -> Seq<MemoryRegion> {
        self.regions@
    }
}

impl MemoryMap {
    /// Creates a new memory map with no regions.
    pub fn new() -> (r: Self)
        ensures
            r@ == Seq::<MemoryRegion>::empty(),
    {
        MemoryMap { regions: Vec::new() }
    }

    /// The number of regions currently stored in the map.
    pub fn region_count(&self) -> (r: usize)
        ensures
            r == self@.len(),
    {
        self.regions.len()
    }

    /// The region stored at the given position.
    pub fn get_region(&self, index: usize) -> (r: MemoryRegion)
        requires
            index < self@.len(),
        ensures
            r == self@[index as int],
    {
        self.regions[index]
    }

    /// Adds a new memory region to the memory map. The map must not be full
    /// and the region must fit the address space.
    pub fn add_region(&mut self, start: usize, size: usize)
        requires
            old(self)@.len() < 128,
            start + size <= usize::MAX,
        ensures
            final(self)@ == old(self)@.push(MemoryRegion { start, size }),
    {
        self.regions.push(MemoryRegion { start, size });
    }

    /// Returns a copy of all regions in insertion order.
    pub fn walk_regions(&self) -> (r: Vec<MemoryRegion>)
        ensures
            r@ == self@,
    {
        let mut out: Vec<MemoryRegion> = Vec::new();
        let mut i: usize = 0;
        while i < self.regions.len()
            invariant
                i <= self.regions.len(),
                out@ == self.regions@.take(i as int),
            decreases self.regions.len() - i,
        {
            out.push(self.regions[i]);
            proof {
                assert(self.regions@.take(i + 1 as int)
                    =~= self.regions@.take(i as int).push(self.regions@[i as int]));
            }
            i = i + 1;
        }
        proof {
            assert(self.regions@.take(self.regions@.len() as int) =~= self.regions@);
        }
        out
    }

    /// Removes or adjusts the regions of this map that overlap the reserved
    /// range `[reserved_start, reserved_start + reserved_size)`.
    ///
    /// There are four overlap cases for each region: the range covers the
    /// whole region, which is removed; it overlaps the start, which is
    /// trimmed forward; it overlaps the end, which is trimmed back; or it
    /// falls strictly inside, which splits the region in two. The trailing
    /// halves of split regions are appended at the end of the map; one that
    /// does not fit within the capacity is dropped silently. A zero-size
    /// reserved range is a no-op.
    pub fn carve_out_region(&mut self, reserved_start: usize, reserved_size: usize)
        requires
            map_regions_wf(old(self)@),
            reserved_start + reserved_size <= usize::MAX,
        ensures
            final(self)@ == carve_spec(old(self)@, reserved_start, reserved_size),
            map_regions_wf(final(self)@),
    {
        if reserved_size == 0 {
            return ;
        }

        let reserved_end = reserved_start + reserved_size;
        let ghost e = reserved_start + reserved_size as int;
        let ghost all = self.regions@;

        let mut result: Vec<MemoryRegion> = Vec::new();
        let mut suffixes: Vec<MemoryRegion> = Vec::new();

        proof {
            assert(all.skip(0) =~= all);
            assert(result@ + carve_mains(all, reserved_start, e) =~= carve_mains(
                all,
                reserved_start,
                e,
            ));
            assert(suffixes@ + carve_suffixes(all, reserved_start, e) =~= carve_suffixes(
                all,
                reserved_start,
                e,
            ));
        }

        let mut i: usize = 0;
        while i < self.regions.len()
            invariant
                i <= self.regions@.len(),
                self.regions@ == all,
                map_regions_wf(all),
                reserved_start + reserved_size <= usize::MAX,
                reserved_end == reserved_start + reserved_size,
                e == reserved_start + reserved_size,
                carve_mains(all, reserved_start, e) == result@ + carve_mains(
                    all.skip(i as int),
                    reserved_start,
                    e,
                ),
                carve_suffixes(all, reserved_start, e) == suffixes@ + carve_suffixes(
                    all.skip(i as int),
                    reserved_start,
                    e,
                ),
                forall|k: int|
                    0 <= k < result@.len() ==> (#[trigger] result@[k]).start + result@[k].size
                        <= usize::MAX,
                forall|k: int|
                    0 <= k < suffixes@.len() ==> (#[trigger] suffixes@[k]).start
                        + suffixes@[k].size <= usize::MAX,
            decreases self.regions@.len() - i,
        {
            let ghost result0 = result@;
            let ghost suffixes0 = suffixes@;
            let region = self.regions[i];
            let region_end_addr = region.end();

            proof {
                assert(all.skip(i as int)[0] == all[i as int]);
                assert(all.skip(i as int).drop_first() =~= all.skip(i + 1 as int));
            }

            if region_end_addr >= reserved_start && region.start < reserved_end {
                if reserved_start <= region.start && reserved_end > region_end_addr {
                    // The reserved range covers the whole region: drop it.
                } else if reserved_start <= region.start && reserved_end <= region_end_addr {
                    // The reserved range overlaps the start of the region.
                    let new_start = reserved_end;
                    let new_size = (region_end_addr - new_start) + 1;
                    result.push(MemoryRegion { start: new_start, size: new_size });
                } else if reserved_start > region.start && reserved_end > region_end_addr {
                    // The reserved range overlaps the end of the region.
                    result.push(MemoryRegion { start: region.start, size: reserved_start - region.start });
                } else {
                    // The reserved range is strictly inside the region: keep
                    // the leading part and split off the trailing part.
                    result.push(MemoryRegion { start: region.start, size: reserved_start - region.start });
                    let suffix_start = reserved_end;
                    let suffix_size = (region_end_addr - suffix_start) + 1;
                    suffixes.push(MemoryRegion { start: suffix_start, size: suffix_size });
                }
            } else {
                // No intersection: the region is untouched.
                result.push(region);
            }

            proof {
                assert(carve_mains(all, reserved_start, e) == result@ + carve_mains(
                    all.skip(i + 1 as int),
                    reserved_start,
                    e,
                )) by {
                    let tail = carve_mains(all.skip(i + 1 as int), reserved_start, e);
                    match carve_main(all[i as int], reserved_start, e) {
                        Some(p) => {
                            assert(carve_mains(all.skip(i as int), reserved_start, e) == seq![p]
                                + tail);
                            assert(result0 + (seq![p] + tail) =~= (result0 + seq![p]) + tail);
                            assert(result@ =~= result0 + seq![p]);
                        },
                        None => {
                            assert(carve_mains(all.skip(i as int), reserved_start, e) == tail);
                        },
                    }
                }
                assert(carve_suffixes(all, reserved_start, e) == suffixes@ + carve_suffixes(
                    all.skip(i + 1 as int),
                    reserved_start,
                    e,
                )) by {
                    let tail = carve_suffixes(all.skip(i + 1 as int), reserved_start, e);
                    match carve_suffix(all[i as int], reserved_start, e) {
                        Some(p) => {
                            assert(carve_suffixes(all.skip(i as int), reserved_start, e) == seq![p]
                                + tail);
                            assert(suffixes0 + (seq![p] + tail) =~= (suffixes0 + seq![p]) + tail);
                            assert(suffixes@ =~= suffixes0 + seq![p]);
                        },
                        None => {
                            assert(carve_suffixes(all.skip(i as int), reserved_start, e) == tail);
                        },
                    }
                }
            }

            i = i + 1;
        }

        proof {
            assert(all.skip(all.len() as int) =~= Seq::<MemoryRegion>::empty());
            assert(result@ =~= carve_mains(all, reserved_start, e));
            assert(suffixes@ =~= carve_suffixes(all, reserved_start, e));
        }

        let ghost mains = result@;
        let ghost sfx = suffixes@;

        let mut j: usize = 0;
        while j < suffixes.len()
            invariant
                j <= sfx.len(),
                suffixes@ == sfx,
                result@ == append_capped(mains, sfx.take(j as int), 128),
                mains.len() <= result@.len(),
                forall|k: int|
                    0 <= k < result@.len() ==> (#[trigger] result@[k]).start + result@[k].size
                        <= usize::MAX,
                forall|k: int|
                    0 <= k < sfx.len() ==> (#[trigger] sfx[k]).start + sfx[k].size <= usize::MAX,
            decreases sfx.len() - j,
        {
            if result.len() < 128 {
                result.push(suffixes[j]);
                proof {
                    assert(sfx.take(j + 1 as int) =~= sfx.take(j as int).push(sfx[j as int]));
                    assert(result@ =~= append_capped(mains, sfx.take(j + 1 as int), 128));
                }
            } else {
                proof {
                    assert(sfx.take(j + 1 as int) =~= sfx.take(j as int).push(sfx[j as int]));
                    assert(result@ =~= append_capped(mains, sfx.take(j + 1 as int), 128));
                }
            }
            j = j + 1;
        }

        proof {
            assert(sfx.take(sfx.len() as int) =~= sfx);
            lemma_carve_mains_len(all, reserved_start, e);
            assert(result@ =~= carve_spec(all, reserved_start, reserved_size));
        }

        self.regions = result;
    }

    /// Removes a reserved range with its boundaries aligned outward: the
    /// start rounded down and the end rounded up to 4 KiB boundaries (the
    /// end clamped to the top of the address space). The whole reserved
    /// range is excluded conservatively, and a map of page-aligned regions
    /// of at least one page stays that way.
    pub fn carve_out_region_aligned(&mut self, reserved_start: usize, reserved_size: usize)
        requires
            map_regions_wf(old(self)@),
            reserved_start + reserved_size <= usize::MAX,
        ensures
            final(self)@ == carve_aligned_spec(old(self)@, reserved_start, reserved_size),
            map_regions_wf(final(self)@),
            allocator_regions_wf(old(self)@) ==> allocator_regions_wf(final(self)@),
    {
        if reserved_size == 0 {
            return ;
        }
        proof {
            lemma_page_rounding(reserved_start);
            lemma_page_rounding(((reserved_start + reserved_size) as usize));
        }
        let aligned_start = (reserved_start / 4096) * 4096;
        let end = reserved_start + reserved_size;
        let aligned_size = if end % 4096 == 0 {
            end - aligned_start
        } else if end <= usize::MAX - 4095 {
            proof {
                lemma_page_rounding(end);
            }
            (end / 4096) * 4096 + 4096 - aligned_start
        } else {
            usize::MAX - aligned_start
        };
        let ghost pre = self@;
        self.carve_out_region(aligned_start, aligned_size);
        proof {
            if allocator_regions_wf(pre) {
                lemma_carve_preserves_alignment(pre, aligned_start, aligned_size);
            }
        }
    }
}

/// Facts about rounding to the 4 KiB page size.
proof fn lemma_page_rounding(x: usize)
    by (nonlinear_arith)
    ensures
        (x / 4096) * 4096 <= x,
        x < (x / 4096) * 4096 + 4096,
        ((x / 4096) * 4096) % 4096 == 0,
{
}

/// The difference of two page multiples is a page multiple.
proof fn lemma_page_mod_diff(a: int, b: int)
    by (nonlinear_arith)
    requires
        a % 4096 == 0,
        b % 4096 == 0,
    ensures
        (a - b) % 4096 == 0,
{
}

/// A positive page multiple is at least one page.
proof fn lemma_page_multiple_at_least_page(x: int)
    by (nonlinear_arith)
    requires
        x % 4096 == 0,
        x > 0,
    ensures
        x >= 4096,
{
}

/// The pieces a page-aligned region leaves behind under a carve with a
/// page-aligned start and a page-aligned (or top-of-address-space) end are
/// themselves page-aligned regions of at least one page.
proof fn lemma_carve_piece_aligned(r: MemoryRegion, s: usize, e: int)
    requires
        r.start % 4096 == 0,
        r.size % 4096 == 0,
        r.size >= 4096,
        r.start + r.size <= usize::MAX,
        s % 4096 == 0,
        s < e,
        e % 4096 == 0 || e == usize::MAX,
    ensures
        carve_main(r, s, e) matches Some(p) ==> p.start % 4096 == 0 && p.size % 4096 == 0
            && p.size >= 4096 && p.start + p.size <= usize::MAX,
        carve_suffix(r, s, e) matches Some(p) ==> p.start % 4096 == 0 && p.size % 4096 == 0
            && p.size >= 4096 && p.start + p.size <= usize::MAX,
{
    if region_intersects(r, s, e) {
        if s <= r.start && e > region_end(r) {
        } else if s <= r.start && e <= region_end(r) {
            // Trimmed forward: the piece runs from the carve end to the
            // region end, and the carve end is aligned because the region
            // end is below the top of the address space.
            assert(e < usize::MAX);
            lemma_page_mod_diff(r.start + r.size, e);
            lemma_page_multiple_at_least_page(r.start + r.size - e);
        } else {
            // Trimmed back, possibly with a split-off tail.
            lemma_page_mod_diff(s as int, r.start as int);
            lemma_page_multiple_at_least_page(s - r.start);
            if e <= region_end(r) {
                assert(e < usize::MAX);
                lemma_page_mod_diff(r.start + r.size, e);
                lemma_page_multiple_at_least_page(r.start + r.size - e);
            }
        }
    }
}

proof fn lemma_carve_parts_aligned(regions: Seq<MemoryRegion>, s: usize, e: int)
    requires
        allocator_regions_wf(regions),
        s % 4096 == 0,
        s < e,
        e % 4096 == 0 || e == usize::MAX,
    ensures
        allocator_regions_wf(carve_mains(regions, s, e)),
        allocator_regions_wf(carve_suffixes(regions, s, e)),
    decreases regions.len(),
{
    if regions.len() > 0 {
        let rest = regions.drop_first();
        assert(allocator_regions_wf(rest)) by {
            assert(forall|i: int| 0 <= i < rest.len() ==> #[trigger] rest[i] == regions[i + 1]);
        }
        lemma_carve_parts_aligned(rest, s, e);
        lemma_carve_piece_aligned(regions[0], s, e);
        let mains = carve_mains(regions, s, e);
        let sfx = carve_suffixes(regions, s, e);
        assert forall|i: int|
            0 <= i < mains.len() implies {
            let p = #[trigger] mains[i];
            p.start % 4096 == 0 && p.size % 4096 == 0 && p.size >= 4096 && p.start + p.size
                <= usize::MAX
        } by {
            match carve_main(regions[0], s, e) {
                Some(p0) => {
                    if i > 0 {
                        assert(mains[i] == carve_mains(rest, s, e)[i - 1]);
                    }
                },
                None => {
                    assert(mains[i] == carve_mains(rest, s, e)[i]);
                },
            }
        }
        assert forall|i: int|
            0 <= i < sfx.len() implies {
            let p = #[trigger] sfx[i];
            p.start % 4096 == 0 && p.size % 4096 == 0 && p.size >= 4096 && p.start + p.size
                <= usize::MAX
        } by {
            match carve_suffix(regions[0], s, e) {
                Some(p0) => {
                    if i > 0 {
                        assert(sfx[i] == carve_suffixes(rest, s, e)[i - 1]);
                    }
                },
                None => {
                    assert(sfx[i] == carve_suffixes(rest, s, e)[i]);
                },
            }
        }
    }
}

/// Carving a page-aligned range out of page-aligned regions leaves
/// page-aligned regions.
proof fn lemma_carve_preserves_alignment(regions: Seq<MemoryRegion>, s: usize, size: usize)
    requires
        allocator_regions_wf(regions),
        s % 4096 == 0,
        s + size <= usize::MAX,
        size % 4096 == 0 || s + size == usize::MAX,
    ensures
        allocator_regions_wf(carve_spec(regions, s, size)),
{
    if size == 0 {
    } else {
        let e = s + size as int;
        assert(e % 4096 == 0 || e == usize::MAX) by {
            if size % 4096 == 0 {
                lemma_page_mod_diff(e, s as int);
                assert((e - s) % 4096 == 0);
                lemma_page_sum(s as int, size as int);
            }
        }
        lemma_carve_parts_aligned(regions, s, e);
        let mains = carve_mains(regions, s, e);
        let sfx = carve_suffixes(regions, s, e);
        let out = carve_spec(regions, s, size);
        assert forall|i: int|
            0 <= i < out.len() implies {
            let p = #[trigger] out[i];
            p.start % 4096 == 0 && p.size % 4096 == 0 && p.size >= 4096 && p.start + p.size
                <= usize::MAX
        } by {
            if i < mains.len() {
                assert(out[i] == mains[i]);
            } else {
                assert(out[i] == sfx[i - mains.len()]);
            }
        }
    }
}

/// The sum of two page multiples is a page multiple.
proof fn lemma_page_sum(a: int, b: int)
    by (nonlinear_arith)
    requires
        a % 4096 == 0,
        b % 4096 == 0,
    ensures
        (a + b) % 4096 == 0,
{
}

/// The surviving parts are never more numerous than the original regions.
proof fn lemma_carve_mains_len(regions: Seq<MemoryRegion>, s: usize, e: int)
    ensures
        carve_mains(regions, s, e).len() <= regions.len(),
    decreases regions.len(),
{
    if regions.len() > 0 {
        lemma_carve_mains_len(regions.drop_first(), s, e);
    }
}

/// Whether some region of the sequence contains the address.
pub open spec fn region_seq_contains(regions: Seq<MemoryRegion>, address: int) -> bool {
    exists|i: int| 0 <= i < regions.len() && region_contains(#[trigger] regions[i], address)
}

/// The total number of bytes covered by the regions.
pub open spec fn sum_sizes(regions: Seq<MemoryRegion>) -> int
    decreases regions.len(),
{
    if regions.len() == 0 {
        0
    } else {
        regions[0].size + sum_sizes(regions.drop_first())
    }
}

/// The number of bytes the region shares with the range `[s, s + size)`.
pub open spec fn intersection_size(r: MemoryRegion, s: usize, size: usize) -> int {
    let lo = if r.start >= s {
        r.start as int
    } else {
        s as int
    };
    let hi = if r.start + r.size <= s + size {
        r.start + r.size
    } else {
        s + size
    };
    if hi >= lo {
        hi - lo
    } else {
        0
    }
}

/// Whether two regions share at least one address.
pub open spec fn regions_overlap(r1: MemoryRegion, r2: MemoryRegion) -> bool {
    exists|a: int| region_contains(r1, a) && region_contains(r2, a)
}

/// No two distinct regions of the sequence share an address.
pub open spec fn regions_disjoint(regions: Seq<MemoryRegion>) -> bool {
    forall|i: int, j: int|
        0 <= i < regions.len() && 0 <= j < regions.len() && i != j ==> !regions_overlap(
            #[trigger] regions[i],
            #[trigger] regions[j],
        )
}

/// Carving a reserved range out of a single region removes exactly the
/// addresses of that range: the surviving parts cover the set difference,
/// and the surviving sizes plus the intersected size add up to the original
/// size.
pub proof fn lemma_carve_out_is_set_subtraction(r: MemoryRegion, s: usize, size: usize)
    requires
        r.start + r.size <= usize::MAX,
        s + size <= usize::MAX,
        size > 0,
    ensures
        forall|a: int|
            region_seq_contains(carve_spec(seq![r], s, size), a) <==> (region_contains(r, a) && !(
            s <= a < s + size)),
        sum_sizes(carve_spec(seq![r], s, size)) + intersection_size(r, s, size) == r.size,
{
    let e = s + size as int;
    let rs = seq![r];
    assert(rs[0] == r);
    assert(rs.drop_first() =~= Seq::<MemoryRegion>::empty());
    let mains = carve_mains(rs, s, e);
    let sfx = carve_suffixes(rs, s, e);
    assert(carve_mains(Seq::<MemoryRegion>::empty(), s, e) =~= Seq::<MemoryRegion>::empty());
    assert(carve_suffixes(Seq::<MemoryRegion>::empty(), s, e) =~= Seq::<MemoryRegion>::empty());
    let out = carve_spec(rs, s, size);
    assert(out == append_capped(mains, sfx, 128));

    if !region_intersects(r, s, e) {
        assert(mains =~= seq![r]);
        assert(sfx =~= Seq::<MemoryRegion>::empty());
        assert(out =~= seq![r]);
        assert forall|a: int|
            region_seq_contains(out, a) <==> (region_contains(r, a) && !(s <= a < e)) by {
            if region_contains(r, a) {
                if r.size > 0 {
                    assert(region_end(r) == r.start + r.size - 1);
                }
                assert(!(s <= a < e));
                assert(region_contains(out[0], a));
            }
            if region_seq_contains(out, a) {
                assert(region_contains(out[0], a));
            }
        }
        assert(sum_sizes(out) == r.size + sum_sizes(out.drop_first()));
        assert(out.drop_first() =~= Seq::<MemoryRegion>::empty());
        assert(intersection_size(r, s, size) == 0);
    } else if s <= r.start && e > region_end(r) {
        // The reserved range covers the whole region.
        assert(mains =~= Seq::<MemoryRegion>::empty());
        assert(sfx =~= Seq::<MemoryRegion>::empty());
        assert(out =~= Seq::<MemoryRegion>::empty());
        assert forall|a: int|
            region_seq_contains(out, a) <==> (region_contains(r, a) && !(s <= a < e)) by {
            if region_contains(r, a) {
                assert(s <= a < e);
            }
        }
        assert(sum_sizes(out) == 0);
        assert(intersection_size(r, s, size) == r.size);
    } else if s <= r.start && e <= region_end(r) {
        // The reserved range overlaps the start of the region.
        let p = MemoryRegion { start: e as usize, size: (region_end(r) + 1 - e) as usize };
        assert(mains =~= seq![p]);
        assert(sfx =~= Seq::<MemoryRegion>::empty());
        assert(out =~= seq![p]);
        assert forall|a: int|
            region_seq_contains(out, a) <==> (region_contains(r, a) && !(s <= a < e)) by {
            if region_contains(r, a) && !(s <= a < e) {
                assert(region_contains(out[0], a));
            }
            if region_seq_contains(out, a) {
                assert(region_contains(out[0], a));
            }
        }
        assert(sum_sizes(out) == p.size + sum_sizes(out.drop_first()));
        assert(out.drop_first() =~= Seq::<MemoryRegion>::empty());
    } else if s > r.start && e > region_end(r) {
        // The reserved range overlaps the end of the region.
        let p = MemoryRegion { start: r.start, size: (s - r.start) as usize };
        assert(mains =~= seq![p]);
        assert(sfx =~= Seq::<MemoryRegion>::empty());
        assert(out =~= seq![p]);
        assert forall|a: int|
            region_seq_contains(out, a) <==> (region_contains(r, a) && !(s <= a < e)) by {
            if region_contains(r, a) && !(s <= a < e) {
                assert(region_contains(out[0], a));
            }
            if region_seq_contains(out, a) {
                assert(region_contains(out[0], a));
            }
        }
        assert(sum_sizes(out) == p.size + sum_sizes(out.drop_first()));
        assert(out.drop_first() =~= Seq::<MemoryRegion>::empty());
    } else {
        // The reserved range is strictly inside the region.
        let p = MemoryRegion { start: r.start, size: (s - r.start) as usize };
        let q = MemoryRegion { start: e as usize, size: (region_end(r) + 1 - e) as usize };
        assert(mains =~= seq![p]);
        assert(sfx =~= seq![q]);
        assert(out =~= seq![p, q]);
        assert forall|a: int|
            region_seq_contains(out, a) <==> (region_contains(r, a) && !(s <= a < e)) by {
            if region_contains(r, a) && !(s <= a < e) {
                if a < s {
                    assert(region_contains(out[0], a));
                } else {
                    assert(region_contains(out[1], a));
                }
            }
            if region_seq_contains(out, a) {
                let i = choose|i: int| 0 <= i < out.len() && region_contains(out[i], a);
                assert(region_contains(out[0], a) || region_contains(out[1], a));
            }
        }
        assert(out.drop_first() =~= seq![q]);
        lemma_sum_singleton(q);
        assert(sum_sizes(out) == p.size + sum_sizes(seq![q]));
    }
}

proof fn lemma_sum_singleton(p: MemoryRegion)
    ensures
        sum_sizes(seq![p]) == p.size,
{
    assert(seq![p].drop_first() =~= Seq::<MemoryRegion>::empty());
    assert(sum_sizes(Seq::<MemoryRegion>::empty()) == 0);
}

/// A piece lies entirely inside a region.
pub open spec fn piece_within(p: MemoryRegion, r: MemoryRegion) -> bool {
    r.start <= p.start && p.start + p.size <= r.start + r.size
}

/// Every piece of the sequence lies inside some region of `regions`.
pub open spec fn pieces_within(pieces: Seq<MemoryRegion>, regions: Seq<MemoryRegion>) -> bool {
    forall|i: int|
        0 <= i < pieces.len() ==> exists|k: int|
            0 <= k < regions.len() && piece_within(#[trigger] pieces[i], regions[k])
}

/// No piece of `a` overlaps any piece of `b`.
pub open spec fn cross_disjoint(a: Seq<MemoryRegion>, b: Seq<MemoryRegion>) -> bool {
    forall|i: int, j: int|
        0 <= i < a.len() && 0 <= j < b.len() ==> !regions_overlap(
            #[trigger] a[i],
            #[trigger] b[j],
        )
}

proof fn lemma_disjoint_concat(a: Seq<MemoryRegion>, b: Seq<MemoryRegion>)
    requires
        regions_disjoint(a),
        regions_disjoint(b),
        cross_disjoint(a, b),
    ensures
        regions_disjoint(a + b),
{
    let c = a + b;
    assert forall|i: int, j: int|
        0 <= i < c.len() && 0 <= j < c.len() && i != j implies !regions_overlap(
        #[trigger] c[i],
        #[trigger] c[j],
    ) by {
        if i < a.len() && j < a.len() {
            assert(c[i] == a[i] && c[j] == a[j]);
        } else if i < a.len() && j >= a.len() {
            assert(c[i] == a[i] && c[j] == b[j - a.len()]);
        } else if i >= a.len() && j < a.len() {
            assert(c[i] == b[i - a.len()] && c[j] == a[j]);
            assert(!regions_overlap(a[j], b[i - a.len()]));
            assert(regions_overlap(c[i], c[j]) ==> regions_overlap(a[j], b[i - a.len()]));
        } else {
            assert(c[i] == b[i - a.len()] && c[j] == b[j - a.len()]);
        }
    }
}

/// The surviving part and the split-off part of one region never overlap.
proof fn lemma_pieces_of_one_region_disjoint(r: MemoryRegion, s: usize, e: int)
    requires
        s <= e,
        r.start + r.size <= usize::MAX,
    ensures
        carve_main(r, s, e) is Some && carve_suffix(r, s, e) is Some ==> !regions_overlap(
            carve_main(r, s, e)->Some_0,
            carve_suffix(r, s, e)->Some_0,
        ),
        carve_main(r, s, e) is Some ==> piece_within(carve_main(r, s, e)->Some_0, r),
        carve_suffix(r, s, e) is Some ==> piece_within(carve_suffix(r, s, e)->Some_0, r),
{
    if !region_intersects(r, s, e) {
        assert(carve_main(r, s, e) == Some(r));
        assert(piece_within(r, r));
    } else if s <= r.start && e > region_end(r) {
    } else if s <= r.start && e <= region_end(r) {
        let p = MemoryRegion { start: e as usize, size: (region_end(r) + 1 - e) as usize };
        assert(carve_main(r, s, e) == Some(p));
        assert(r.start < e);
        assert(piece_within(p, r));
    } else if s > r.start && e > region_end(r) {
        let p = MemoryRegion { start: r.start, size: (s - r.start) as usize };
        assert(carve_main(r, s, e) == Some(p));
        assert(region_end(r) >= s);
        assert(piece_within(p, r));
    } else {
        let p = MemoryRegion { start: r.start, size: (s - r.start) as usize };
        let q = MemoryRegion { start: e as usize, size: (region_end(r) + 1 - e) as usize };
        assert(carve_main(r, s, e) == Some(p));
        assert(carve_suffix(r, s, e) == Some(q));
        assert(piece_within(p, r));
        assert(piece_within(q, r));
        assert(!regions_overlap(p, q)) by {
            if regions_overlap(p, q) {
                let a = choose|a: int| region_contains(p, a) && region_contains(q, a);
                assert(a < s && a >= e);
            }
        }
    }
}

/// Pieces inside disjoint regions are themselves disjoint.
proof fn lemma_within_disjoint(
    p1: MemoryRegion,
    r1: MemoryRegion,
    p2: MemoryRegion,
    r2: MemoryRegion,
)
    requires
        piece_within(p1, r1),
        piece_within(p2, r2),
        !regions_overlap(r1, r2),
    ensures
        !regions_overlap(p1, p2),
{
    if regions_overlap(p1, p2) {
        let a = choose|a: int| region_contains(p1, a) && region_contains(p2, a);
        assert(region_contains(r1, a) && region_contains(r2, a));
    }
}

proof fn lemma_carve_parts_disjoint(regions: Seq<MemoryRegion>, s: usize, e: int)
    requires
        regions_disjoint(regions),
        s <= e,
        forall|i: int|
            0 <= i < regions.len() ==> (#[trigger] regions[i]).start + regions[i].size
                <= usize::MAX,
    ensures
        regions_disjoint(carve_mains(regions, s, e)),
        regions_disjoint(carve_suffixes(regions, s, e)),
        cross_disjoint(carve_mains(regions, s, e), carve_suffixes(regions, s, e)),
        pieces_within(carve_mains(regions, s, e), regions),
        pieces_within(carve_suffixes(regions, s, e), regions),
    decreases regions.len(),
{
    if regions.len() == 0 {
    } else {
        let r0 = regions[0];
        let rest = regions.drop_first();
        assert(forall|i: int|
            0 <= i < rest.len() ==> (#[trigger] rest[i]).start + rest[i].size <= usize::MAX) by {
            assert(forall|i: int| 0 <= i < rest.len() ==> #[trigger] rest[i] == regions[i + 1]);
        }
        assert(regions_disjoint(rest)) by {
            assert forall|i: int, j: int|
                0 <= i < rest.len() && 0 <= j < rest.len() && i != j implies !regions_overlap(
                #[trigger] rest[i],
                #[trigger] rest[j],
            ) by {
                assert(rest[i] == regions[i + 1] && rest[j] == regions[j + 1]);
            }
        }
        lemma_carve_parts_disjoint(rest, s, e);
        lemma_pieces_of_one_region_disjoint(r0, s, e);

        let m_rest = carve_mains(rest, s, e);
        let s_rest = carve_suffixes(rest, s, e);
        let mains = carve_mains(regions, s, e);
        let sfx = carve_suffixes(regions, s, e);

        // Every piece of the rest lies inside some region other than r0, so
        // it cannot overlap a piece of r0.
        assert forall|q: MemoryRegion, p0: MemoryRegion|
            piece_within(p0, r0) && (exists|k: int|
                0 <= k < rest.len() && piece_within(q, rest[k])) implies !regions_overlap(p0, q) by {
            let k = choose|k: int| 0 <= k < rest.len() && piece_within(q, rest[k]);
            assert(rest[k] == regions[k + 1]);
            assert(!regions_overlap(r0, regions[k + 1]));
            lemma_within_disjoint(p0, r0, q, regions[k + 1]);
        }

        match carve_main(r0, s, e) {
            Some(p) => {
                assert(mains == seq![p] + m_rest);
                assert(mains[0] == p);
                assert forall|i: int| 1 <= i < mains.len() implies mains[i] == m_rest[i - 1] by {}
                assert(regions_disjoint(mains)) by {
                    assert forall|i: int, j: int|
                        0 <= i < mains.len() && 0 <= j < mains.len() && i != j implies
                        !regions_overlap(#[trigger] mains[i], #[trigger] mains[j]) by {
                        if i == 0 {
                            assert(mains[j] == m_rest[j - 1]);
                            assert(exists|k: int|
                                0 <= k < rest.len() && piece_within(m_rest[j - 1], rest[k]));
                        } else if j == 0 {
                            assert(mains[i] == m_rest[i - 1]);
                            assert(exists|k: int|
                                0 <= k < rest.len() && piece_within(m_rest[i - 1], rest[k]));
                            assert(!regions_overlap(mains[j], mains[i]));
                            assert(regions_overlap(mains[i], mains[j]) ==> regions_overlap(
                                mains[j],
                                mains[i],
                            ));
                        } else {
                            assert(mains[i] == m_rest[i - 1] && mains[j] == m_rest[j - 1]);
                        }
                    }
                }
                assert(pieces_within(mains, regions)) by {
                    assert forall|i: int| 0 <= i < mains.len() implies exists|k: int|
                        0 <= k < regions.len() && piece_within(#[trigger] mains[i], regions[k]) by {
                        if i == 0 {
                            assert(piece_within(mains[0], regions[0]));
                        } else {
                            let k = choose|k: int|
                                0 <= k < rest.len() && piece_within(m_rest[i - 1], rest[k]);
                            assert(piece_within(mains[i], regions[k + 1]));
                        }
                    }
                }
            },
            None => {
                assert(mains == m_rest);
                assert(pieces_within(mains, regions)) by {
                    assert forall|i: int| 0 <= i < mains.len() implies exists|k: int|
                        0 <= k < regions.len() && piece_within(#[trigger] mains[i], regions[k]) by {
                        let k = choose|k: int|
                            0 <= k < rest.len() && piece_within(m_rest[i], rest[k]);
                        assert(piece_within(mains[i], regions[k + 1]));
                    }
                }
            },
        }

        match carve_suffix(r0, s, e) {
            Some(p) => {
                assert(sfx == seq![p] + s_rest);
                assert(sfx[0] == p);
                assert(regions_disjoint(sfx)) by {
                    assert forall|i: int, j: int|
                        0 <= i < sfx.len() && 0 <= j < sfx.len() && i != j implies !regions_overlap(
                        #[trigger] sfx[i],
                        #[trigger] sfx[j],
                    ) by {
                        if i == 0 {
                            assert(sfx[j] == s_rest[j - 1]);
                            assert(exists|k: int|
                                0 <= k < rest.len() && piece_within(s_rest[j - 1], rest[k]));
                        } else if j == 0 {
                            assert(sfx[i] == s_rest[i - 1]);
                            assert(exists|k: int|
                                0 <= k < rest.len() && piece_within(s_rest[i - 1], rest[k]));
                            assert(!regions_overlap(sfx[j], sfx[i]));
                            assert(regions_overlap(sfx[i], sfx[j]) ==> regions_overlap(
                                sfx[j],
                                sfx[i],
                            ));
                        } else {
                            assert(sfx[i] == s_rest[i - 1] && sfx[j] == s_rest[j - 1]);
                        }
                    }
                }
                assert(pieces_within(sfx, regions)) by {
                    assert forall|i: int| 0 <= i < sfx.len() implies exists|k: int|
                        0 <= k < regions.len() && piece_within(#[trigger] sfx[i], regions[k]) by {
                        if i == 0 {
                            assert(piece_within(sfx[0], regions[0]));
                        } else {
                            let k = choose|k: int|
                                0 <= k < rest.len() && piece_within(s_rest[i - 1], rest[k]);
                            assert(piece_within(sfx[i], regions[k + 1]));
                        }
                    }
                }
            },
            None => {
                assert(sfx == s_rest);
                assert(pieces_within(sfx, regions)) by {
                    assert forall|i: int| 0 <= i < sfx.len() implies exists|k: int|
                        0 <= k < regions.len() && piece_within(#[trigger] sfx[i], regions[k]) by {
                        let k = choose|k: int|
                            0 <= k < rest.len() && piece_within(s_rest[i], rest[k]);
                        assert(piece_within(sfx[i], regions[k + 1]));
                    }
                }
            },
        }

        assert(cross_disjoint(mains, sfx)) by {
            assert forall|i: int, j: int|
                0 <= i < mains.len() && 0 <= j < sfx.len() implies !regions_overlap(
                #[trigger] mains[i],
                #[trigger] sfx[j],
            ) by {
                let m_is_new = carve_main(r0, s, e) is Some && i == 0;
                let s_is_new = carve_suffix(r0, s, e) is Some && j == 0;
                if m_is_new && s_is_new {
                    assert(!regions_overlap(mains[0], sfx[0]));
                } else if m_is_new {
                    let jr = if carve_suffix(r0, s, e) is Some {
                        j - 1
                    } else {
                        j
                    };
                    assert(sfx[j] == s_rest[jr]);
                    assert(exists|k: int| 0 <= k < rest.len() && piece_within(s_rest[jr], rest[k]));
                } else if s_is_new {
                    let ir = if carve_main(r0, s, e) is Some {
                        i - 1
                    } else {
                        i
                    };
                    assert(mains[i] == m_rest[ir]);
                    assert(exists|k: int| 0 <= k < rest.len() && piece_within(m_rest[ir], rest[k]));
                    assert(!regions_overlap(sfx[j], mains[i]));
                    assert(regions_overlap(mains[i], sfx[j]) ==> regions_overlap(
                        sfx[j],
                        mains[i],
                    ));
                } else {
                    let ir = if carve_main(r0, s, e) is Some {
                        i - 1
                    } else {
                        i
                    };
                    let jr = if carve_suffix(r0, s, e) is Some {
                        j - 1
                    } else {
                        j
                    };
                    assert(mains[i] == m_rest[ir] && sfx[j] == s_rest[jr]);
                }
            }
        }
    }
}

/// Carving a reserved range out of a map whose regions are pairwise disjoint
/// leaves the regions pairwise disjoint.
pub proof fn lemma_carve_out_preserves_disjointness(
    regions: Seq<MemoryRegion>,
    s: usize,
    size: usize,
)
    requires
        regions_disjoint(regions),
        map_regions_wf(regions),
    ensures
        regions_disjoint(carve_spec(regions, s, size)),
{
    if size == 0 {
    } else {
        let e = s + size as int;
        lemma_carve_parts_disjoint(regions, s, e);
        let mains = carve_mains(regions, s, e);
        let sfx = carve_suffixes(regions, s, e);
        let room = 128 - mains.len();
        if room <= 0 {
            assert(carve_spec(regions, s, size) == mains);
        } else if sfx.len() <= room {
            lemma_disjoint_concat(mains, sfx);
        } else {
            let taken = sfx.take(room);
            assert(regions_disjoint(taken)) by {
                assert forall|i: int, j: int|
                    0 <= i < taken.len() && 0 <= j < taken.len() && i != j implies !regions_overlap(
                    #[trigger] taken[i],
                    #[trigger] taken[j],
                ) by {
                    assert(taken[i] == sfx[i] && taken[j] == sfx[j]);
                }
            }
            assert(cross_disjoint(mains, taken)) by {
                assert forall|i: int, j: int|
                    0 <= i < mains.len() && 0 <= j < taken.len() implies !regions_overlap(
                    #[trigger] mains[i],
                    #[trigger] taken[j],
                ) by {
                    assert(taken[j] == sfx[j]);
                }
            }
            lemma_disjoint_concat(mains, taken);
        }
    }
}

/// Appending a region that overlaps no existing region keeps the map's
/// regions pairwise disjoint.
pub proof fn lemma_add_region_preserves_disjointness(regions: Seq<MemoryRegion>, r: MemoryRegion)
    requires
        regions_disjoint(regions),
        forall|k: int| 0 <= k < regions.len() ==> !regions_overlap(#[trigger] regions[k], r),
    ensures
        regions_disjoint(regions.push(r)),
{
    let out = regions.push(r);
    assert forall|i: int, j: int|
        0 <= i < out.len() && 0 <= j < out.len() && i != j implies !regions_overlap(
        #[trigger] out[i],
        #[trigger] out[j],
    ) by {
        if i < regions.len() && j < regions.len() {
            assert(out[i] == regions[i] && out[j] == regions[j]);
        } else if i < regions.len() {
            assert(out[i] == regions[i] && out[j] == r);
        } else if j < regions.len() {
            assert(out[i] == r && out[j] == regions[j]);
            assert(!regions_overlap(regions[j], r));
            assert(regions_overlap(out[i], out[j]) ==> regions_overlap(regions[j], r));
        } else {
            assert(i == j);
        }
    }
}

/// Whether a node name is `memory` or begins with `memory@`.
pub open spec fn is_memory_node_name(name: Seq<u8>) -> bool {
    name == seq![109u8, 101u8, 109u8, 111u8, 114u8, 121u8] || (name.len() >= 7 && name.subrange(
        0,
        7,
    ) == seq![109u8, 101u8, 109u8, 111u8, 114u8, 121u8, 64u8])
}

/// Whether a node name is `reserved-memory` or begins with
/// `reserved-memory@`.
pub open spec fn is_reserved_memory_node_name(name: Seq<u8>) -> bool {
    name == seq![
        114u8,
        101u8,
        115u8,
        101u8,
        114u8,
        118u8,
        101u8,
        100u8,
        45u8,
        109u8,
        101u8,
        109u8,
        111u8,
        114u8,
        121u8,
    ] || (name.len() >= 16 && name.subrange(0, 16) == seq![
        114u8,
        101u8,
        115u8,
        101u8,
        114u8,
        118u8,
        101u8,
        100u8,
        45u8,
        109u8,
        101u8,
        109u8,
        111u8,
        114u8,
        121u8,
        64u8,
    ])
}

/// Whether a property name is `reg`.
pub open spec fn is_reg_property_name(name: Seq<u8>) -> bool {
    name == seq![114u8, 101u8, 103u8]
}

fn name_is_memory_node(name: &Vec<u8>) -> (r: bool)
    ensures
        r == is_memory_node_name(name@),
{
    if name.len() == 6 && name[0] == 109 && name[1] == 101 && name[2] == 109 && name[3] == 111
        && name[4] == 114 && name[5] == 121 {
        proof {
            assert(name@ =~= seq![109u8, 101u8, 109u8, 111u8, 114u8, 121u8]);
        }
        true
    } else if name.len() >= 7 && name[0] == 109 && name[1] == 101 && name[2] == 109 && name[3]
        == 111 && name[4] == 114 && name[5] == 121 && name[6] == 64 {
        proof {
            assert(name@.subrange(0, 7) =~= seq![
                109u8,
                101u8,
                109u8,
                111u8,
                114u8,
                121u8,
                64u8,
            ]);
        }
        true
    } else {
        proof {
            if name@ == seq![109u8, 101u8, 109u8, 111u8, 114u8, 121u8] {
                assert(name@.len() == 6 && name@[0] == 109 && name@[1] == 101 && name@[2] == 109
                    && name@[3] == 111 && name@[4] == 114 && name@[5] == 121);
            }
            if name@.len() >= 7 && name@.subrange(0, 7) == seq![
                109u8,
                101u8,
                109u8,
                111u8,
                114u8,
                121u8,
                64u8,
            ] {
                assert(forall|i: int| 0 <= i < 7 ==> name@.subrange(0, 7)[i] == name@[i]);
                assert(name@[0] == 109 && name@[1] == 101 && name@[2] == 109 && name@[3] == 111
                    && name@[4] == 114 && name@[5] == 121 && name@[6] == 64);
            }
        }
        false
    }
}

fn name_is_reserved_memory_node(name: &Vec<u8>) -> (r: bool)
    ensures
        r == is_reserved_memory_node_name(name@),
{
    let matches_prefix = name.len() >= 15 && name[0] == 114 && name[1] == 101 && name[2] == 115
        && name[3] == 101 && name[4] == 114 && name[5] == 118 && name[6] == 101 && name[7] == 100
        && name[8] == 45 && name[9] == 109 && name[10] == 101 && name[11] == 109 && name[12]
        == 111 && name[13] == 114 && name[14] == 121;
    if matches_prefix && name.len() == 15 {
        proof {
            assert(name@ =~= seq![
                114u8,
                101u8,
                115u8,
                101u8,
                114u8,
                118u8,
                101u8,
                100u8,
                45u8,
                109u8,
                101u8,
                109u8,
                111u8,
                114u8,
                121u8,
            ]);
        }
        true
    } else if matches_prefix && name.len() >= 16 && name[15] == 64 {
        proof {
            assert(name@.subrange(0, 16) =~= seq![
                114u8,
                101u8,
                115u8,
                101u8,
                114u8,
                118u8,
                101u8,
                100u8,
                45u8,
                109u8,
                101u8,
                109u8,
                111u8,
                114u8,
                121u8,
                64u8,
            ]);
        }
        true
    } else {
        proof {
            let full = seq![
                114u8,
                101u8,
                115u8,
                101u8,
                114u8,
                118u8,
                101u8,
                100u8,
                45u8,
                109u8,
                101u8,
                109u8,
                111u8,
                114u8,
                121u8,
            ];
            if name@ == full {
                assert(name@.len() == 15);
                assert(forall|i: int| 0 <= i < 15 ==> name@[i] == full[i]);
            }
            if name@.len() >= 16 && name@.subrange(0, 16) == full.push(64u8) {
                assert(forall|i: int| 0 <= i < 16 ==> name@.subrange(0, 16)[i] == name@[i]);
                assert(forall|i: int| 0 <= i < 15 ==> full.push(64u8)[i] == full[i]);
                assert(name@[15] == 64);
            }
        }
        false
    }
}

fn name_is_reg_property(name: &Vec<u8>) -> (r: bool)
    ensures
        r == is_reg_property_name(name@),
{
    if name.len() == 3 && name[0] == 114 && name[1] == 101 && name[2] == 103 {
        proof {
            assert(name@ =~= seq![114u8, 101u8, 103u8]);
        }
        true
    } else {
        proof {
            if name@ == seq![114u8, 101u8, 103u8] {
                assert(name@.len() == 3 && name@[0] == 114 && name@[1] == 101 && name@[2] == 103);
            }
        }
        false
    }
}

/// The usable region a raw (address, size) pair from a `memory` node's `reg`
/// property contributes: the start is rounded up and the size down to 4 KiB
/// boundaries; what ends up smaller than one page, would overflow during
/// alignment, or would reach past the address space is dropped.
pub open spec fn usable_region_of(address: u64, size: u64) -> Option<MemoryRegion> {
    let start = address as usize;
    let sz = size as usize;
    if start > usize::MAX - 4095 || sz > usize::MAX - start {
        None
    } else {
        let aligned_start = (((start + 4095) / 4096) * 4096) as usize;
        let adjustment = aligned_start - start;
        let adjusted = if adjustment < sz {
            (sz - adjustment) as usize
        } else {
            0usize
        };
        let aligned_size = ((adjusted / 4096) * 4096) as usize;
        if aligned_size >= 4096 {
            Some(MemoryRegion { start: aligned_start, size: aligned_size })
        } else {
            None
        }
    }
}

/// Append the usable regions of the given (address, size) pairs, dropping
/// what does not fit the map's capacity.
pub open spec fn add_usable_regions(regions: Seq<MemoryRegion>, pairs: Seq<(u64, u64)>) -> Seq<
    MemoryRegion,
>
    decreases pairs.len(),
{
    if pairs.len() == 0 {
        regions
    } else {
        let next = match usable_region_of(pairs[0].0, pairs[0].1) {
            Some(r) => if regions.len() < 128 {
                regions.push(r)
            } else {
                regions
            },
            None => regions,
        };
        add_usable_regions(next, pairs.drop_first())
    }
}

/// What one structure event contributes to the memory map: the usable
/// regions of a `reg` property of a `memory` node, and nothing otherwise.
pub open spec fn populate_step(regions: Seq<MemoryRegion>, ev: DtbStructureEvent) -> Seq<
    MemoryRegion,
> {
    match ev {
        DtbStructureEvent::Property { node_name, property, cells, .. } => {
            if is_memory_node_name(node_name@) && is_reg_property_name(property.name@) {
                add_usable_regions(
                    regions,
                    reg_entries_from(
                        property.data@,
                        cells.address_cells as int,
                        cells.size_cells as int,
                        0,
                    ),
                )
            } else {
                regions
            }
        },
        DtbStructureEvent::Node { .. } => regions,
    }
}

/// The regions a structure walk contributes to the memory map, folded over
/// its events in order.
pub open spec fn populate_spec(regions: Seq<MemoryRegion>, events: Seq<DtbStructureEvent>) -> Seq<
    MemoryRegion,
>
    decreases events.len(),
{
    if events.len() == 0 {
        regions
    } else {
        populate_spec(populate_step(regions, events[0]), events.drop_first())
    }
}

/// The usable region of one (address, size) pair, aligned to 4 KiB pages.
fn page_aligned_usable_region(address: u64, size: u64) -> (r: Option<MemoryRegion>)
    ensures
        r == usable_region_of(address, size),
{
    let start = address as usize;
    let sz = size as usize;
    if start > usize::MAX - 4095 || sz > usize::MAX - start {
        return None;
    }
    let aligned_start = ((start + 4095) / 4096) * 4096;
    let adjustment = aligned_start - start;
    let adjusted = if adjustment < sz {
        sz - adjustment
    } else {
        0
    };
    let aligned_size = (adjusted / 4096) * 4096;
    if aligned_size >= 4096 {
        Some(MemoryRegion { start: aligned_start, size: aligned_size })
    } else {
        None
    }
}

/// Every region a `memory` node contributes is page-aligned, at least one
/// page large, and fits the address space.
proof fn lemma_usable_region_aligned(address: u64, size: u64)
    ensures
        usable_region_of(address, size) matches Some(r) ==> r.start % 4096 == 0 && r.size % 4096
            == 0 && r.size >= 4096 && r.start + r.size <= usize::MAX,
{
    let start = address as usize;
    let sz = size as usize;
    if !(start > usize::MAX - 4095 || sz > usize::MAX - start) {
        lemma_page_rounding(((start + 4095) as usize));
    }
}

/// Populates a memory map with the memory regions described in a devicetree
/// structure walk.
///
/// Every `reg` property of a node named `memory` or `memory@...` is decoded
/// as (address, size) pairs with the cell counts in effect for the node.
/// Each region is aligned to 4 KiB boundaries - the start address up, the
/// size down - and dropped when less than one page remains. Regions beyond
/// the map's capacity are dropped silently. A map of page-aligned regions of
/// at least one page stays that way.
pub fn populate_memory_map_from_dtb(memory_map: &mut MemoryMap, structure: &DtbStructure)
    requires
        map_regions_wf(old(memory_map)@),
    ensures
        final(memory_map)@ == populate_spec(old(memory_map)@, structure.events@),
        map_regions_wf(final(memory_map)@),
        allocator_regions_wf(old(memory_map)@) ==> allocator_regions_wf(final(memory_map)@),
{
    let ghost all = structure.events@;
    let ghost target = populate_spec(old(memory_map)@, all);
    proof {
        assert(all.skip(0) =~= all);
    }
    let mut i: usize = 0;
    while i < structure.events.len()
        invariant
            i <= all.len(),
            structure.events@ == all,
            map_regions_wf(memory_map@),
            allocator_regions_wf(old(memory_map)@) ==> allocator_regions_wf(memory_map@),
            target == populate_spec(memory_map@, all.skip(i as int)),
        decreases all.len() - i,
    {
        proof {
            assert(all.skip(i as int)[0] == all[i as int]);
            assert(all.skip(i as int).drop_first() =~= all.skip(i + 1 as int));
        }
        let event = &structure.events[i];
        match event {
            DtbStructureEvent::Property { node_name, property, cells, depth: _ } => {
                if name_is_memory_node(node_name) && name_is_reg_property(&property.name) {
                    let pairs = property.get_property_data_as_reg(cells);
                    let ghost ps = pairs@;
                    let ghost after_event = populate_step(memory_map@, all[i as int]);
                    proof {
                        assert(ps.skip(0) =~= ps);
                    }
                    let mut j: usize = 0;
                    while j < pairs.len()
                        invariant
                            j <= ps.len(),
                            pairs@ == ps,
                            map_regions_wf(memory_map@),
                            allocator_regions_wf(old(memory_map)@) ==> allocator_regions_wf(
                                memory_map@,
                            ),
                            after_event == add_usable_regions(memory_map@, ps.skip(j as int)),
                        decreases ps.len() - j,
                    {
                        proof {
                            assert(ps.skip(j as int)[0] == ps[j as int]);
                            assert(ps.skip(j as int).drop_first() =~= ps.skip(j + 1 as int));
                        }
                        let (address, size) = pairs[j];
                        proof {
                            lemma_usable_region_aligned(address, size);
                        }
                        let ghost pre = memory_map@;
                        match page_aligned_usable_region(address, size) {
                            Some(region) => {
                                if memory_map.region_count() < 128 {
                                    memory_map.add_region(region.start, region.size);
                                    proof {
                                        if allocator_regions_wf(old(memory_map)@) {
                                            assert forall|k: int|
                                                0 <= k < memory_map@.len() implies {
                                                let p = #[trigger] memory_map@[k];
                                                p.start % 4096 == 0 && p.size % 4096 == 0
                                                    && p.size >= 4096 && p.start + p.size
                                                    <= usize::MAX
                                            } by {
                                                if k < pre.len() {
                                                    assert(memory_map@[k] == pre[k]);
                                                }
                                            }
                                        }
                                    }
                                }
                            },
                            None => {},
                        }
                        j = j + 1;
                    }
                    proof {
                        assert(ps.skip(ps.len() as int) =~= Seq::<(u64, u64)>::empty());
                        assert(memory_map@ == after_event);
                    }
                }
            },
            DtbStructureEvent::Node { .. } => {},
        }
        i = i + 1;
    }
    proof {
        assert(all.skip(all.len() as int) =~= Seq::<DtbStructureEvent>::empty());
    }
}

/// The page-aligned start of a conservative carve range: the reserved start
/// rounded down to a 4 KiB boundary.
pub open spec fn carve_start_aligned(start: usize) -> usize {
    ((start / 4096) * 4096) as usize
}

/// The size of a conservative carve range: from the rounded-down start to
/// the reserved end rounded up to a 4 KiB boundary, clamped to the top of
/// the address space.
pub open spec fn carve_size_aligned(start: usize, size: usize) -> usize {
    let end = start + size;
    if end % 4096 == 0 {
        (end - carve_start_aligned(start)) as usize
    } else if end <= usize::MAX - 4095 {
        ((end / 4096) * 4096 + 4096 - carve_start_aligned(start)) as usize
    } else {
        (usize::MAX - carve_start_aligned(start)) as usize
    }
}

/// Carving with outward-aligned boundaries: the reserved start is rounded
/// down and the reserved end up to 4 KiB boundaries, so reserved memory is
/// excluded conservatively and a map of page-aligned regions stays
/// page-aligned. A zero-size range is a no-op.
pub open spec fn carve_aligned_spec(
    regions: Seq<MemoryRegion>,
    start: usize,
    size: usize,
) -> Seq<MemoryRegion> {
    if size == 0 {
        regions
    } else {
        carve_spec(regions, carve_start_aligned(start), carve_size_aligned(start, size))
    }
}

/// Carve the given raw (address, size) pairs out of the map's regions, in
/// order, each range aligned outward to page boundaries. A pair whose end
/// does not fit the machine word is ignored.
pub open spec fn carve_reserved_pairs(regions: Seq<MemoryRegion>, pairs: Seq<(u64, u64)>) -> Seq<
    MemoryRegion,
>
    decreases pairs.len(),
{
    if pairs.len() == 0 {
        regions
    } else {
        let start = pairs[0].0 as usize;
        let sz = pairs[0].1 as usize;
        let next = if sz <= usize::MAX - start {
            carve_aligned_spec(regions, start, sz)
        } else {
            regions
        };
        carve_reserved_pairs(next, pairs.drop_first())
    }
}

/// What one structure event does to the map while tracking whether the walk
/// is inside the `reserved-memory` node: the resulting regions and the new
/// flag.
pub open spec fn adjust_step(
    regions: Seq<MemoryRegion>,
    ev: DtbStructureEvent,
    inside: bool,
) -> (Seq<MemoryRegion>, bool) {
    match ev {
        DtbStructureEvent::Node { name, depth } => {
            if is_reserved_memory_node_name(name@) {
                (regions, true)
            } else if depth == 1 && inside {
                (regions, false)
            } else {
                (regions, inside)
            }
        },
        DtbStructureEvent::Property { property, cells, depth, .. } => {
            if inside && depth > 1 && is_reg_property_name(property.name@) {
                (
                    carve_reserved_pairs(
                        regions,
                        reg_entries_from(
                            property.data@,
                            cells.address_cells as int,
                            cells.size_cells as int,
                            0,
                        ),
                    ),
                    inside,
                )
            } else {
                (regions, inside)
            }
        },
    }
}

/// The map after removing every reserved range a structure walk describes,
/// folded over its events in order.
pub open spec fn adjust_spec(
    regions: Seq<MemoryRegion>,
    events: Seq<DtbStructureEvent>,
    inside: bool,
) -> Seq<MemoryRegion>
    decreases events.len(),
{
    if events.len() == 0 {
        regions
    } else {
        let step = adjust_step(regions, events[0], inside);
        adjust_spec(step.0, events.drop_first(), step.1)
    }
}

/// Adjusts a memory map by carving out the regions the devicetree marks as
/// reserved: every `reg` property of a descendant of the `reserved-memory`
/// node names a range that is removed from the map, its boundaries aligned
/// outward to page boundaries so the reservation is honoured conservatively.
/// A map of page-aligned regions of at least one page stays that way.
pub fn adjust_memory_map_from_reserved_regions_in_dtb(
    memory_map: &mut MemoryMap,
    structure: &DtbStructure,
)
    requires
        map_regions_wf(old(memory_map)@),
    ensures
        final(memory_map)@ == adjust_spec(old(memory_map)@, structure.events@, false),
        map_regions_wf(final(memory_map)@),
        allocator_regions_wf(old(memory_map)@) ==> allocator_regions_wf(final(memory_map)@),
{
    let ghost all = structure.events@;
    let ghost target = adjust_spec(old(memory_map)@, all, false);
    proof {
        assert(all.skip(0) =~= all);
    }
    let mut inside_reserved_memory = false;
    let mut i: usize = 0;
    while i < structure.events.len()
        invariant
            i <= all.len(),
            structure.events@ == all,
            map_regions_wf(memory_map@),
            allocator_regions_wf(old(memory_map)@) ==> allocator_regions_wf(memory_map@),
            target == adjust_spec(memory_map@, all.skip(i as int), inside_reserved_memory),
        decreases all.len() - i,
    {
        proof {
            assert(all.skip(i as int)[0] == all[i as int]);
            assert(all.skip(i as int).drop_first() =~= all.skip(i + 1 as int));
        }
        let event = &structure.events[i];
        match event {
            DtbStructureEvent::Node { name, depth } => {
                if name_is_reserved_memory_node(name) {
                    inside_reserved_memory = true;
                } else if *depth == 1 && inside_reserved_memory {
                    inside_reserved_memory = false;
                }
            },
            DtbStructureEvent::Property { property, cells, depth, .. } => {
                if inside_reserved_memory && *depth > 1 && name_is_reg_property(&property.name) {
                    let pairs = property.get_property_data_as_reg(cells);
                    let ghost ps = pairs@;
                    let ghost after_event = carve_reserved_pairs(memory_map@, ps);
                    proof {
                        assert(ps.skip(0) =~= ps);
                    }
                    let mut j: usize = 0;
                    while j < pairs.len()
                        invariant
                            j <= ps.len(),
                            pairs@ == ps,
                            map_regions_wf(memory_map@),
                            allocator_regions_wf(old(memory_map)@) ==> allocator_regions_wf(
                                memory_map@,
                            ),
                            after_event == carve_reserved_pairs(memory_map@, ps.skip(j as int)),
                        decreases ps.len() - j,
                    {
                        proof {
                            assert(ps.skip(j as int)[0] == ps[j as int]);
                            assert(ps.skip(j as int).drop_first() =~= ps.skip(j + 1 as int));
                        }
                        let (address, size) = pairs[j];
                        let start = address as usize;
                        let sz = size as usize;
                        if sz <= usize::MAX - start {
                            memory_map.carve_out_region_aligned(start, sz);
                        }
                        j = j + 1;
                    }
                    proof {
                        assert(ps.skip(ps.len() as int) =~= Seq::<(u64, u64)>::empty());
                        assert(memory_map@ == after_event);
                    }
                }
            },
        }
        i = i + 1;
    }
    proof {
        assert(all.skip(all.len() as int) =~= Seq::<DtbStructureEvent>::empty());
    }
}

} // verus!
