//! Boot orchestration steps that compute rather than touch hardware: turning
//! a devicetree walk into a usable memory map, creating the physical page
//! allocator over it, building the boot-time Sv39 mappings, and composing
//! the paging-mode register value.

use vstd::prelude::*;

use crate::dtb::DtbStructure;
use crate::memory::{PhysicalPageNumber, VirtualPageNumber};
use crate::memory_map::{adjust_memory_map_from_reserved_regions_in_dtb, adjust_spec,
    carve_aligned_spec, map_regions_wf, populate_memory_map_from_dtb, populate_spec, MemoryMap};
use crate::memory_map::regions_disjoint;
use crate::mmu::{allocate_level_2_vpn, allocator_frames_fresh, identity_map_range, map_range,
    page_span, pte_accessed, pte_dirty, pte_executable, pte_global, pte_leaf, pte_ppn,
    pte_readable, pte_user, pte_valid, pte_writable, translate_spec, va_page_index,
    va_page_offset, va_vpn2, walk_blocked, AddressSpace, PageTableEntryFlags};
use crate::physical_memory_allocator::{allocated_size, allocator_regions_wf, sum_region_sizes,
    PhysicalBumpAllocator};

verus! {

/// The high-half virtual base address the kernel image is mapped at.
pub const KERNEL_BASE_VIRTUAL_ADDRESS: u64 = 0xFFFF_FFC0_0000_0000;

/// Builds the usable memory map for the boot: the memory regions the
/// devicetree describes, minus the ranges its `reserved-memory` node claims,
/// minus the physical range the kernel image itself occupies, both carved
/// with outward-aligned boundaries. The resulting regions are page-aligned
/// and at least one page large, as the page allocator requires.
pub fn create_memory_map(
    structure: &DtbStructure,
    kernel_start: usize,
    kernel_size: usize,
) -> (r: MemoryMap)
    requires
        kernel_start + kernel_size <= usize::MAX,
    ensures
        r@ == carve_aligned_spec(
            adjust_spec(
                populate_spec(Seq::<crate::memory::MemoryRegion>::empty(), structure.events@),
                structure.events@,
                false,
            ),
            kernel_start,
            kernel_size,
        ),
        map_regions_wf(r@),
        allocator_regions_wf(r@),
        r@.len() <= 128,
{
    let mut memory_map = MemoryMap::new();

    populate_memory_map_from_dtb(&mut memory_map, structure);
    adjust_memory_map_from_reserved_regions_in_dtb(&mut memory_map, structure);

    // Carve out the kernel image so the allocator never hands out the frames
    // the kernel sits in.
    memory_map.carve_out_region_aligned(kernel_start, kernel_size);

    memory_map
}

/// Creates a physical page allocator over a snapshot of the memory map's
/// regions.
pub fn create_physical_memory_allocator(memory_map: &MemoryMap) -> (r: PhysicalBumpAllocator)
    requires
        memory_map@.len() <= 128,
        allocator_regions_wf(memory_map@),
    ensures
        r.wf(),
        r.regions() == memory_map@,
        r.index() == 0,
        memory_map@.len() > 0 ==> r.next() == memory_map@[0].start,
{
    let regions = memory_map.walk_regions();
    let mut allocator = PhysicalBumpAllocator::new();
    proof {
        assert(regions@.take(regions@.len() as int) =~= regions@);
    }
    allocator.reset(&regions, regions.len());
    allocator
}

/// The physical addresses of the boot image's sections, as the linker laid
/// them out. Every bound is a physical byte address; a section runs from its
/// page-aligned start to its inclusive end.
pub struct BootImageSections {
    pub text_start: u64,
    pub text_end: u64,
    pub data_start: u64,
    pub data_end: u64,
    pub rodata_start: u64,
    pub rodata_end: u64,
    pub bss_start: u64,
    pub bss_end: u64,
    pub stack_start: u64,
    pub stack_end: u64,
}

/// Whether a 27-bit page index falls in one of the boot image's sections.
pub open spec fn within_boot_sections(sections: BootImageSections, idx: u64) -> bool {
    ||| (sections.text_start >> 12) <= idx <= (sections.text_end >> 12)
    ||| (sections.data_start >> 12) <= idx <= (sections.data_end >> 12)
    ||| (sections.rodata_start >> 12) <= idx <= (sections.rodata_end >> 12)
    ||| (sections.bss_start >> 12) <= idx <= (sections.bss_end >> 12)
    ||| (sections.stack_start >> 12) <= idx <= (sections.stack_end >> 12)
}

/// The total number of pages the boot image's sections cover, sections
/// counted separately.
pub open spec fn boot_section_pages(sections: BootImageSections) -> int {
    page_span(sections.text_start >> 12, sections.text_end >> 12) + page_span(
        sections.data_start >> 12,
        sections.data_end >> 12,
    ) + page_span(sections.rodata_start >> 12, sections.rodata_end >> 12) + page_span(
        sections.bss_start >> 12,
        sections.bss_end >> 12,
    ) + page_span(sections.stack_start >> 12, sections.stack_end >> 12)
}

/// Identity-maps the boot image: the text section executable, the read-only
/// data readable, and the data, zero-initialized data and stack sections
/// readable and writable.
///
/// Afterwards every page of every section either translates to itself or
/// keeps the translation it had (an allocation failure for a single page is
/// swallowed); pages outside the sections keep their translation. When the
/// allocator's remaining frames host no table of the space, no larger leaf
/// blocks a section page, and enough memory is left, every section page is
/// guaranteed mapped.
pub fn identity_map_boot(
    address_space: &mut AddressSpace,
    sections: &BootImageSections,
    physical_memory_allocator: &mut PhysicalBumpAllocator,
)
    requires
        old(address_space).wf(),
        old(physical_memory_allocator).wf(),
        sections.text_end < 0x80_0000_0000,
        sections.data_end < 0x80_0000_0000,
        sections.rodata_end < 0x80_0000_0000,
        sections.bss_end < 0x80_0000_0000,
        sections.stack_end < 0x80_0000_0000,
    ensures
        final(address_space).wf(),
        final(physical_memory_allocator).wf(),
        final(physical_memory_allocator).regions() == old(physical_memory_allocator).regions(),
        forall|va: u64|
            within_boot_sections(*sections, va_page_index(va)) ==> (translate_spec(
                *final(address_space),
                va,
            ) == Some((va_page_index(va) << 12) | va_page_offset(va)) || translate_spec(
                *final(address_space),
                va,
            ) == translate_spec(*old(address_space), va)),
        forall|va: u64|
            !within_boot_sections(*sections, va_page_index(va)) ==> translate_spec(
                *final(address_space),
                va,
            ) == translate_spec(*old(address_space), va),
        // The call consumes at most two frames per section page.
        allocated_size(*final(physical_memory_allocator)) <= allocated_size(
            *old(physical_memory_allocator),
        ) + boot_section_pages(*sections) * 2 * 4096,
        // Fresh allocator frames stay fresh and no unblocked walk becomes
        // blocked.
        regions_disjoint(old(physical_memory_allocator).regions()) && allocator_frames_fresh(
            *old(address_space),
            *old(physical_memory_allocator),
        ) ==> allocator_frames_fresh(*final(address_space), *final(physical_memory_allocator)),
        forall|q: u64|
            !walk_blocked(*old(address_space), q) ==> !walk_blocked(*final(address_space), q),
        // Full coverage is owed when nothing can fail: every page of every
        // section is then mapped.
        (regions_disjoint(old(physical_memory_allocator).regions()) && allocator_frames_fresh(
            *old(address_space),
            *old(physical_memory_allocator),
        ) && (forall|q: u64|
            within_boot_sections(*sections, q) ==> !walk_blocked(*old(address_space), q))
            && allocated_size(*old(physical_memory_allocator)) + boot_section_pages(*sections) * 2
            * 4096 <= sum_region_sizes(old(physical_memory_allocator).regions())) ==> forall|
            va: u64,
        |
            within_boot_sections(*sections, va_page_index(va)) ==> translate_spec(
                *final(address_space),
                va,
            ) is Some,
{
    let ghost s0 = *address_space;
    let ghost a0 = *physical_memory_allocator;
    let ghost favorable = regions_disjoint(a0.regions()) && allocator_frames_fresh(s0, a0) && (
    forall|q: u64| within_boot_sections(*sections, q) ==> !walk_blocked(s0, q)) && allocated_size(
        a0,
    ) + boot_section_pages(*sections) * 2 * 4096 <= sum_region_sizes(a0.regions());

    // The text section is executable only.
    let mut text_flags = PageTableEntryFlags::default();
    text_flags.set_executable(true);
    let ghost s_before = *address_space;
    let ghost a_before = *physical_memory_allocator;
    identity_map_range(
        address_space,
        PhysicalPageNumber::from_physical_address(sections.text_start),
        PhysicalPageNumber::from_physical_address(sections.text_end),
        &text_flags,
        physical_memory_allocator,
    );
    proof {
        lemma_shift12_is_div(sections.text_start);
        lemma_shift12_is_div(sections.text_end);
        lemma_identity_step(
            s0,
            s_before,
            *address_space,
            sections.text_start >> 12,
            sections.text_end >> 12,
        );
        assert(physical_memory_allocator.regions() == a0.regions());
        assert(allocated_size(*physical_memory_allocator) <= allocated_size(a0) + (page_span(sections.text_start >> 12, sections.text_end >> 12))
            * 2 * 4096);
        assert forall|q: u64| !walk_blocked(s0, q) implies !walk_blocked(*address_space, q) by {
            assert(!walk_blocked(s_before, q));
        }
        if regions_disjoint(a0.regions()) && allocator_frames_fresh(s0, a0) {
            assert(allocator_frames_fresh(*address_space, *physical_memory_allocator));
        }
        if favorable {
            assert forall|q: u64|
                (sections.text_start >> 12) <= q <= (sections.text_end >> 12) implies !walk_blocked(s_before, q) by {
                assert(within_boot_sections(*sections, q));
                assert(!walk_blocked(s0, q));
            }
            assert(allocated_size(a_before) + page_span(
                sections.text_start >> 12,
                sections.text_end >> 12,
            ) * 2 * 4096 <= sum_region_sizes(a_before.regions()));
            assert forall|va: u64|
                (sections.text_start >> 12) <= va_page_index(va) <= (sections.text_end >> 12) implies translate_spec(*address_space, va) is Some by {
            }
            assert forall|q: u64|
                within_boot_sections(*sections, q) implies !walk_blocked(*address_space, q) by {
                assert(!walk_blocked(s0, q));
            }
        }
    }

    // The data section is readable and writable.
    let mut data_flags = PageTableEntryFlags::default();
    data_flags.set_readable(true);
    data_flags.set_writable(true);
    let ghost s_before = *address_space;
    let ghost a_before = *physical_memory_allocator;
    identity_map_range(
        address_space,
        PhysicalPageNumber::from_physical_address(sections.data_start),
        PhysicalPageNumber::from_physical_address(sections.data_end),
        &data_flags,
        physical_memory_allocator,
    );
    proof {
        lemma_shift12_is_div(sections.data_start);
        lemma_shift12_is_div(sections.data_end);
        lemma_identity_step(
            s0,
            s_before,
            *address_space,
            sections.data_start >> 12,
            sections.data_end >> 12,
        );
        assert(physical_memory_allocator.regions() == a0.regions());
        assert(allocated_size(*physical_memory_allocator) <= allocated_size(a0) + (page_span(sections.text_start >> 12, sections.text_end >> 12) + page_span(sections.data_start >> 12, sections.data_end >> 12))
            * 2 * 4096);
        assert forall|q: u64| !walk_blocked(s0, q) implies !walk_blocked(*address_space, q) by {
            assert(!walk_blocked(s_before, q));
        }
        if regions_disjoint(a0.regions()) && allocator_frames_fresh(s0, a0) {
            assert(allocator_frames_fresh(*address_space, *physical_memory_allocator));
        }
        if favorable {
            assert forall|q: u64|
                (sections.data_start >> 12) <= q <= (sections.data_end >> 12) implies !walk_blocked(s_before, q) by {
                assert(within_boot_sections(*sections, q));
                assert(!walk_blocked(s0, q));
            }
            assert(allocated_size(a_before) + page_span(
                sections.data_start >> 12,
                sections.data_end >> 12,
            ) * 2 * 4096 <= sum_region_sizes(a_before.regions()));
            assert forall|va: u64|
                (sections.text_start >> 12) <= va_page_index(va) <= (sections.text_end >> 12) || (sections.data_start >> 12) <= va_page_index(va) <= (sections.data_end >> 12) implies translate_spec(*address_space, va) is Some by {
                if !((sections.data_start >> 12) <= va_page_index(va) <= (sections.data_end >> 12)) {
                    assert(translate_spec(*address_space, va) == translate_spec(s_before, va));
                }
            }
            assert forall|q: u64|
                within_boot_sections(*sections, q) implies !walk_blocked(*address_space, q) by {
                assert(!walk_blocked(s0, q));
            }
        }
    }

    // The read-only data section is readable.
    let mut rodata_flags = PageTableEntryFlags::default();
    rodata_flags.set_readable(true);
    let ghost s_before = *address_space;
    let ghost a_before = *physical_memory_allocator;
    identity_map_range(
        address_space,
        PhysicalPageNumber::from_physical_address(sections.rodata_start),
        PhysicalPageNumber::from_physical_address(sections.rodata_end),
        &rodata_flags,
        physical_memory_allocator,
    );
    proof {
        lemma_shift12_is_div(sections.rodata_start);
        lemma_shift12_is_div(sections.rodata_end);
        lemma_identity_step(
            s0,
            s_before,
            *address_space,
            sections.rodata_start >> 12,
            sections.rodata_end >> 12,
        );
        assert(physical_memory_allocator.regions() == a0.regions());
        assert(allocated_size(*physical_memory_allocator) <= allocated_size(a0) + (page_span(sections.text_start >> 12, sections.text_end >> 12) + page_span(sections.data_start >> 12, sections.data_end >> 12) + page_span(sections.rodata_start >> 12, sections.rodata_end >> 12))
            * 2 * 4096);
        assert forall|q: u64| !walk_blocked(s0, q) implies !walk_blocked(*address_space, q) by {
            assert(!walk_blocked(s_before, q));
        }
        if regions_disjoint(a0.regions()) && allocator_frames_fresh(s0, a0) {
            assert(allocator_frames_fresh(*address_space, *physical_memory_allocator));
        }
        if favorable {
            assert forall|q: u64|
                (sections.rodata_start >> 12) <= q <= (sections.rodata_end >> 12) implies !walk_blocked(s_before, q) by {
                assert(within_boot_sections(*sections, q));
                assert(!walk_blocked(s0, q));
            }
            assert(allocated_size(a_before) + page_span(
                sections.rodata_start >> 12,
                sections.rodata_end >> 12,
            ) * 2 * 4096 <= sum_region_sizes(a_before.regions()));
            assert forall|va: u64|
                (sections.text_start >> 12) <= va_page_index(va) <= (sections.text_end >> 12) || (sections.data_start >> 12) <= va_page_index(va) <= (sections.data_end >> 12) || (sections.rodata_start >> 12) <= va_page_index(va) <= (sections.rodata_end >> 12) implies translate_spec(*address_space, va) is Some by {
                if !((sections.rodata_start >> 12) <= va_page_index(va) <= (sections.rodata_end >> 12)) {
                    assert(translate_spec(*address_space, va) == translate_spec(s_before, va));
                }
            }
            assert forall|q: u64|
                within_boot_sections(*sections, q) implies !walk_blocked(*address_space, q) by {
                assert(!walk_blocked(s0, q));
            }
        }
    }

    // The zero-initialized data section is readable and writable.
    let mut bss_flags = PageTableEntryFlags::default();
    bss_flags.set_readable(true);
    bss_flags.set_writable(true);
    let ghost s_before = *address_space;
    let ghost a_before = *physical_memory_allocator;
    identity_map_range(
        address_space,
        PhysicalPageNumber::from_physical_address(sections.bss_start),
        PhysicalPageNumber::from_physical_address(sections.bss_end),
        &bss_flags,
        physical_memory_allocator,
    );
    proof {
        lemma_shift12_is_div(sections.bss_start);
        lemma_shift12_is_div(sections.bss_end);
        lemma_identity_step(
            s0,
            s_before,
            *address_space,
            sections.bss_start >> 12,
            sections.bss_end >> 12,
        );
        assert(physical_memory_allocator.regions() == a0.regions());
        assert(allocated_size(*physical_memory_allocator) <= allocated_size(a0) + (page_span(sections.text_start >> 12, sections.text_end >> 12) + page_span(sections.data_start >> 12, sections.data_end >> 12) + page_span(sections.rodata_start >> 12, sections.rodata_end >> 12) + page_span(sections.bss_start >> 12, sections.bss_end >> 12))
            * 2 * 4096);
        assert forall|q: u64| !walk_blocked(s0, q) implies !walk_blocked(*address_space, q) by {
            assert(!walk_blocked(s_before, q));
        }
        if regions_disjoint(a0.regions()) && allocator_frames_fresh(s0, a0) {
            assert(allocator_frames_fresh(*address_space, *physical_memory_allocator));
        }
        if favorable {
            assert forall|q: u64|
                (sections.bss_start >> 12) <= q <= (sections.bss_end >> 12) implies !walk_blocked(s_before, q) by {
                assert(within_boot_sections(*sections, q));
                assert(!walk_blocked(s0, q));
            }
            assert(allocated_size(a_before) + page_span(
                sections.bss_start >> 12,
                sections.bss_end >> 12,
            ) * 2 * 4096 <= sum_region_sizes(a_before.regions()));
            assert forall|va: u64|
                (sections.text_start >> 12) <= va_page_index(va) <= (sections.text_end >> 12) || (sections.data_start >> 12) <= va_page_index(va) <= (sections.data_end >> 12) || (sections.rodata_start >> 12) <= va_page_index(va) <= (sections.rodata_end >> 12) || (sections.bss_start >> 12) <= va_page_index(va) <= (sections.bss_end >> 12) implies translate_spec(*address_space, va) is Some by {
                if !((sections.bss_start >> 12) <= va_page_index(va) <= (sections.bss_end >> 12)) {
                    assert(translate_spec(*address_space, va) == translate_spec(s_before, va));
                }
            }
            assert forall|q: u64|
                within_boot_sections(*sections, q) implies !walk_blocked(*address_space, q) by {
                assert(!walk_blocked(s0, q));
            }
        }
    }

    // The stack is readable and writable.
    let mut stack_flags = PageTableEntryFlags::default();
    stack_flags.set_readable(true);
    stack_flags.set_writable(true);
    let ghost s_before = *address_space;
    let ghost a_before = *physical_memory_allocator;
    identity_map_range(
        address_space,
        PhysicalPageNumber::from_physical_address(sections.stack_start),
        PhysicalPageNumber::from_physical_address(sections.stack_end),
        &stack_flags,
        physical_memory_allocator,
    );
    proof {
        lemma_shift12_is_div(sections.stack_start);
        lemma_shift12_is_div(sections.stack_end);
        lemma_identity_step(
            s0,
            s_before,
            *address_space,
            sections.stack_start >> 12,
            sections.stack_end >> 12,
        );
        assert(physical_memory_allocator.regions() == a0.regions());
        assert(allocated_size(*physical_memory_allocator) <= allocated_size(a0) + (page_span(sections.text_start >> 12, sections.text_end >> 12) + page_span(sections.data_start >> 12, sections.data_end >> 12) + page_span(sections.rodata_start >> 12, sections.rodata_end >> 12) + page_span(sections.bss_start >> 12, sections.bss_end >> 12) + page_span(sections.stack_start >> 12, sections.stack_end >> 12))
            * 2 * 4096);
        assert forall|q: u64| !walk_blocked(s0, q) implies !walk_blocked(*address_space, q) by {
            assert(!walk_blocked(s_before, q));
        }
        if regions_disjoint(a0.regions()) && allocator_frames_fresh(s0, a0) {
            assert(allocator_frames_fresh(*address_space, *physical_memory_allocator));
        }
        if favorable {
            assert forall|q: u64|
                (sections.stack_start >> 12) <= q <= (sections.stack_end >> 12) implies !walk_blocked(s_before, q) by {
                assert(within_boot_sections(*sections, q));
                assert(!walk_blocked(s0, q));
            }
            assert(allocated_size(a_before) + page_span(
                sections.stack_start >> 12,
                sections.stack_end >> 12,
            ) * 2 * 4096 <= sum_region_sizes(a_before.regions()));
            assert forall|va: u64|
                (sections.text_start >> 12) <= va_page_index(va) <= (sections.text_end >> 12) || (sections.data_start >> 12) <= va_page_index(va) <= (sections.data_end >> 12) || (sections.rodata_start >> 12) <= va_page_index(va) <= (sections.rodata_end >> 12) || (sections.bss_start >> 12) <= va_page_index(va) <= (sections.bss_end >> 12) || (sections.stack_start >> 12) <= va_page_index(va) <= (sections.stack_end >> 12) implies translate_spec(*address_space, va) is Some by {
                if !((sections.stack_start >> 12) <= va_page_index(va) <= (sections.stack_end >> 12)) {
                    assert(translate_spec(*address_space, va) == translate_spec(s_before, va));
                }
            }
            assert forall|q: u64|
                within_boot_sections(*sections, q) implies !walk_blocked(*address_space, q) by {
                assert(!walk_blocked(s0, q));
            }
        }
    }
}

/// Composing one identity-mapped range with what earlier ranges achieved:
/// every page mapped so far is identity-mapped or untouched since the start,
/// and every other page is untouched since the start.
proof fn lemma_identity_step(
    s0: AddressSpace,
    s_before: AddressSpace,
    s_after: AddressSpace,
    lo: u64,
    hi: u64,
)
    requires
        forall|va: u64|
            !(lo <= va_page_index(va) <= hi) ==> translate_spec(s_after, va) == translate_spec(
                s_before,
                va,
            ),
        forall|va: u64|
            lo <= va_page_index(va) <= hi ==> (translate_spec(s_after, va) == Some(
                (va_page_index(va) << 12) | va_page_offset(va),
            ) || translate_spec(s_after, va) == translate_spec(s_before, va)),
        forall|va: u64|
            translate_spec(s_before, va) == Some((va_page_index(va) << 12) | va_page_offset(va))
                || translate_spec(s_before, va) == translate_spec(s0, va),
    ensures
        forall|va: u64|
            translate_spec(s_after, va) == Some((va_page_index(va) << 12) | va_page_offset(va))
                || translate_spec(s_after, va) == translate_spec(s0, va),
{
}

/// Maps the kernel image, which occupies `kernel_size` bytes of physical
/// memory starting at `kernel_start`, to the high-half virtual base address,
/// readable, writable and executable. One page beyond the rounded-up page
/// count is mapped, following the inclusive count of `map_range`.
pub fn map_kernel_into_high_virtual_memory(
    address_space: &mut AddressSpace,
    kernel_start: u64,
    kernel_size: u64,
    physical_memory_allocator: &mut PhysicalBumpAllocator,
)
    requires
        old(address_space).wf(),
        old(physical_memory_allocator).wf(),
        kernel_size <= u64::MAX - 4095,
        ((KERNEL_BASE_VIRTUAL_ADDRESS >> 12) & 0x7FF_FFFF) + (kernel_size + 4095) / 4096
            < 0x800_0000,
    ensures
        final(address_space).wf(),
        final(physical_memory_allocator).wf(),
        final(physical_memory_allocator).regions() == old(physical_memory_allocator).regions(),
        // Every page of the kernel window either maps its physical
        // counterpart or is untouched; pages outside the window are
        // untouched.
        forall|va: u64|
            ((KERNEL_BASE_VIRTUAL_ADDRESS >> 12) & 0x7FF_FFFF) <= va_page_index(va)
                <= ((KERNEL_BASE_VIRTUAL_ADDRESS >> 12) & 0x7FF_FFFF) + (kernel_size + 4095)
                / 4096 ==> (translate_spec(*final(address_space), va) == Some(
                ((((kernel_start >> 12) + (va_page_index(va) - ((KERNEL_BASE_VIRTUAL_ADDRESS
                    >> 12) & 0x7FF_FFFF))) as u64 & 0xFFF_FFFF_FFFF) << 12) | va_page_offset(va),
            ) || translate_spec(*final(address_space), va) == translate_spec(
                *old(address_space),
                va,
            )),
        forall|va: u64|
            !(((KERNEL_BASE_VIRTUAL_ADDRESS >> 12) & 0x7FF_FFFF) <= va_page_index(va)
                <= ((KERNEL_BASE_VIRTUAL_ADDRESS >> 12) & 0x7FF_FFFF) + (kernel_size + 4095)
                / 4096) ==> translate_spec(*final(address_space), va) == translate_spec(
                *old(address_space),
                va,
            ),
        // The call consumes at most two frames per page of the window.
        allocated_size(*final(physical_memory_allocator)) <= allocated_size(
            *old(physical_memory_allocator),
        ) + ((kernel_size + 4095) / 4096 + 1) * 2 * 4096,
        // Fresh allocator frames stay fresh and no unblocked walk becomes
        // blocked.
        regions_disjoint(old(physical_memory_allocator).regions()) && allocator_frames_fresh(
            *old(address_space),
            *old(physical_memory_allocator),
        ) ==> allocator_frames_fresh(*final(address_space), *final(physical_memory_allocator)),
        forall|q: u64|
            !walk_blocked(*old(address_space), q) ==> !walk_blocked(*final(address_space), q),
        // Full coverage is owed when nothing can fail: the whole kernel
        // window is then mapped.
        (regions_disjoint(old(physical_memory_allocator).regions()) && allocator_frames_fresh(
            *old(address_space),
            *old(physical_memory_allocator),
        ) && (forall|q: u64|
            ((KERNEL_BASE_VIRTUAL_ADDRESS >> 12) & 0x7FF_FFFF) <= q <= ((
            KERNEL_BASE_VIRTUAL_ADDRESS >> 12) & 0x7FF_FFFF) + (kernel_size + 4095) / 4096
                ==> !walk_blocked(*old(address_space), q)) && allocated_size(
            *old(physical_memory_allocator),
        ) + ((kernel_size + 4095) / 4096 + 1) * 2 * 4096 <= sum_region_sizes(
            old(physical_memory_allocator).regions(),
        )) ==> forall|va: u64|
            ((KERNEL_BASE_VIRTUAL_ADDRESS >> 12) & 0x7FF_FFFF) <= va_page_index(va) <= ((
            KERNEL_BASE_VIRTUAL_ADDRESS >> 12) & 0x7FF_FFFF) + (kernel_size + 4095) / 4096
                ==> translate_spec(*final(address_space), va) is Some,
{
    // Round the kernel size up to whole pages.
    let number_of_pages = (kernel_size + 4095) / 4096;

    let start_ppn = PhysicalPageNumber::from_physical_address(kernel_start);
    let start_vpn = VirtualPageNumber::from_virtual_address(KERNEL_BASE_VIRTUAL_ADDRESS);

    // The kernel needs to be readable, writable and executable.
    let mut kernel_flags = PageTableEntryFlags::default();
    kernel_flags.set_readable(true);
    kernel_flags.set_writable(true);
    kernel_flags.set_executable(true);

    proof {
        lemma_shift12_is_div(kernel_start);
        lemma_shift12_is_div(KERNEL_BASE_VIRTUAL_ADDRESS);
        assert(kernel_start >> 12 < 0x10_0000_0000_0000) by (bit_vector);
        assert(KERNEL_BASE_VIRTUAL_ADDRESS >> 12 == 0xFFFF_FFC0_0000_0u64) by (bit_vector);
    }

    map_range(
        address_space,
        start_ppn,
        start_vpn,
        number_of_pages,
        &kernel_flags,
        physical_memory_allocator,
    );
}

/// Maps the first 128 GiB of physical memory to the top 128 GiB of virtual
/// memory, one 1 GiB gigapage per root slot starting at slot 384: physical
/// gigabyte `i` appears at virtual gigabyte `384 + i`. The pages are
/// readable, writable and global, but not executable.
pub fn map_physical_memory(address_space: &mut AddressSpace)
    requires
        old(address_space).wf(),
        forall|j: int| 384 <= j < 512 ==> !pte_valid(#[trigger] old(address_space).root_spec()[j]),
    ensures
        final(address_space).wf(),
        // Every virtual address under the top 128 root slots translates into
        // the corresponding physical gigabyte.
        forall|va: u64|
            va_vpn2(va) >= 384 ==> translate_spec(*final(address_space), va) == Some(
                (((va_vpn2(va) - 384) as u64) << 30) | (va & 0x3FFF_FFFF),
            ),
        // Translations below the window are untouched.
        forall|va: u64|
            va_vpn2(va) < 384 ==> translate_spec(*final(address_space), va) == translate_spec(
                *old(address_space),
                va,
            ),
        // Each installed gigapage entry is a readable, writable, global
        // leaf, not executable and not user-accessible, with the accessed
        // and dirty bits cleared, naming physical gigabyte `slot - 384`.
        forall|j: int|
            384 <= j < 512 ==> {
                &&& pte_leaf(#[trigger] final(address_space).root_spec()[j])
                &&& pte_readable(final(address_space).root_spec()[j])
                &&& pte_writable(final(address_space).root_spec()[j])
                &&& pte_global(final(address_space).root_spec()[j])
                &&& !pte_executable(final(address_space).root_spec()[j])
                &&& !pte_user(final(address_space).root_spec()[j])
                &&& !pte_accessed(final(address_space).root_spec()[j])
                &&& !pte_dirty(final(address_space).root_spec()[j])
                &&& pte_ppn(final(address_space).root_spec()[j]) == ((j - 384) as u64) << 18
            },
{
    let ghost s0 = *address_space;

    // These pages are readable, writable and global: they are part of every
    // address space and must never be executed.
    let mut direct_mapping_flags = PageTableEntryFlags::default();
    direct_mapping_flags.set_readable(true);
    direct_mapping_flags.set_writable(true);
    direct_mapping_flags.set_global(true);

    let mut gib_index: u64 = 0;
    while gib_index < 128
        invariant
            address_space.wf(),
            0 <= gib_index <= 128,
            direct_mapping_flags.readable && direct_mapping_flags.writable
                && direct_mapping_flags.global && !direct_mapping_flags.executable
                && !direct_mapping_flags.user,
            forall|j: int|
                384 + gib_index <= j < 512 ==> !pte_valid(
                    #[trigger] address_space.root_spec()[j],
                ),
            forall|j: int|
                384 <= j < 384 + gib_index ==> {
                    &&& pte_leaf(#[trigger] address_space.root_spec()[j])
                    &&& pte_readable(address_space.root_spec()[j])
                    &&& pte_writable(address_space.root_spec()[j])
                    &&& pte_global(address_space.root_spec()[j])
                    &&& !pte_executable(address_space.root_spec()[j])
                    &&& !pte_user(address_space.root_spec()[j])
                    &&& !pte_accessed(address_space.root_spec()[j])
                    &&& !pte_dirty(address_space.root_spec()[j])
                    &&& pte_ppn(address_space.root_spec()[j]) == ((j - 384) as u64) << 18
                },
            forall|va: u64|
                384 <= va_vpn2(va) < 384 + gib_index ==> translate_spec(*address_space, va)
                    == Some((((va_vpn2(va) - 384) as u64) << 30) | (va & 0x3FFF_FFFF)),
            forall|va: u64|
                !(384 <= va_vpn2(va) < 384 + gib_index) ==> translate_spec(*address_space, va)
                    == translate_spec(s0, va),
        decreases 128 - gib_index,
    {
        let ghost s_prev = *address_space;
        let vpn2_index = 512 - 128 + gib_index;
        let virtual_page_number = VirtualPageNumber::from_raw_virtual_page_number(
            vpn2_index << 18,
        );
        // Physical gigabyte `gib_index` starts at page number
        // `gib_index << 18`.
        let physical_page_number = PhysicalPageNumber::from_raw_physical_page_number(
            gib_index << 18,
        );

        proof {
            lemma_vpn2_of_slot(vpn2_index);
        }
        let mapped = allocate_level_2_vpn(
            address_space,
            virtual_page_number,
            physical_page_number,
            &direct_mapping_flags,
        );

        proof {
            assert(mapped);
            assert((gib_index << 18) & 0xFFF_FFFF_FFFF == gib_index << 18) by (bit_vector)
                requires
                    gib_index < 128,
            ;
            assert forall|va: u64|
                384 <= va_vpn2(va) < 384 + (gib_index + 1) implies translate_spec(
                *address_space,
                va,
            ) == Some((((va_vpn2(va) - 384) as u64) << 30) | (va & 0x3FFF_FFFF)) by {
                if va_vpn2(va) == vpn2_index {
                    assert(((gib_index << 18) & 0xFFF_FFFF_FFFF) >> 18 == gib_index)
                        by (bit_vector)
                        requires
                            gib_index < 128,
                    ;
                } else {
                    assert(translate_spec(*address_space, va) == translate_spec(s_prev, va));
                }
            }
            assert forall|va: u64|
                !(384 <= va_vpn2(va) < 384 + (gib_index + 1)) implies translate_spec(
                *address_space,
                va,
            ) == translate_spec(s0, va) by {
                assert(translate_spec(*address_space, va) == translate_spec(s_prev, va));
            }
        }
        gib_index = gib_index + 1;
    }
    proof {
        lemma_vpn2_of_slot(384);
    }
}

/// Shifting an address right by 12 bits divides it by the page size.
proof fn lemma_shift12_is_div(x: u64)
    by (bit_vector)
    ensures
        x >> 12 == x / 4096,
{
}

/// The level 2 index of the virtual page number that names a whole root
/// slot.
proof fn lemma_vpn2_of_slot(slot: u64)
    by (bit_vector)
    requires
        slot < 512,
    ensures
        crate::memory::level_2_index(slot << 18) == slot,
        forall|va: u64| va_vpn2(va) < 512,
{
}

/// Composes the paging-mode control value for Sv39: mode 8 in the top four
/// bits, address-space identifier zero, and the physical page number of the
/// root page table in the low 44 bits. The frame number must fit its 44-bit
/// field, or it would spill into the identifier and mode fields.
pub fn compose_satp_value(root_table_ppn: PhysicalPageNumber) -> (r: u64)
    requires
        root_table_ppn.0 < 0x1000_0000_0000,
    ensures
        r == (8u64 << 60) | root_table_ppn.0,
{
    (8u64 << 60) | root_table_ppn.0
}

} // verus!
