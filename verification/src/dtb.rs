//! Flattened devicetree (DTB) reader.
//!
//! Parses a devicetree blob held in a byte buffer: the 40-byte big-endian
//! header, the memory-reservation block, and the structure block with its
//! nodes and properties. All reads are bounds-checked against the buffer, so
//! a malformed blob ends the walk cleanly instead of reading out of range.
//! Traversal results are returned as a sequence of events, which callers
//! fold over instead of supplying visitor callbacks.

use vstd::prelude::*;

verus! {

/// FDT token indicating the beginning of a node.
pub const FDT_BEGIN_NODE: u32 = 1;

/// FDT token indicating the end of a node.
pub const FDT_END_NODE: u32 = 2;

/// FDT token indicating a property definition.
pub const FDT_PROP: u32 = 3;

/// FDT token used for padding.
pub const FDT_NOP: u32 = 4;

/// FDT token indicating the end of the structure block.
pub const FDT_END: u32 = 9;

/// The 32-bit big-endian integer held at a byte offset of the buffer.
pub open spec fn be32_at(b: Seq<u8>, i: int) -> u32 {
    (b[i] * 0x100_0000 + b[i + 1] * 0x1_0000 + b[i + 2] * 0x100 + b[i + 3]) as u32
}

/// The 64-bit big-endian integer held at a byte offset of the buffer.
pub open spec fn be64_at(b: Seq<u8>, i: int) -> u64 {
    (be32_at(b, i) * 0x1_0000_0000 + be32_at(b, i + 4)) as u64
}

/// Read a big-endian 32-bit integer, or `None` when the four bytes are not
/// inside the buffer.
fn read_u32_be(dtb: &Vec<u8>, offset: usize) -> (r: Option<u32>)
    ensures
        offset + 4 <= dtb@.len() ==> r == Some(be32_at(dtb@, offset as int)),
        offset + 4 > dtb@.len() ==> r is None,
{
    if offset >= dtb.len() || dtb.len() - offset < 4 {
        return None;
    }
    Some(
        (dtb[offset] as u32) * 0x100_0000 + (dtb[offset + 1] as u32) * 0x1_0000 + (dtb[offset
            + 2] as u32) * 0x100 + (dtb[offset + 3] as u32),
    )
}

/// Read a big-endian 64-bit integer, or `None` when the eight bytes are not
/// inside the buffer.
fn read_u64_be(dtb: &Vec<u8>, offset: usize) -> (r: Option<u64>)
    ensures
        offset + 8 <= dtb@.len() ==> r == Some(be64_at(dtb@, offset as int)),
        offset + 8 > dtb@.len() ==> r is None,
{
    if offset >= dtb.len() || dtb.len() - offset < 8 {
        return None;
    }
    let high = match read_u32_be(dtb, offset) {
        Some(v) => v,
        None => {
            return None;
        },
    };
    let low = match read_u32_be(dtb, offset + 4) {
        Some(v) => v,
        None => {
            return None;
        },
    };
    Some((high as u64) * 0x1_0000_0000 + (low as u64))
}

/// Header of a devicetree blob: ten 32-bit big-endian fields, stored here in
/// native byte order after parsing.
#[derive(Debug, Clone, Copy)]
pub struct DtbHeader {
    /// Must hold the value 0xd00dfeed.
    pub magic: u32,
    /// Total size in bytes of the devicetree data structure.
    pub total_size: u32,
    /// Byte offset of the structure block from the beginning of the header.
    pub structure_block_offset: u32,
    /// Byte offset of the strings block from the beginning of the header.
    pub strings_block_offset: u32,
    /// Byte offset of the memory reservation block from the beginning of the
    /// header.
    pub memory_reservation_block_offset: u32,
    /// Version of the devicetree data structure; 17 for this layout.
    pub version: u32,
    /// Lowest version this blob is backwards compatible with.
    pub last_compatible_version: u32,
    /// Physical ID of the system's boot CPU.
    pub boot_physical_cpuid: u32,
    /// Length in bytes of the strings block.
    pub strings_block_size: u32,
    /// Length in bytes of the structure block.
    pub structure_block_size: u32,
}

impl DtbHeader {
    /// Parse the header at the start of the buffer. Returns `None` when the
    /// buffer is shorter than a header or the magic number is wrong.
    pub fn from_bytes(dtb: &Vec<u8>) -> (r: Option<DtbHeader>)
        ensures
            r is Some <==> dtb@.len() >= 40 && be32_at(dtb@, 0) == 0xd00dfeed,
            r matches Some(h) ==> {
                &&& h.magic == be32_at(dtb@, 0)
                &&& h.total_size == be32_at(dtb@, 4)
                &&& h.structure_block_offset == be32_at(dtb@, 8)
                &&& h.strings_block_offset == be32_at(dtb@, 12)
                &&& h.memory_reservation_block_offset == be32_at(dtb@, 16)
                &&& h.version == be32_at(dtb@, 20)
                &&& h.last_compatible_version == be32_at(dtb@, 24)
                &&& h.boot_physical_cpuid == be32_at(dtb@, 28)
                &&& h.strings_block_size == be32_at(dtb@, 32)
                &&& h.structure_block_size == be32_at(dtb@, 36)
            },
    {
        if dtb.len() < 40 {
            return None;
        }
        let magic = match read_u32_be(dtb, 0) {
            Some(v) => v,
            None => {
                return None;
            },
        };
        if magic != 0xd00dfeed {
            return None;
        }
        let total_size = read_u32_be(dtb, 4).unwrap();
        let structure_block_offset = read_u32_be(dtb, 8).unwrap();
        let strings_block_offset = read_u32_be(dtb, 12).unwrap();
        let memory_reservation_block_offset = read_u32_be(dtb, 16).unwrap();
        let version = read_u32_be(dtb, 20).unwrap();
        let last_compatible_version = read_u32_be(dtb, 24).unwrap();
        let boot_physical_cpuid = read_u32_be(dtb, 28).unwrap();
        let strings_block_size = read_u32_be(dtb, 32).unwrap();
        let structure_block_size = read_u32_be(dtb, 36).unwrap();
        Some(
            DtbHeader {
                magic,
                total_size,
                structure_block_offset,
                strings_block_offset,
                memory_reservation_block_offset,
                version,
                last_compatible_version,
                boot_physical_cpuid,
                strings_block_size,
                structure_block_size,
            },
        )
    }

    /// The byte offset of the memory reservation block within the blob.
    pub fn memory_reservation_block_address(&self) -> (r: usize)
        ensures
            r == self.memory_reservation_block_offset as usize,
    {
        self.memory_reservation_block_offset as usize
    }

    /// The byte offset of the structure block within the blob.
    pub fn structure_block_address(&self) -> (r: usize)
        ensures
            r == self.structure_block_offset as usize,
    {
        self.structure_block_offset as usize
    }

    /// The byte offset of the strings block within the blob.
    pub fn strings_block_address(&self) -> (r: usize)
        ensures
            r == self.strings_block_offset as usize,
    {
        self.strings_block_offset as usize
    }
}

/// An entry of the memory reservation block: a physical address and a byte
/// count, both 64-bit big-endian on disk.
#[derive(Debug, Clone, Copy, PartialEq, Eq, Structural)]
pub struct DtbMemoryReservationEntry {
    /// The address of the reserved memory region.
    pub address: u64,
    /// The size of the reserved memory region.
    pub size: u64,
}

/// The reservation entries listed from a byte offset on: consecutive
/// 16-byte records up to, and not including, the all-zero terminator. A
/// truncated block ends the list.
pub open spec fn reservation_entries_spec(b: Seq<u8>, off: int) -> Seq<DtbMemoryReservationEntry>
    decreases b.len() - off
        when off >= 0
{
    if off < 0 || off + 16 > b.len() {
        Seq::empty()
    } else {
        let address = be64_at(b, off);
        let size = be64_at(b, off + 8);
        if address == 0 && size == 0 {
            Seq::empty()
        } else {
            seq![DtbMemoryReservationEntry { address, size }] + reservation_entries_spec(
                b,
                off + 16,
            )
        }
    }
}

/// Walks the memory reservation block of the blob and returns its entries in
/// order, stopping at the terminating all-zero entry. Exactly the entries
/// before the terminator are returned.
pub fn walk_memory_reservation_entries(dtb_header: &DtbHeader, dtb: &Vec<u8>) -> (r: Vec<
    DtbMemoryReservationEntry,
>)
    ensures
        r@ == reservation_entries_spec(dtb@, dtb_header.memory_reservation_block_offset as int),
{
    let ghost full = reservation_entries_spec(
        dtb@,
        dtb_header.memory_reservation_block_offset as int,
    );
    let mut entries: Vec<DtbMemoryReservationEntry> = Vec::new();
    let mut offset = dtb_header.memory_reservation_block_address();
    proof {
        assert(entries@ + reservation_entries_spec(dtb@, offset as int) =~= full);
    }
    loop
        invariant
            offset <= usize::MAX,
            full == entries@ + reservation_entries_spec(dtb@, offset as int),
        ensures
            entries@ == full,
        decreases dtb@.len() - offset,
    {
        let ghost entries0 = entries@;
        if offset >= dtb.len() || dtb.len() - offset < 16 {
            proof {
                assert(reservation_entries_spec(dtb@, offset as int) =~= Seq::<
                    DtbMemoryReservationEntry,
                >::empty());
                assert(entries@ =~= full);
            }
            break ;
        }
        let address = read_u64_be(dtb, offset).unwrap();
        let size = read_u64_be(dtb, offset + 8).unwrap();
        if address == 0 && size == 0 {
            proof {
                assert(reservation_entries_spec(dtb@, offset as int) =~= Seq::<
                    DtbMemoryReservationEntry,
                >::empty());
                assert(entries@ =~= full);
            }
            break ;
        }
        entries.push(DtbMemoryReservationEntry { address, size });
        proof {
            let entry = DtbMemoryReservationEntry { address, size };
            assert(reservation_entries_spec(dtb@, offset as int) == seq![entry]
                + reservation_entries_spec(dtb@, offset + 16 as int));
            assert(entries0 + (seq![entry] + reservation_entries_spec(dtb@, offset + 16 as int))
                =~= (entries0 + seq![entry]) + reservation_entries_spec(dtb@, offset + 16 as int));
            assert(entries@ =~= entries0 + seq![entry]);
        }
        offset = offset + 16;
    }
    entries
}

/// Represents the address and size cell counts in effect for a node: how
/// many 32-bit cells make up each address and each size in its `reg`
/// properties.
#[derive(Debug, Clone, Copy, PartialEq, Eq, Structural)]
pub struct CellInfo {
    /// Number of 32-bit cells used to represent addresses.
    pub address_cells: u32,
    /// Number of 32-bit cells used to represent sizes.
    pub size_cells: u32,
}

impl Default for CellInfo {
    /// The defaults the devicetree specification prescribes: two address
    /// cells and one size cell.
    fn default() -> (r: Self)
        ensures
            r.address_cells == 2 && r.size_cells == 1,
    {
        CellInfo { address_cells: 2, size_cells: 1 }
    }
}

/// Property information from the structure block: the property's name from
/// the strings block and a copy of its raw data.
#[derive(Debug, Clone)]
pub struct DtbProperty {
    /// Name of the property.
    pub name: Vec<u8>,
    /// The property's data bytes.
    pub data: Vec<u8>,
}

/// The value composed of `n` consecutive 32-bit big-endian cells starting at
/// a byte offset, most significant cell first, truncated to 64 bits.
pub open spec fn cells_value(data: Seq<u8>, off: int, n: int) -> u64
    decreases n,
{
    if n <= 0 {
        0u64
    } else {
        (cells_value(data, off, n - 1) << 32) | (be32_at(data, off + 4 * (n - 1)) as u64)
    }
}

/// The (address, size) pairs encoded in `reg` property data from a byte
/// offset on: each pair uses `ac` address cells and `sc` size cells.
/// Iteration stops when less than one entry's width remains. Degenerate cell
/// counts whose entry width is zero yield no pairs.
pub open spec fn reg_entries_from(data: Seq<u8>, ac: int, sc: int, off: int) -> Seq<(u64, u64)>
    decreases data.len() - off
        when off >= 0
{
    if ac + sc <= 0 || off < 0 || off + 4 * (ac + sc) > data.len() {
        Seq::empty()
    } else {
        seq![(cells_value(data, off, ac), cells_value(data, off + 4 * ac, sc))]
            + reg_entries_from(data, ac, sc, off + 4 * (ac + sc))
    }
}

impl DtbProperty {
    /// Interpret the first four data bytes as a big-endian 32-bit integer.
    pub fn get_property_data_as_u32(&self) -> (r: u32)
        requires
            self.data@.len() >= 4,
        ensures
            r == be32_at(self.data@, 0),
    {
        (self.data[0] as u32) * 0x100_0000 + (self.data[1] as u32) * 0x1_0000 + (self.data[2]
            as u32) * 0x100 + (self.data[3] as u32)
    }

    /// Interpret the data as a sequence of (address, size) pairs, each
    /// address made of `address_cells` and each size of `size_cells` 32-bit
    /// big-endian cells, most significant cell first.
    pub fn get_property_data_as_reg(&self, cells_info: &CellInfo) -> (r: Vec<(u64, u64)>)
        ensures
            r@ == reg_entries_from(
                self.data@,
                cells_info.address_cells as int,
                cells_info.size_cells as int,
                0,
            ),
    {
        let ac64: u64 = cells_info.address_cells as u64;
        let sc64: u64 = cells_info.size_cells as u64;
        let ghost ac = cells_info.address_cells as int;
        let ghost sc = cells_info.size_cells as int;
        let ghost full = reg_entries_from(self.data@, ac, sc, 0);
        let mut out: Vec<(u64, u64)> = Vec::new();

        if ac64 + sc64 == 0 {
            proof {
                assert(full =~= Seq::<(u64, u64)>::empty());
            }
            return out;
        }

        let entry_bytes64: u64 = (ac64 + sc64) * 4;
        let mut offset: usize = 0;
        proof {
            assert(out@ + reg_entries_from(self.data@, ac, sc, 0) =~= full);
        }
        while offset < self.data.len() && ((self.data.len() - offset) as u64) >= entry_bytes64
            invariant
                ac == cells_info.address_cells as int,
                sc == cells_info.size_cells as int,
                ac64 == cells_info.address_cells as u64,
                sc64 == cells_info.size_cells as u64,
                ac + sc >= 1,
                entry_bytes64 == (ac + sc) * 4,
                offset <= self.data@.len(),
                full == out@ + reg_entries_from(self.data@, ac, sc, offset as int),
            decreases self.data@.len() - offset,
        {
            let ghost out0 = out@;
            let entry_bytes = entry_bytes64 as usize;
            let address_cells = ac64 as usize;
            let size_cells = sc64 as usize;
            let address_bytes = address_cells * 4;

            let mut address: u64 = 0;
            let mut i: usize = 0;
            while i < address_cells
                invariant
                    i <= address_cells,
                    address_cells == ac,
                    ac >= 0,
                    sc >= 0,
                    offset + 4 * (ac + sc) <= self.data@.len(),
                    self.data@.len() <= usize::MAX,
                    address == cells_value(self.data@, offset as int, i as int),
                decreases address_cells - i,
            {
                let cell_offset = offset + i * 4;
                let cell = (self.data[cell_offset] as u32) * 0x100_0000 + (self.data[cell_offset
                    + 1] as u32) * 0x1_0000 + (self.data[cell_offset + 2] as u32) * 0x100 + (
                self.data[cell_offset + 3] as u32);
                address = (address << 32) | (cell as u64);
                i = i + 1;
            }

            let mut size: u64 = 0;
            let mut j: usize = 0;
            while j < size_cells
                invariant
                    j <= size_cells,
                    size_cells == sc,
                    ac >= 0,
                    sc >= 0,
                    address_bytes == ac * 4,
                    offset + 4 * (ac + sc) <= self.data@.len(),
                    self.data@.len() <= usize::MAX,
                    size == cells_value(self.data@, offset + address_bytes as int, j as int),
                decreases size_cells - j,
            {
                let cell_offset = offset + address_bytes + j * 4;
                let cell = (self.data[cell_offset] as u32) * 0x100_0000 + (self.data[cell_offset
                    + 1] as u32) * 0x1_0000 + (self.data[cell_offset + 2] as u32) * 0x100 + (
                self.data[cell_offset + 3] as u32);
                size = (size << 32) | (cell as u64);
                j = j + 1;
            }

            out.push((address, size));
            proof {
                let pair = (address, size);
                assert(reg_entries_from(self.data@, ac, sc, offset as int) == seq![pair]
                    + reg_entries_from(self.data@, ac, sc, offset + entry_bytes as int));
                assert(out0 + (seq![pair] + reg_entries_from(
                    self.data@,
                    ac,
                    sc,
                    offset + entry_bytes as int,
                )) =~= (out0 + seq![pair]) + reg_entries_from(
                    self.data@,
                    ac,
                    sc,
                    offset + entry_bytes as int,
                ));
                assert(out@ =~= out0 + seq![pair]);
            }
            offset = offset + entry_bytes;
        }
        proof {
            assert(reg_entries_from(self.data@, ac, sc, offset as int) =~= Seq::<
                (u64, u64),
            >::empty());
            assert(out@ =~= full);
        }
        out
    }
}

/// One observation made while traversing the structure block: entry into a
/// node, or a property together with the cell counts in effect for its node.
pub enum DtbStructureEvent {
    /// A node was entered.
    Node { name: Vec<u8>, depth: usize },
    /// A property of the most recently entered node, reported with the
    /// `#address-cells` / `#size-cells` values in effect inside that node:
    /// the node's own declarations have already been applied, wherever they
    /// stand among its properties.
    Property { node_name: Vec<u8>, property: DtbProperty, cells: CellInfo, depth: usize },
}

/// The outcome of a structure-block traversal.
pub struct DtbStructure {
    /// Node and property events, in traversal order.
    pub events: Vec<DtbStructureEvent>,
    /// Whether the walk reached the block-terminating token with every node
    /// closed; a malformed blob makes this false.
    pub complete: bool,
    /// How many nodes were entered.
    pub nodes_begun: usize,
    /// How many node-ending tokens were consumed.
    pub nodes_ended: usize,
}

/// The number of node events in a sequence of structure events.
pub open spec fn count_node_events(events: Seq<DtbStructureEvent>) -> int
    decreases events.len(),
{
    if events.len() == 0 {
        0
    } else {
        (if events[0] is Node {
            1int
        } else {
            0int
        }) + count_node_events(events.drop_first())
    }
}

proof fn lemma_count_node_events_push(events: Seq<DtbStructureEvent>, ev: DtbStructureEvent)
    ensures
        count_node_events(events.push(ev)) == count_node_events(events) + (if ev is Node {
            1int
        } else {
            0int
        }),
    decreases events.len(),
{
    assert(events.push(ev)[0] == if events.len() == 0 {
        ev
    } else {
        events[0]
    });
    assert(events.push(ev).len() == events.len() + 1);
    if events.len() == 0 {
        assert(events.push(ev).drop_first() =~= Seq::<DtbStructureEvent>::empty());
        assert(count_node_events(Seq::<DtbStructureEvent>::empty()) == 0);
        assert(count_node_events(events.push(ev)) == (if ev is Node {
            1int
        } else {
            0int
        }) + count_node_events(Seq::<DtbStructureEvent>::empty()));
    } else {
        lemma_count_node_events_push(events.drop_first(), ev);
        assert(events.push(ev).drop_first() =~= events.drop_first().push(ev));
        assert(count_node_events(events.push(ev)) == (if events[0] is Node {
            1int
        } else {
            0int
        }) + count_node_events(events.drop_first().push(ev)));
    }
}

/// The depth a structure event was reported at.
pub open spec fn event_depth(ev: DtbStructureEvent) -> int {
    match ev {
        DtbStructureEvent::Node { depth, .. } => depth as int,
        DtbStructureEvent::Property { depth, .. } => depth as int,
    }
}

/// Extending a depth-disciplined event sequence with a block whose events
/// all lie at or below one level deeper, stepping down one level at a time,
/// keeps the discipline.
proof fn lemma_depth_discipline_extended(
    base: int,
    before: Seq<DtbStructureEvent>,
    after: Seq<DtbStructureEvent>,
    depth: usize,
)
    requires
        0 <= base <= before.len() <= after.len(),
        forall|k: int| 0 <= k < before.len() ==> after[k] == before[k],
        forall|k: int| base <= k < before.len() ==> event_depth(#[trigger] before[k]) >= depth,
        forall|k: int|
            base <= k < before.len() - 1 ==> event_depth(before[k + 1]) <= event_depth(
                #[trigger] before[k],
            ) + 1,
        forall|k: int|
            before.len() <= k < after.len() ==> event_depth(#[trigger] after[k]) >= depth,
        forall|k: int|
            before.len() <= k < after.len() - 1 ==> event_depth(after[k + 1]) <= event_depth(
                #[trigger] after[k],
            ) + 1,
        after.len() > before.len() ==> event_depth(after[before.len() as int]) <= depth + 1,
    ensures
        forall|k: int| base <= k < after.len() ==> event_depth(#[trigger] after[k]) >= depth,
        forall|k: int|
            base <= k < after.len() - 1 ==> event_depth(after[k + 1]) <= event_depth(
                #[trigger] after[k],
            ) + 1,
{
    assert forall|k: int|
        base <= k < after.len() - 1 implies event_depth(after[k + 1]) <= event_depth(
        #[trigger] after[k],
    ) + 1 by {
        if k + 1 < before.len() {
            assert(after[k] == before[k] && after[k + 1] == before[k + 1]);
        } else if k < before.len() {
            assert(after[k] == before[k]);
            assert(event_depth(before[k]) >= depth);
        }
    }
}

/// Read the null-terminated byte string starting at an offset, or `None`
/// when no terminator appears before the bound.
fn read_null_terminated_string(dtb: &Vec<u8>, start: usize, end: usize) -> (r: Option<Vec<u8>>)
    requires
        end <= dtb@.len(),
    ensures
        r matches Some(name) ==> start + name@.len() < end && start <= end,
{
    if start >= end {
        return None;
    }
    let mut name: Vec<u8> = Vec::new();
    let mut i = start;
    while i < end
        invariant
            start <= i <= end,
            end <= dtb@.len(),
            name@.len() == i - start,
        decreases end - i,
    {
        let byte = dtb[i];
        if byte == 0 {
            return Some(name);
        }
        name.push(byte);
        i = i + 1;
    }
    None
}

/// Copy a range of bytes out of the buffer.
fn copy_byte_range(src: &Vec<u8>, start: usize, count: usize) -> (r: Vec<u8>)
    requires
        start + count <= src@.len(),
    ensures
        r@ == src@.subrange(start as int, start + count),
{
    let mut out: Vec<u8> = Vec::new();
    let src_len = src.len();
    let mut i: usize = 0;
    while i < count
        invariant
            i <= count,
            start + count <= src@.len(),
            src@.len() == src_len,
            out@ == src@.subrange(start as int, start + i),
        decreases count - i,
    {
        out.push(src[start + i]);
        proof {
            assert(src@.subrange(start as int, start + (i + 1)) =~= src@.subrange(
                start as int,
                start + i,
            ).push(src@[start + i]));
        }
        i = i + 1;
    }
    out
}

/// Whether a property name is `#address-cells`.
fn name_is_address_cells(name: &Vec<u8>) -> (r: bool)
{
    name.len() == 14 && name[0] == 35 && name[1] == 97 && name[2] == 100 && name[3] == 100
        && name[4] == 114 && name[5] == 101 && name[6] == 115 && name[7] == 115 && name[8] == 45
        && name[9] == 99 && name[10] == 101 && name[11] == 108 && name[12] == 108 && name[13]
        == 115
}

/// Whether a property name is `#size-cells`.
fn name_is_size_cells(name: &Vec<u8>) -> (r: bool)
{
    name.len() == 11 && name[0] == 35 && name[1] == 115 && name[2] == 105 && name[3] == 122
        && name[4] == 101 && name[5] == 45 && name[6] == 99 && name[7] == 101 && name[8] == 108
        && name[9] == 108 && name[10] == 115
}

/// Parse the property at `cursor` (which must hold a property token): its
/// name from the strings block, and the bounds of its data. Returns the
/// name, the data offset and length, and the cursor after the property,
/// or `None` when the blob is malformed there.
fn parse_property(dtb: &Vec<u8>, strings_offset: usize, end: usize, cursor: usize) -> (r: Option<
    (Vec<u8>, usize, usize, usize),
>)
    requires
        end <= dtb@.len(),
        cursor <= end,
    ensures
        r matches Some(p) ==> cursor + 12 <= p.3 <= end && p.1 + p.2 <= dtb@.len(),
{
    if end - cursor < 12 {
        return None;
    }
    let data_length = match read_u32_be(dtb, cursor + 4) {
        Some(v) => v,
        None => {
            return None;
        },
    };
    let name_offset = match read_u32_be(dtb, cursor + 8) {
        Some(v) => v,
        None => {
            return None;
        },
    };
    if name_offset as u64 > (usize::MAX as u64) - (strings_offset as u64) {
        return None;
    }
    let name_start = strings_offset + (name_offset as usize);
    let name = match read_null_terminated_string(dtb, name_start, dtb.len()) {
        Some(n) => n,
        None => {
            return None;
        },
    };
    let data_offset = cursor + 12;
    // The property data must lie inside the structure block.
    if (data_length as u64) > ((end - data_offset) as u64) {
        return None;
    }
    let data_len = data_length as usize;
    // Advance past the data, rounded up to the next 4-byte boundary but
    // never past the block end.
    let unaligned = data_offset + data_len;
    let rem = unaligned % 4;
    let aligned = if rem == 0 {
        unaligned
    } else if end - unaligned < 4 - rem {
        end
    } else {
        unaligned + (4 - rem)
    };
    Some((name, data_offset, data_len, aligned))
}

/// Scan one run of consecutive properties for `#address-cells` and
/// `#size-cells` declarations, returning the cell counts that result from
/// applying them to the given ones. The scan stops at the first token that
/// is not a property, or at the first malformed property.
fn scan_property_run(
    dtb: &Vec<u8>,
    strings_offset: usize,
    end: usize,
    cursor: usize,
    cells: CellInfo,
) -> (r: CellInfo)
    requires
        end <= dtb@.len(),
        cursor <= end,
{
    let mut current = cells;
    let mut c = cursor;
    while c < end && end - c >= 4
        invariant
            c <= end,
            end <= dtb@.len(),
        decreases end - c,
    {
        let token = match read_u32_be(dtb, c) {
            Some(t) => t,
            None => {
                return current;
            },
        };
        if token == FDT_NOP {
            // Padding between properties does not end the run.
            c = c + 4;
        } else if token != FDT_PROP {
            return current;
        } else {
            let (name, data_offset, data_len, next) = match parse_property(
                dtb,
                strings_offset,
                end,
                c,
            ) {
                Some(p) => p,
                None => {
                    return current;
                },
            };
            if data_len >= 4 {
                if name_is_address_cells(&name) {
                    current.address_cells = read_u32_be(dtb, data_offset).unwrap();
                } else if name_is_size_cells(&name) {
                    current.size_cells = read_u32_be(dtb, data_offset).unwrap();
                }
            }
            c = next;
        }
    }
    current
}

/// Emit property events for one run of consecutive properties, each carrying
/// the given node name, cell counts and depth. Returns the cursor after the
/// run and whether the run was well-formed.
///
/// Every event this appends is a property event carrying exactly the given
/// cell counts: all properties of one run see the same cell information,
/// whatever their order.
fn emit_property_run(
    dtb: &Vec<u8>,
    strings_offset: usize,
    end: usize,
    cursor: usize,
    node_name: &Vec<u8>,
    cells: CellInfo,
    depth: usize,
    events: &mut Vec<DtbStructureEvent>,
) -> (r: (usize, bool))
    requires
        end <= dtb@.len(),
        cursor + 4 <= end,
        be32_at(dtb@, cursor as int) == FDT_PROP,
    ensures
        cursor <= r.0 <= end,
        r.1 ==> r.0 >= cursor + 12,
        count_node_events(final(events)@) == count_node_events(old(events)@),
        final(events)@.len() >= old(events)@.len(),
        forall|k: int| 0 <= k < old(events)@.len() ==> final(events)@[k] == old(events)@[k],
        forall|k: int|
            old(events)@.len() <= k < final(events)@.len() ==> (#[trigger] final(events)@[k]
                matches DtbStructureEvent::Property { cells: c, node_name: n, depth: d, .. } && c
                == cells && n@ == node_name@ && d == depth),
{
    let mut c = cursor;
    let mut consumed_first = false;
    loop
        invariant
            cursor <= c <= end,
            end <= dtb@.len(),
            consumed_first ==> c >= cursor + 12,
            count_node_events(events@) == count_node_events(old(events)@),
            events@.len() >= old(events)@.len(),
            forall|k: int| 0 <= k < old(events)@.len() ==> events@[k] == old(events)@[k],
            be32_at(dtb@, cursor as int) == FDT_PROP,
            forall|k: int|
                old(events)@.len() <= k < events@.len() ==> (#[trigger] events@[k] matches
                    DtbStructureEvent::Property { cells: cc, node_name: n, depth: d, .. } && cc
                    == cells && n@ == node_name@ && d == depth),
        ensures
            cursor <= c <= end,
            consumed_first ==> c >= cursor + 12,
            count_node_events(events@) == count_node_events(old(events)@),
            events@.len() >= old(events)@.len(),
            forall|k: int| 0 <= k < old(events)@.len() ==> events@[k] == old(events)@[k],
            forall|k: int|
                old(events)@.len() <= k < events@.len() ==> (#[trigger] events@[k] matches
                    DtbStructureEvent::Property { cells: cc, node_name: n, depth: d, .. } && cc
                    == cells && n@ == node_name@ && d == depth),
        decreases end - c,
    {
        if c >= end || end - c < 4 {
            break ;
        }
        let token = read_u32_be(dtb, c).unwrap();
        if token == FDT_NOP {
            // Padding between properties does not end the run.
            c = c + 4;
            continue ;
        }
        if token != FDT_PROP {
            break ;
        }
        let (name, data_offset, data_len, next) = match parse_property(
            dtb,
            strings_offset,
            end,
            c,
        ) {
            Some(p) => p,
            None => {
                return (c, false);
            },
        };
        let data = copy_byte_range(dtb, data_offset, data_len);
        let name_copy = copy_byte_range(node_name, 0, node_name.len());
        let event = DtbStructureEvent::Property {
            node_name: name_copy,
            property: DtbProperty { name, data },
            cells,
            depth,
        };
        let ghost events0 = events@;
        let ghost event_view = event;
        events.push(event);
        proof {
            lemma_count_node_events_push(events0, event_view);
        }
        consumed_first = true;
        c = next;
    }
    if !consumed_first {
        // The first token was a property token, so an empty run means the
        // property itself could not be parsed.
        return (c, false);
    }
    (c, true)
}

/// Parse one node starting just after its begin-node token: its name, its
/// properties (with a pre-pass so cell declarations apply to the whole node)
/// and, recursively, its children. Returns the cursor after the node and
/// whether the node and everything below it was well-formed.
///
/// On a well-formed node, exactly as many node-ending tokens are consumed as
/// nodes are entered.
#[verifier::rlimit(50)]
fn parse_node(
    dtb: &Vec<u8>,
    strings_offset: usize,
    end: usize,
    cursor: usize,
    depth: usize,
    parent_cells: CellInfo,
    events: &mut Vec<DtbStructureEvent>,
    nodes_begun: &mut usize,
    nodes_ended: &mut usize,
) -> (r: (usize, bool))
    requires
        end <= dtb@.len(),
        cursor <= end,
        depth < cursor,
        *old(nodes_begun) == count_node_events(old(events)@),
        *old(nodes_ended) <= *old(nodes_begun),
    ensures
        cursor <= r.0 <= end,
        *final(nodes_begun) == count_node_events(final(events)@),
        *final(nodes_begun) >= *old(nodes_begun),
        *final(nodes_ended) >= *old(nodes_ended),
        *final(nodes_ended) <= *final(nodes_begun),
        r.1 ==> *final(nodes_begun) - *old(nodes_begun) == *final(nodes_ended) - *old(
            nodes_ended,
        ),
        final(events)@.len() >= old(events)@.len(),
        forall|k: int| 0 <= k < old(events)@.len() ==> final(events)@[k] == old(events)@[k],
        // The node itself is reported first, at the given depth; everything
        // below it is reported deeper, descending one level at a time.
        final(events)@.len() > old(events)@.len() ==> (final(events)@[old(
            events,
        )@.len() as int] is Node && event_depth(final(events)@[old(events)@.len() as int])
            == depth),
        forall|k: int|
            old(events)@.len() <= k < final(events)@.len() ==> event_depth(
                #[trigger] final(events)@[k],
            ) >= depth,
        forall|k: int|
            old(events)@.len() <= k < final(events)@.len() - 1 ==> event_depth(
                final(events)@[k + 1],
            ) <= event_depth(#[trigger] final(events)@[k]) + 1,
    decreases end - cursor,
{
    // Read the node name.
    let name = match read_null_terminated_string(dtb, cursor, end) {
        Some(n) => n,
        None => {
            return (cursor, false);
        },
    };

    let event_name = copy_byte_range(&name, 0, name.len());
    let event = DtbStructureEvent::Node { name: event_name, depth };
    let ghost events0 = events@;
    let ghost event_view = event;
    events.push(event);
    let events_len = events.len();
    proof {
        lemma_count_node_events_push(events0, event_view);
        lemma_count_node_events_bound(events@);
        assert(count_node_events(events@) <= events_len);
    }
    *nodes_begun = *nodes_begun + 1;

    // Skip the name and its terminator, and align to a 4-byte boundary.
    let name_end = cursor + name.len() + 1;
    let rem = name_end % 4;
    let mut c = if rem == 0 {
        name_end
    } else if end - name_end < 4 - rem {
        end
    } else {
        name_end + (4 - rem)
    };

    let mut cells = parent_cells;

    loop
        invariant
            cursor < c <= end,
            end <= dtb@.len(),
            depth < cursor,
            *nodes_begun == count_node_events(events@),
            *nodes_begun >= *old(nodes_begun),
            *nodes_ended >= *old(nodes_ended),
            *nodes_ended <= *nodes_begun,
            *old(nodes_ended) <= *old(nodes_begun),
            *nodes_begun - *old(nodes_begun) == (*nodes_ended - *old(nodes_ended)) + 1,
            events@.len() > old(events)@.len(),
            forall|k: int| 0 <= k < old(events)@.len() ==> events@[k] == old(events)@[k],
            events@[old(events)@.len() as int] is Node,
            event_depth(events@[old(events)@.len() as int]) == depth,
            forall|k: int|
                old(events)@.len() <= k < events@.len() ==> event_depth(#[trigger] events@[k])
                    >= depth,
            forall|k: int|
                old(events)@.len() <= k < events@.len() - 1 ==> event_depth(events@[k + 1])
                    <= event_depth(#[trigger] events@[k]) + 1,
        ensures
            cursor < c <= end,
            *nodes_begun == count_node_events(events@),
            *nodes_begun >= *old(nodes_begun),
            *nodes_ended >= *old(nodes_ended),
            *nodes_ended <= *nodes_begun,
            events@.len() > old(events)@.len(),
            forall|k: int| 0 <= k < old(events)@.len() ==> events@[k] == old(events)@[k],
            events@[old(events)@.len() as int] is Node,
            event_depth(events@[old(events)@.len() as int]) == depth,
            forall|k: int|
                old(events)@.len() <= k < events@.len() ==> event_depth(#[trigger] events@[k])
                    >= depth,
            forall|k: int|
                old(events)@.len() <= k < events@.len() - 1 ==> event_depth(events@[k + 1])
                    <= event_depth(#[trigger] events@[k]) + 1,
        decreases end - c,
    {
        if c >= end || end - c < 4 {
            return (c, false);
        }
        let token = read_u32_be(dtb, c).unwrap();

        if token == FDT_PROP {
            // Pre-pass: apply this run's cell declarations before reporting
            // any of its properties, so declaration order does not matter.
            cells = scan_property_run(dtb, strings_offset, end, c, cells);
            let ghost evs0 = events@;
            let (next, ok) = emit_property_run(
                dtb,
                strings_offset,
                end,
                c,
                &name,
                cells,
                depth,
                events,
            );
            proof {
                lemma_depth_discipline_extended(old(events)@.len() as int, evs0, events@, depth);
            }
            if !ok {
                return (next, false);
            }
            c = next;
        } else if token == FDT_BEGIN_NODE {
            let child_depth = depth + 1;
            let ghost evs0 = events@;
            let (next, ok) = parse_node(
                dtb,
                strings_offset,
                end,
                c + 4,
                child_depth,
                cells,
                events,
                nodes_begun,
                nodes_ended,
            );
            proof {
                lemma_depth_discipline_extended(old(events)@.len() as int, evs0, events@, depth);
            }
            if !ok {
                return (next, false);
            }
            proof {
                assert(next > c);
            }
            c = next;
        } else if token == FDT_END_NODE {
            *nodes_ended = *nodes_ended + 1;
            return (c + 4, true);
        } else if token == FDT_NOP {
            c = c + 4;
        } else {
            // An end-of-block token or an unknown token inside a node:
            // malformed, halt the walk cleanly.
            return (c + 4, false);
        }
    }
}

/// There are never more node events than events.
proof fn lemma_count_node_events_bound(events: Seq<DtbStructureEvent>)
    ensures
        0 <= count_node_events(events) <= events.len(),
    decreases events.len(),
{
    if events.len() > 0 {
        lemma_count_node_events_bound(events.drop_first());
    }
}

/// Traverses the structure block of a devicetree blob and reports every node
/// and property as an event, in depth-first order.
///
/// Every walk that completes (reaches the block-terminating token with every
/// node closed) has consumed exactly one node-ending token per node entered:
/// the number of nodes begun equals the number of nodes ended, so the
/// implicit traversal depth is back at zero.
#[verifier::rlimit(50)]
pub fn walk_structure_block(dtb_header: &DtbHeader, dtb: &Vec<u8>) -> (r: DtbStructure)
    ensures
        r.nodes_begun == count_node_events(r.events@),
        r.nodes_ended <= r.nodes_begun,
        r.complete ==> r.nodes_begun == r.nodes_ended,
        // Depth discipline: the first event is a root node at depth zero,
        // and no event is reported more than one level deeper than the one
        // before it.
        r.events@.len() > 0 ==> (r.events@[0] is Node && event_depth(r.events@[0]) == 0),
        forall|k: int|
            0 <= k < r.events@.len() - 1 ==> event_depth(r.events@[k + 1]) <= event_depth(
                #[trigger] r.events@[k],
            ) + 1,
{
    let structure_offset = dtb_header.structure_block_address();
    let strings_offset = dtb_header.strings_block_address();

    // Bound the walk by the declared structure block size, clamped to the
    // buffer.
    let declared_end: u64 = (structure_offset as u64) + (dtb_header.structure_block_size as u64);
    let end: usize = if declared_end > dtb.len() as u64 {
        dtb.len()
    } else {
        declared_end as usize
    };

    let mut events: Vec<DtbStructureEvent> = Vec::new();
    let mut nodes_begun: usize = 0;
    let mut nodes_ended: usize = 0;
    let default_cells = CellInfo { address_cells: 2, size_cells: 1 };

    let mut c = structure_offset;
    let mut complete = false;

    if c > end {
        return DtbStructure { events, complete: false, nodes_begun, nodes_ended };
    }

    loop
        invariant_except_break
            nodes_begun == nodes_ended,
            !complete,
        invariant
            c <= end,
            end <= dtb@.len(),
            nodes_begun == count_node_events(events@),
            nodes_ended <= nodes_begun,
            events@.len() > 0 ==> (events@[0] is Node && event_depth(events@[0]) == 0),
            forall|k: int|
                0 <= k < events@.len() - 1 ==> event_depth(events@[k + 1]) <= event_depth(
                    #[trigger] events@[k],
                ) + 1,
        ensures
            nodes_begun == count_node_events(events@),
            nodes_ended <= nodes_begun,
            complete ==> nodes_begun == nodes_ended,
            events@.len() > 0 ==> (events@[0] is Node && event_depth(events@[0]) == 0),
            forall|k: int|
                0 <= k < events@.len() - 1 ==> event_depth(events@[k + 1]) <= event_depth(
                    #[trigger] events@[k],
                ) + 1,
        decreases end - c,
    {
        if c >= end || end - c < 4 {
            break ;
        }
        let token = read_u32_be(dtb, c).unwrap();

        if token == FDT_BEGIN_NODE {
            let ghost evs0 = events@;
            let (next, ok) = parse_node(
                dtb,
                strings_offset,
                end,
                c + 4,
                0,
                default_cells,
                &mut events,
                &mut nodes_begun,
                &mut nodes_ended,
            );
            proof {
                lemma_depth_discipline_extended(0, evs0, events@, 0);
            }
            if !ok {
                break ;
            }
            c = next;
        } else if token == FDT_NOP {
            c = c + 4;
        } else if token == FDT_END {
            complete = true;
            break ;
        } else {
            // An unexpected token at the structure block root: halt.
            break ;
        }
    }

    DtbStructure { events, complete, nodes_begun, nodes_ended }
}

} // verus!
