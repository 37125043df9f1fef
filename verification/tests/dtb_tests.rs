use kernel_library::boot::{create_memory_map, create_physical_memory_allocator};
use kernel_library::dtb::{
    walk_memory_reservation_entries, walk_structure_block, CellInfo, DtbHeader, DtbProperty,
    DtbStructureEvent,
};
use kernel_library::memory_map::{
    adjust_memory_map_from_reserved_regions_in_dtb, populate_memory_map_from_dtb, MemoryMap,
};

/// Builds a devicetree blob from reservation entries and a structure block.
struct DtbBuilder {
    reservations: Vec<(u64, u64)>,
    structure: Vec<u8>,
    strings: Vec<u8>,
}

fn push_u32_be(buffer: &mut Vec<u8>, value: u32) {
    buffer.extend_from_slice(&value.to_be_bytes());
}

fn push_u64_be(buffer: &mut Vec<u8>, value: u64) {
    buffer.extend_from_slice(&value.to_be_bytes());
}

fn pad_to_4(buffer: &mut Vec<u8>) {
    while buffer.len() % 4 != 0 {
        buffer.push(0);
    }
}

impl DtbBuilder {
    fn new() -> DtbBuilder {
        DtbBuilder { reservations: Vec::new(), structure: Vec::new(), strings: Vec::new() }
    }

    fn reserve(&mut self, address: u64, size: u64) {
        self.reservations.push((address, size));
    }

    fn intern_string(&mut self, name: &str) -> u32 {
        let offset = self.strings.len() as u32;
        self.strings.extend_from_slice(name.as_bytes());
        self.strings.push(0);
        offset
    }

    fn begin_node(&mut self, name: &str) {
        push_u32_be(&mut self.structure, 1);
        self.structure.extend_from_slice(name.as_bytes());
        self.structure.push(0);
        pad_to_4(&mut self.structure);
    }

    fn end_node(&mut self) {
        push_u32_be(&mut self.structure, 2);
    }

    fn property(&mut self, name: &str, data: &[u8]) {
        let name_offset = self.intern_string(name);
        push_u32_be(&mut self.structure, 3);
        push_u32_be(&mut self.structure, data.len() as u32);
        push_u32_be(&mut self.structure, name_offset);
        self.structure.extend_from_slice(data);
        pad_to_4(&mut self.structure);
    }

    fn property_u32(&mut self, name: &str, value: u32) {
        self.property(name, &value.to_be_bytes());
    }

    fn build(&mut self) -> Vec<u8> {
        push_u32_be(&mut self.structure, 9);

        let mut reservation_block: Vec<u8> = Vec::new();
        for (address, size) in &self.reservations {
            push_u64_be(&mut reservation_block, *address);
            push_u64_be(&mut reservation_block, *size);
        }
        push_u64_be(&mut reservation_block, 0);
        push_u64_be(&mut reservation_block, 0);

        let reservation_offset = 40u32;
        let structure_offset = reservation_offset + reservation_block.len() as u32;
        let strings_offset = structure_offset + self.structure.len() as u32;
        let total_size = strings_offset + self.strings.len() as u32;

        let mut blob: Vec<u8> = Vec::new();
        push_u32_be(&mut blob, 0xd00dfeed);
        push_u32_be(&mut blob, total_size);
        push_u32_be(&mut blob, structure_offset);
        push_u32_be(&mut blob, strings_offset);
        push_u32_be(&mut blob, reservation_offset);
        push_u32_be(&mut blob, 17);
        push_u32_be(&mut blob, 16);
        push_u32_be(&mut blob, 0);
        push_u32_be(&mut blob, self.strings.len() as u32);
        push_u32_be(&mut blob, self.structure.len() as u32);
        blob.extend_from_slice(&reservation_block);
        blob.extend_from_slice(&self.structure);
        blob.extend_from_slice(&self.strings);
        blob
    }
}

fn reg_pair_2_2(address: u64, size: u64) -> Vec<u8> {
    let mut data = Vec::new();
    push_u64_be(&mut data, address);
    push_u64_be(&mut data, size);
    data
}

#[test]
fn test_header_parses_and_rejects_bad_magic() {
    let mut builder = DtbBuilder::new();
    builder.begin_node("");
    builder.end_node();
    let blob = builder.build();

    let header = DtbHeader::from_bytes(&blob).unwrap();
    assert_eq!(header.magic, 0xd00dfeed);
    assert_eq!(header.version, 17);
    assert_eq!(header.last_compatible_version, 16);
    assert_eq!(header.memory_reservation_block_address(), 40);

    // A corrupted magic number is rejected.
    let mut bad = blob.clone();
    bad[0] = 0;
    assert!(DtbHeader::from_bytes(&bad).is_none());

    // A truncated buffer is rejected.
    let short = vec![0u8; 39];
    assert!(DtbHeader::from_bytes(&short).is_none());
}

#[test]
fn test_reservation_walk_returns_entries_in_order() {
    // The walker reports exactly the entries before the terminator, in
    // order.
    let mut builder = DtbBuilder::new();
    builder.reserve(0x80000000, 0x1000);
    builder.reserve(0x80100000, 0x2000);
    builder.begin_node("");
    builder.end_node();
    let blob = builder.build();

    let header = DtbHeader::from_bytes(&blob).unwrap();
    let entries = walk_memory_reservation_entries(&header, &blob);

    assert_eq!(entries.len(), 2);
    assert_eq!(entries[0].address, 0x80000000);
    assert_eq!(entries[0].size, 0x1000);
    assert_eq!(entries[1].address, 0x80100000);
    assert_eq!(entries[1].size, 0x2000);
}

#[test]
fn test_structure_walk_is_balanced() {
    // For a well-formed blob, the walk completes, and the number of nodes
    // entered equals the number of node-ending tokens consumed.
    let mut builder = DtbBuilder::new();
    builder.begin_node("");
    builder.property_u32("#address-cells", 2);
    builder.begin_node("cpus");
    builder.begin_node("cpu@0");
    builder.end_node();
    builder.end_node();
    builder.begin_node("memory@80000000");
    builder.end_node();
    builder.end_node();
    let blob = builder.build();

    let header = DtbHeader::from_bytes(&blob).unwrap();
    let walk = walk_structure_block(&header, &blob);

    assert!(walk.complete);
    assert_eq!(walk.nodes_begun, 4);
    assert_eq!(walk.nodes_ended, 4);
}

#[test]
fn test_structure_walk_halts_on_truncated_blob() {
    let mut builder = DtbBuilder::new();
    builder.begin_node("");
    builder.begin_node("cpus");
    builder.end_node();
    builder.end_node();
    let mut blob = builder.build();

    // Cut the blob short inside the structure block.
    blob.truncate(blob.len() - 12);
    // Fix up nothing: the walk must stop cleanly on the truncation.
    let header = DtbHeader::from_bytes(&blob).unwrap();
    let walk = walk_structure_block(&header, &blob);
    assert!(!walk.complete);
}

#[test]
fn test_cell_declarations_apply_regardless_of_property_order() {
    // The reg property appears before the cell declarations of the same
    // node; the reported cell info must still carry the declared values.
    let mut builder = DtbBuilder::new();
    builder.begin_node("");
    builder.begin_node("probe");
    builder.property("reg", &reg_pair_2_2(0x1234, 0x5678));
    builder.property_u32("#address-cells", 2);
    builder.property_u32("#size-cells", 2);
    builder.end_node();
    builder.end_node();
    let blob = builder.build();

    let header = DtbHeader::from_bytes(&blob).unwrap();
    let walk = walk_structure_block(&header, &blob);
    assert!(walk.complete);

    let mut seen = 0;
    for event in &walk.events {
        if let DtbStructureEvent::Property { node_name, property, cells, .. } = event {
            if node_name.as_slice() == b"probe".as_slice() && property.name.as_slice() == b"reg".as_slice() {
                assert_eq!(cells.address_cells, 2);
                assert_eq!(cells.size_cells, 2);
                seen += 1;
            }
        }
    }
    assert_eq!(seen, 1);
}

#[test]
fn test_populate_aligns_memory_regions() {
    // A single memory node with reg = (0x80000123, 0x02001000) and cell
    // counts (2, 2) yields one region aligned to 4 KiB: start 0x80001000,
    // size 0x02000000.
    let mut builder = DtbBuilder::new();
    builder.begin_node("");
    builder.property_u32("#address-cells", 2);
    builder.property_u32("#size-cells", 2);
    builder.begin_node("memory");
    builder.property("reg", &reg_pair_2_2(0x80000123, 0x02001000));
    builder.end_node();
    builder.end_node();
    let blob = builder.build();

    let header = DtbHeader::from_bytes(&blob).unwrap();
    let walk = walk_structure_block(&header, &blob);
    assert!(walk.complete);

    let mut memory_map = MemoryMap::new();
    populate_memory_map_from_dtb(&mut memory_map, &walk);

    assert_eq!(memory_map.region_count(), 1);
    assert_eq!(memory_map.get_region(0).start, 0x80001000);
    assert_eq!(memory_map.get_region(0).size, 0x02000000);
}

#[test]
fn test_reserved_memory_regions_are_carved_out() {
    // A reserved-memory child carves its range out of the populated map.
    let mut builder = DtbBuilder::new();
    builder.begin_node("");
    builder.property_u32("#address-cells", 2);
    builder.property_u32("#size-cells", 2);
    builder.begin_node("memory@1000");
    builder.property("reg", &reg_pair_2_2(0x1000, 0x3000));
    builder.end_node();
    builder.begin_node("reserved-memory");
    builder.begin_node("firmware@2000");
    builder.property("reg", &reg_pair_2_2(0x2000, 0x1000));
    builder.end_node();
    builder.end_node();
    builder.end_node();
    let blob = builder.build();

    let header = DtbHeader::from_bytes(&blob).unwrap();
    let walk = walk_structure_block(&header, &blob);
    assert!(walk.complete);

    let mut memory_map = MemoryMap::new();
    populate_memory_map_from_dtb(&mut memory_map, &walk);
    assert_eq!(memory_map.region_count(), 1);

    adjust_memory_map_from_reserved_regions_in_dtb(&mut memory_map, &walk);

    assert_eq!(memory_map.region_count(), 2);
    assert_eq!(memory_map.get_region(0).start, 0x1000);
    assert_eq!(memory_map.get_region(0).size, 0x1000);
    assert_eq!(memory_map.get_region(1).start, 0x3000);
    assert_eq!(memory_map.get_region(1).size, 0x1000);
}

#[test]
fn test_unaligned_reserved_region_is_carved_outward() {
    // A reserved range that is not page-aligned is rounded outward: its
    // start down and its end up, so the whole range is excluded and the map
    // keeps page-aligned regions.
    let mut builder = DtbBuilder::new();
    builder.begin_node("");
    builder.property_u32("#address-cells", 2);
    builder.property_u32("#size-cells", 2);
    builder.begin_node("memory@1000");
    builder.property("reg", &reg_pair_2_2(0x1000, 0x3000));
    builder.end_node();
    builder.begin_node("reserved-memory");
    builder.begin_node("firmware@2100");
    builder.property("reg", &reg_pair_2_2(0x2100, 0x200));
    builder.end_node();
    builder.end_node();
    builder.end_node();
    let blob = builder.build();

    let header = DtbHeader::from_bytes(&blob).unwrap();
    let walk = walk_structure_block(&header, &blob);
    assert!(walk.complete);

    let mut memory_map = MemoryMap::new();
    populate_memory_map_from_dtb(&mut memory_map, &walk);
    adjust_memory_map_from_reserved_regions_in_dtb(&mut memory_map, &walk);

    // [0x2100, 0x2300) is excluded as [0x2000, 0x3000).
    assert_eq!(memory_map.region_count(), 2);
    assert_eq!(memory_map.get_region(0).start, 0x1000);
    assert_eq!(memory_map.get_region(0).size, 0x1000);
    assert_eq!(memory_map.get_region(1).start, 0x3000);
    assert_eq!(memory_map.get_region(1).size, 0x1000);
    for i in 0..memory_map.region_count() {
        let r = memory_map.get_region(i);
        assert_eq!(r.start % 4096, 0);
        assert_eq!(r.size % 4096, 0);
        assert!(r.size >= 4096);
    }
}

#[test]
fn test_walk_reports_tree_depths() {
    // The root node is reported at depth 0, its children at depth 1, and
    // a property carries the depth of its node.
    let mut builder = DtbBuilder::new();
    builder.begin_node("");
    builder.begin_node("cpus");
    builder.begin_node("cpu@0");
    builder.property_u32("clock", 7);
    builder.end_node();
    builder.end_node();
    builder.end_node();
    let blob = builder.build();

    let header = DtbHeader::from_bytes(&blob).unwrap();
    let walk = walk_structure_block(&header, &blob);
    assert!(walk.complete);

    let mut depths: Vec<(bool, usize)> = Vec::new();
    for event in &walk.events {
        match event {
            DtbStructureEvent::Node { depth, .. } => depths.push((true, *depth)),
            DtbStructureEvent::Property { depth, .. } => depths.push((false, *depth)),
        }
    }
    assert_eq!(depths, vec![(true, 0), (true, 1), (true, 2), (false, 2)]);
}

#[test]
fn test_memory_map_pipeline_feeds_allocator() {
    // End to end: devicetree -> memory map -> allocator. The map holds two
    // regions; allocation runs through both and then fails.
    let mut builder = DtbBuilder::new();
    builder.begin_node("");
    builder.property_u32("#address-cells", 2);
    builder.property_u32("#size-cells", 2);
    builder.begin_node("memory@1000");
    builder.property("reg", &reg_pair_2_2(0x1000, 0x1000));
    builder.end_node();
    builder.begin_node("memory@10000");
    builder.property("reg", &reg_pair_2_2(0x10000, 0x2000));
    builder.end_node();
    builder.end_node();
    let blob = builder.build();

    let header = DtbHeader::from_bytes(&blob).unwrap();
    let walk = walk_structure_block(&header, &blob);
    assert!(walk.complete);

    // No kernel image to carve out in this synthetic setting.
    let memory_map = create_memory_map(&walk, 0x100000, 0x1000);
    assert_eq!(memory_map.region_count(), 2);

    let mut allocator = create_physical_memory_allocator(&memory_map);
    assert_eq!(allocator.allocate_page(), Some(0x1000));
    assert_eq!(allocator.allocate_page(), Some(0x10000));
    assert_eq!(allocator.allocate_page(), Some(0x11000));
    assert_eq!(allocator.allocate_page(), None);
}

#[test]
fn test_property_data_as_u32() {
    let property = DtbProperty { name: b"#address-cells".to_vec(), data: vec![0, 0, 0, 2] };
    assert_eq!(property.get_property_data_as_u32(), 2);

    let property = DtbProperty { name: b"x".to_vec(), data: vec![0x12, 0x34, 0x56, 0x78] };
    assert_eq!(property.get_property_data_as_u32(), 0x12345678);
}

#[test]
fn test_property_data_as_reg_decodes_pairs() {
    // Two (address, size) pairs with two address cells and two size cells.
    let mut data = Vec::new();
    push_u64_be(&mut data, 0x8000_0000);
    push_u64_be(&mut data, 0x1000);
    push_u64_be(&mut data, 0x9000_0000);
    push_u64_be(&mut data, 0x2000);
    let property = DtbProperty { name: b"reg".to_vec(), data };

    let pairs = property.get_property_data_as_reg(&CellInfo { address_cells: 2, size_cells: 2 });
    assert_eq!(pairs, vec![(0x8000_0000, 0x1000), (0x9000_0000, 0x2000)]);

    // One address cell and one size cell.
    let mut data = Vec::new();
    push_u32_be(&mut data, 0x4000);
    push_u32_be(&mut data, 0x800);
    let property = DtbProperty { name: b"reg".to_vec(), data };
    let pairs = property.get_property_data_as_reg(&CellInfo { address_cells: 1, size_cells: 1 });
    assert_eq!(pairs, vec![(0x4000, 0x800)]);

    // A trailing partial entry is ignored.
    let mut data = Vec::new();
    push_u32_be(&mut data, 0x4000);
    push_u32_be(&mut data, 0x800);
    push_u32_be(&mut data, 0x5000);
    let property = DtbProperty { name: b"reg".to_vec(), data };
    let pairs = property.get_property_data_as_reg(&CellInfo { address_cells: 1, size_cells: 1 });
    assert_eq!(pairs, vec![(0x4000, 0x800)]);

    // Degenerate zero cell counts yield nothing.
    let property = DtbProperty { name: b"reg".to_vec(), data: vec![1, 2, 3, 4] };
    let pairs = property.get_property_data_as_reg(&CellInfo { address_cells: 0, size_cells: 0 });
    assert!(pairs.is_empty());
}

#[test]
fn test_default_cell_info() {
    let cells = CellInfo::default();
    assert_eq!(cells.address_cells, 2);
    assert_eq!(cells.size_cells, 1);
}
