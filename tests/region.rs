use chunk_cluster::bits::{read_field, write_field};
use chunk_cluster::placement::connect_chunks;
use chunk_cluster::schematic::{
    build_palette, field_width, BlockPos, BlockState, EncodeError, Region, Schematic, WidthPolicy,
};

#[test]
fn field_straddles_word_boundary() {
    // Five palette entries need 3-bit fields; field 21 starts at bit 63.
    assert_eq!(field_width(5, WidthPolicy::Exact), 3);
    let mut words = vec![0u64; 2];
    write_field(&mut words, 3, 21, 4);
    assert_eq!(words, vec![0, 0b10]);
    assert_eq!(read_field(&words, 3, 21), 4);
    write_field(&mut words, 3, 21, 0b111);
    assert_eq!(words, vec![1u64 << 63, 0b11]);
    assert_eq!(read_field(&words, 3, 21), 7);
    assert_eq!(read_field(&words, 3, 20), 0);
    assert_eq!(read_field(&words, 3, 22), 0);
}

#[test]
fn write_field_keeps_neighbours() {
    let mut words = vec![u64::MAX; 2];
    write_field(&mut words, 5, 3, 0b10101);
    assert_eq!(read_field(&words, 5, 3), 0b10101);
    assert_eq!(read_field(&words, 5, 2), 0b11111);
    assert_eq!(read_field(&words, 5, 4), 0b11111);
    assert_eq!(words[0], !(0b01010u64 << 15));
    assert_eq!(words[1], u64::MAX);
}

#[test]
fn widths() {
    assert_eq!(field_width(1, WidthPolicy::Exact), 1);
    assert_eq!(field_width(2, WidthPolicy::Exact), 1);
    assert_eq!(field_width(3, WidthPolicy::Exact), 2);
    assert_eq!(field_width(4, WidthPolicy::Exact), 2);
    assert_eq!(field_width(5, WidthPolicy::Exact), 3);
    assert_eq!(field_width(17, WidthPolicy::Exact), 5);
    assert_eq!(field_width(5, WidthPolicy::ClampedToTwo), 2);
    assert_eq!(field_width(1, WidthPolicy::ClampedToTwo), 1);
    assert_eq!(field_width(3, WidthPolicy::ClampedToTwo), 2);
}

#[test]
fn block_pos_basics() {
    let a = BlockPos::new(1, -2, 3);
    let b = BlockPos::new(-4, 5, 3);
    assert_eq!(a.min(b), BlockPos::new(-4, -2, 3));
    assert_eq!(a.max(b), BlockPos::new(1, 5, 3));
    assert_eq!(BlockPos::zero(), BlockPos::new(0, 0, 0));
    assert_eq!(BlockPos::one(), BlockPos::new(1, 1, 1));
    assert_eq!(BlockPos::default(), BlockPos::zero());
    let c: BlockPos = (7, 8, 9).into();
    assert_eq!(c, BlockPos::new(7, 8, 9));
}

#[test]
fn palette_first_seen_order() {
    let states = vec![
        BlockState::new("minecraft:stone"),
        BlockState::new("minecraft:dirt"),
        BlockState::new("minecraft:stone"),
        BlockState::new("minecraft:air"),
    ];
    let p = build_palette(&states);
    assert_eq!(p, vec!["minecraft:air", "minecraft:stone", "minecraft:dirt"]);
    assert_eq!(build_palette(&Vec::new()), vec!["minecraft:air"]);
}

#[test]
fn set_block_state_replaces() {
    let stone = BlockState::new("minecraft:stone");
    let dirt = BlockState::new("minecraft:dirt");
    let mut r = Region::new("r");
    r.set_block_state(BlockPos::new(0, 0, 0), &stone);
    r.set_block_state(BlockPos::new(0, 0, 0), &dirt);
    assert_eq!(r.positions.len(), 1);
    assert_eq!(r.states[0].name, "minecraft:dirt");
}

#[test]
fn fill_covers_box_in_any_corner_order() {
    let stone = BlockState::new("minecraft:stone");
    let mut r = Region::new("r");
    r.fill(BlockPos::new(2, 1, 3), BlockPos::new(0, 0, 1), &stone);
    assert_eq!(r.positions.len(), 3 * 2 * 3);
    assert!(r.positions.contains(&BlockPos::new(1, 1, 2)));
    assert!(!r.positions.contains(&BlockPos::new(3, 1, 2)));
}

#[test]
fn encode_two_blocks() {
    let stone = BlockState::new("minecraft:stone");
    let dirt = BlockState::new("minecraft:dirt");
    let mut r = Region::new("r");
    r.set_block_state(BlockPos::new(5, 10, -3), &stone);
    r.set_block_state(BlockPos::new(6, 10, -3), &dirt);
    let d = match r.encode(WidthPolicy::Exact) {
        Ok(d) => d,
        Err(_) => panic!("fits"),
    };
    assert_eq!(d.position, BlockPos::new(5, 10, -3));
    assert_eq!(d.size, BlockPos::new(2, 1, 1));
    assert_eq!(d.palette, vec!["minecraft:air", "minecraft:stone", "minecraft:dirt"]);
    assert_eq!(d.width, 2);
    assert_eq!(d.block_states, vec![1 | (2 << 2)]);
}

#[test]
fn encode_row_major_y_then_z_then_x() {
    let stone = BlockState::new("minecraft:stone");
    let mut r = Region::new("r");
    r.set_block_state(BlockPos::new(0, 0, 0), &stone);
    r.set_block_state(BlockPos::new(1, 1, 1), &stone);
    let d = match r.encode(WidthPolicy::Exact) {
        Ok(d) => d,
        Err(_) => panic!("fits"),
    };
    assert_eq!(d.size, BlockPos::new(2, 2, 2));
    assert_eq!(d.width, 1);
    // (1, 1, 1) is voxel (1 * 2 + 1) * 2 + 1 = 7.
    assert_eq!(d.block_states, vec![1 | (1 << 7)]);
}

#[test]
fn encode_empty_region() {
    let r = Region::new("empty");
    let d = match r.encode(WidthPolicy::Exact) {
        Ok(d) => d,
        Err(_) => panic!("fits"),
    };
    assert_eq!(d.position, BlockPos::zero());
    assert_eq!(d.size, BlockPos::zero());
    assert_eq!(d.palette, vec!["minecraft:air"]);
    assert!(d.block_states.is_empty());
}

fn five_state_region() -> Region {
    let names = ["a:1", "a:2", "a:3", "a:4"];
    let mut r = Region::new("r");
    for (i, n) in names.iter().enumerate() {
        r.set_block_state(BlockPos::new(i as i32, 0, 0), &BlockState::new(n));
    }
    r
}

#[test]
fn exact_and_clamped_widths_differ() {
    let r = five_state_region();
    let exact = match r.encode(WidthPolicy::Exact) {
        Ok(d) => d,
        Err(_) => panic!("fits"),
    };
    assert_eq!(exact.width, 3);
    for i in 0..4 {
        assert_eq!(read_field(&exact.block_states, 3, i), i as u64 + 1);
    }
    let clamped = match r.encode(WidthPolicy::ClampedToTwo) {
        Ok(d) => d,
        Err(_) => panic!("fits"),
    };
    assert_eq!(clamped.width, 2);
    // Index 4 keeps only its low two bits.
    assert_eq!(read_field(&clamped.block_states, 2, 3), 0);
    assert_eq!(read_field(&clamped.block_states, 2, 2), 3);
}

#[test]
fn air_is_palette_entry_zero() {
    let r = five_state_region();
    let d = match r.encode(WidthPolicy::Exact) {
        Ok(d) => d,
        Err(_) => panic!("fits"),
    };
    assert_eq!(d.palette[0], "minecraft:air");
    assert_eq!(d.palette.len(), 5);
}

#[test]
fn too_large_region() {
    let stone = BlockState::new("minecraft:stone");
    let mut r = Region::new("big");
    r.set_block_state(BlockPos::new(0, 0, 0), &stone);
    r.set_block_state(BlockPos::new(40000, 0, 40000), &stone);
    assert!(matches!(r.encode(WidthPolicy::Exact), Err(EncodeError::TooLarge)));
    assert!(r.to_tag(WidthPolicy::Exact).is_err());
    let mut s = Schematic::new();
    s.add_region(r);
    assert!(s.to_tag(WidthPolicy::Exact).is_err());
}

#[test]
fn encoding_is_deterministic() {
    let a = five_state_region().encode(WidthPolicy::Exact);
    let b = five_state_region().encode(WidthPolicy::Exact);
    match (a, b) {
        (Ok(a), Ok(b)) => {
            assert_eq!(a.block_states, b.block_states);
            assert_eq!(a.palette, b.palette);
        }
        _ => panic!("fits"),
    }
}

#[test]
fn schematic_metadata_and_tag() {
    let mut s = Schematic::new();
    s.set_name("ChunkGrid");
    s.set_author("someone");
    s.set_description("paths");
    assert_eq!(s.name.as_deref(), Some("ChunkGrid"));
    assert_eq!(s.author.as_deref(), Some("someone"));
    assert_eq!(s.description.as_deref(), Some("paths"));
    s.add_region(five_state_region());
    assert_eq!(s.regions.len(), 1);
    let tag = match s.to_tag(WidthPolicy::Exact) {
        Ok(t) => t,
        Err(_) => panic!("fits"),
    };
    assert_eq!(tag.get_i32("Version").ok(), Some(4));
    let regions = tag.get_compound_tag("Regions").ok().expect("regions");
    let region = regions.get_compound_tag("r").ok().expect("region r");
    assert_eq!(region.get_i64_vec("BlockStates").ok().expect("states").len(), 1);
    let meta = tag.get_compound_tag("Metadata").ok().expect("metadata");
    assert_eq!(meta.get_str("Name").ok(), Some("ChunkGrid"));
    assert_eq!(meta.get_i32("RegionCount").ok(), Some(1));
}

#[test]
fn block_pos_arithmetic() {
    let a = BlockPos::new(1, -2, 3);
    let b = BlockPos::new(10, 20, -30);
    assert_eq!(a.add(b), BlockPos::new(11, 18, -27));
    assert_eq!(b.sub(a), BlockPos::new(9, 22, -33));
}

#[test]
fn connect_neighbouring_chunks() {
    let concrete = BlockState::new("minecraft:concrete");
    let chest = BlockState::new("minecraft:chest");
    let mut r = Region::new("chests");
    connect_chunks(&mut r, (0, 0), (1, 0), &concrete, &chest);
    // Centres (8, 0, 8) and (24, 0, 8): 17 blocks of line, one marker.
    assert_eq!(r.positions.len(), 18);
    let marker = r.positions.iter().position(|p| *p == BlockPos::new(15, 1, 8));
    match marker {
        Some(i) => assert_eq!(r.states[i].name, "minecraft:chest"),
        None => panic!("marker missing"),
    }
    let mut r = Region::new("chests");
    connect_chunks(&mut r, (-1, -1), (-1, -2), &concrete, &chest);
    assert!(r.positions.contains(&BlockPos::new(-8, 1, -16)));
    assert!(r.positions.contains(&BlockPos::new(-8, 0, -24)));
}

#[test]
fn block_pos_tag_holds_coordinates() {
    let t = BlockPos::new(3, -4, 5).to_tag();
    assert_eq!(t.get_i32("x").ok(), Some(3));
    assert_eq!(t.get_i32("y").ok(), Some(-4));
    assert_eq!(t.get_i32("z").ok(), Some(5));
    assert_eq!(t.iter().count(), 3);
}

#[test]
fn block_state_tag_holds_name() {
    let t = BlockState::new("minecraft:stone").to_tag();
    assert_eq!(t.get_str("Name").ok(), Some("minecraft:stone"));
    assert_eq!(t.iter().count(), 1);
}

#[test]
fn empty_region_document() {
    let r = Region::new("r");
    let t = match r.to_tag(WidthPolicy::Exact) {
        Ok(t) => t,
        Err(_) => panic!("fits"),
    };
    assert_eq!(t.iter().count(), 7);
    let pos = t.get_compound_tag("Position").ok().expect("position");
    assert_eq!(pos.get_i32("x").ok(), Some(0));
    let size = t.get_compound_tag("Size").ok().expect("size");
    assert_eq!(size.get_i32("z").ok(), Some(0));
    let palette = t.get_compound_tag_vec("BlockStatePalette").ok().expect("palette");
    assert_eq!(palette.len(), 1);
    assert_eq!(palette[0].get_str("Name").ok(), Some("minecraft:air"));
    assert!(t.get_i64_vec("BlockStates").ok().expect("states").is_empty());
    for list in ["Entities", "TileEntities", "PendingBlockTick"] {
        assert!(t.get_compound_tag_vec(list).ok().expect("list").is_empty());
    }
}

#[test]
fn region_document_words_keep_bits() {
    let mut r = Region::new("r");
    let stone = BlockState::new("minecraft:stone");
    r.set_block_state(BlockPos::new(0, 0, 0), &stone);
    let t = match r.to_tag(WidthPolicy::Exact) {
        Ok(t) => t,
        Err(_) => panic!("fits"),
    };
    assert_eq!(t.get_i64_vec("BlockStates").ok().expect("states"), &vec![1i64]);
    let again = match r.to_tag(WidthPolicy::Exact) {
        Ok(t) => t,
        Err(_) => panic!("fits"),
    };
    assert_eq!(
        again.get_i64_vec("BlockStates").ok().expect("states"),
        t.get_i64_vec("BlockStates").ok().expect("states")
    );
}

#[test]
fn named_schematic_document() {
    let mut s = Schematic::new();
    s.set_name("ChunkGrid");
    let t = match s.to_tag(WidthPolicy::Exact) {
        Ok(t) => t,
        Err(_) => panic!("fits"),
    };
    assert_eq!(t.iter().count(), 3);
    assert_eq!(t.get_i32("Version").ok(), Some(4));
    let meta = t.get_compound_tag("Metadata").ok().expect("metadata");
    assert_eq!(meta.iter().count(), 2);
    assert_eq!(meta.get_str("Name").ok(), Some("ChunkGrid"));
    assert_eq!(meta.get_i32("RegionCount").ok(), Some(0));
    assert!(!meta.contains_key("Author"));
    let regions = t.get_compound_tag("Regions").ok().expect("regions");
    assert_eq!(regions.iter().count(), 0);
}

#[test]
fn filled_box_packs_all_ones() {
    let stone = BlockState::new("minecraft:stone");
    let mut r = Region::new("r");
    r.fill(BlockPos::new(0, 0, 0), BlockPos::new(2, 0, 1), &stone);
    let d = match r.encode(WidthPolicy::Exact) {
        Ok(d) => d,
        Err(_) => panic!("fits"),
    };
    assert_eq!(d.size, BlockPos::new(3, 1, 2));
    assert_eq!(d.width, 1);
    assert_eq!(d.block_states, vec![63]);
}
