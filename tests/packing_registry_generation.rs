use gtclone::block_state::BlockState;
use gtclone::chunk::ChunkData;
use gtclone::errors::{BlockStateError, RegistryError, StateError};
use gtclone::generation::{noise_gen_function, FlatHeightMap, HeightMapGroup, HeightMapProvider};
use gtclone::mesher::{new_block, Facing};
use gtclone::packed::PackedChunkData;
use gtclone::player::BlockPicker;
use gtclone::pos::{ivec3, Direction, BLOCKS_PER_CHUNK};
use gtclone::registry::{get_state, validate_state, Block, BlockStateAsset, Registry};

fn state(id: &str) -> BlockState {
    BlockState::from_parts(id, Vec::new())
}

fn same_cells(a: &ChunkData, b: &ChunkData) -> bool {
    (0..BLOCKS_PER_CHUNK).all(|i| {
        let (x, y, z) = ((i / 32) % 32, i / 1024, i % 32);
        a.get_block(x, y, z).unwrap() == b.get_block(x, y, z).unwrap()
    })
}

fn round_trip(c: &ChunkData) -> (PackedChunkData, ChunkData) {
    let p = PackedChunkData::from_chunk(c);
    let u = p.clone().into_chunk();
    (p, u)
}

#[test]
fn pack_single_chunk() {
    let c = ChunkData::single(state("air"));
    let (p, u) = round_trip(&c);
    assert!(p.is_single);
    assert!(p.block_data.is_empty());
    assert_eq!(p.palette[0].ref_count as usize, BLOCKS_PER_CHUNK);
    assert!(u.is_single());
    assert!(same_cells(&c, &u));
}

#[test]
fn pack_small_palettes_use_few_bits() {
    let mut c = ChunkData::single(state("air"));
    c.set_block(1, 2, 3, state("stone")).unwrap();
    let (p, u) = round_trip(&c);
    assert_eq!(p.block_data.len(), 512);
    assert_eq!(u.palette_len(), 2);
    assert!(same_cells(&c, &u));
    for i in 0..3 {
        c.set_block(i, 9, 9, state(&format!("x{i}"))).unwrap();
    }
    let (p5, u5) = round_trip(&c);
    assert_eq!(p5.block_data.len(), 512 * 4);
    assert!(same_cells(&c, &u5));
}

#[test]
fn pack_keeps_free_rows_and_double_width() {
    let mut c = ChunkData::single(state("air"));
    for i in 0..300usize {
        c.set_block(i % 32, i / 32, 7, state(&format!("b{i}"))).unwrap();
    }
    c.set_block(0, 0, 7, state("air")).unwrap();
    assert!(c.is_double_width());
    let (p, u) = round_trip(&c);
    assert_eq!(p.block_data.len(), 512 * 16);
    assert_eq!(p.palette.len(), c.palette_len());
    assert!(u.is_double_width());
    assert!(same_cells(&c, &u));
    let counts: Vec<u16> = u.palette_iter().iter().map(|e| e.get_ref_count()).collect();
    let expected: Vec<u16> = c.palette_iter().iter().map(|e| e.get_ref_count()).collect();
    assert_eq!(counts, expected);
}

#[test]
fn packed_word_layout_is_low_bits_first() {
    let mut c = ChunkData::single(state("air"));
    c.set_block(0, 0, 1, state("stone")).unwrap();
    let p = PackedChunkData::from_chunk(&c);
    assert_eq!(p.block_data[0], 0b10);
}

#[test]
fn registry_registers_and_freezes() {
    let mut reg = Registry::new("block");
    assert!(reg.get("air").is_some());
    assert!(reg.register(Block::new("stone", 3, Vec::new())).is_ok());
    assert_eq!(
        reg.register(Block::new("stone", 1, Vec::new())),
        Err(RegistryError::Duplicate("stone".to_string(), "block".to_string()))
    );
    reg.freeze();
    assert!(reg.is_frozen());
    assert_eq!(reg.register(Block::new("dirt", 1, Vec::new())), Err(RegistryError::Frozen("block".to_string())));
    assert_eq!(reg.iter().len(), 2);
    assert_eq!(reg.get("stone").unwrap().get_hardness(), 3);
}

#[test]
fn block_state_from_registry() {
    let mut reg = Registry::new("block");
    reg.register(Block::new("furnace", 2, vec![("facing".to_string(), "north".to_string())])).unwrap();
    let s = BlockState::new("furnace", &reg).unwrap();
    assert_eq!(s.get_id(), "furnace");
    assert_eq!(s.get_state(), &vec![("facing".to_string(), "north".to_string())]);
    let t = BlockState::with_state("furnace", vec![("facing".to_string(), "east".to_string())], &reg).unwrap();
    assert_ne!(s, t);
    assert_eq!(BlockState::new("nope", &reg), Err(BlockStateError::InvalidId("nope".to_string())));
    assert!(BlockState::new("air", &reg).unwrap().is_air());
}

fn terrain_registry() -> Registry {
    let mut reg = Registry::new("block");
    for id in ["stone", "dirt", "grass_block", "oak_planks"] {
        reg.register(Block::new(id, 1, Vec::new())).unwrap();
    }
    reg
}

#[test]
fn generation_layers_terrain() {
    let reg = terrain_registry();
    let heights = FlatHeightMap::new(10).get_chunk(0, 0);
    let c = noise_gen_function(ivec3(0, 0, 0), &reg, &heights).unwrap();
    assert_eq!(c.get_block(4, 10, 4).unwrap().get_id(), "grass_block");
    assert_eq!(c.get_block(4, 9, 4).unwrap().get_id(), "dirt");
    assert_eq!(c.get_block(4, 6, 4).unwrap().get_id(), "dirt");
    assert_eq!(c.get_block(4, 5, 4).unwrap().get_id(), "stone");
    assert_eq!(c.get_block(4, 11, 4).unwrap().get_id(), "air");
    let total: usize = c.palette_iter().iter().map(|e| e.get_ref_count() as usize).sum();
    assert_eq!(total, BLOCKS_PER_CHUNK);
}

#[test]
fn generation_puts_planks_at_water_level_over_low_ground() {
    let reg = terrain_registry();
    let mut h = vec![0i32; 1024];
    h[32 * 3 + 2] = -10;
    let heights = HeightMapGroup::new(h);
    assert_eq!(heights.get(2, 3), -10);
    let c = noise_gen_function(ivec3(0, 0, 0), &reg, &heights).unwrap();
    assert_eq!(c.get_block(2, 0, 3).unwrap().get_id(), "oak_planks");
    assert_eq!(c.get_block(2, 1, 3).unwrap().get_id(), "air");
    assert_eq!(c.get_block(0, 0, 0).unwrap().get_id(), "grass_block");
    let below = noise_gen_function(ivec3(0, -1, 0), &reg, &heights).unwrap();
    assert_eq!(below.get_block(2, 22, 3).unwrap().get_id(), "grass_block");
    assert_eq!(below.get_block(2, 21, 3).unwrap().get_id(), "dirt");
    assert_eq!(below.get_block(2, 18, 3).unwrap().get_id(), "dirt");
    assert_eq!(below.get_block(2, 17, 3).unwrap().get_id(), "stone");
}

#[test]
fn generation_needs_every_terrain_block() {
    let reg = Registry::new("block");
    let heights = FlatHeightMap::new(0).get_chunk(0, 0);
    assert_eq!(
        noise_gen_function(ivec3(0, 0, 0), &reg, &heights).err(),
        Some(BlockStateError::InvalidId("stone".to_string()))
    );
}

#[test]
fn neighbour_cells_and_facings() {
    assert_eq!(new_block(Facing::North, 1, 2, 3), (1, 2, 4));
    assert_eq!(new_block(Facing::West, 0, 2, 3), (-1, 2, 3));
    assert_eq!(new_block(Facing::Down, 0, 0, 0), (0, -1, 0));
    assert_eq!(Facing::from(Direction::East), Facing::East);
    assert_eq!(ivec3(1, 2, 3).offset(Direction::Up), ivec3(1, 3, 3));
    assert_eq!(Direction::North.opposite(), Direction::South);
}

#[test]
fn picker_wraps_both_ways() {
    let mut p = BlockPicker { block_order: vec!["a".to_string(), "b".to_string(), "c".to_string()], index: 0 };
    p.scroll(false);
    assert_eq!(p.index, 2);
    p.scroll(true);
    assert_eq!(p.index, 0);
    p.scroll(true);
    assert_eq!(p.index, 1);
}

#[test]
fn state_properties_are_validated_against_definitions() {
    let defs = vec![
        BlockStateAsset { name: "facing".to_string(), values: vec!["north".to_string(), "south".to_string()] },
        BlockStateAsset { name: "lit".to_string(), values: vec!["true".to_string(), "false".to_string()] },
        BlockStateAsset { name: "facing".to_string(), values: vec!["east".to_string()] },
    ];
    let ok = vec![("facing".to_string(), "south".to_string()), ("lit".to_string(), "false".to_string())];
    assert_eq!(validate_state("furnace", &ok, &defs), Ok(()));
    let bad_key = vec![("lit".to_string(), "true".to_string()), ("color".to_string(), "red".to_string())];
    assert_eq!(
        validate_state("furnace", &bad_key, &defs),
        Err(StateError::UnknownProperty("furnace".to_string(), "color".to_string()))
    );
    let bad_value = vec![("facing".to_string(), "east".to_string())];
    assert_eq!(
        validate_state("furnace", &bad_value, &defs),
        Err(StateError::UnknownValue("furnace".to_string(), "facing".to_string(), "east".to_string()))
    );
    assert_eq!(get_state("lit", &defs).unwrap().values.len(), 2);
    assert!(get_state("color", &defs).is_none());
    let b = Block::with_states("furnace", 2, ok.clone(), defs.clone());
    assert_eq!(b.get_states().len(), 3);
    assert_eq!(b.get_id(), "furnace");
}

#[test]
fn state_properties_form_an_ordered_map() {
    let a = BlockState::from_parts(
        "log",
        vec![
            ("b".to_string(), "1".to_string()),
            ("a".to_string(), "x".to_string()),
            ("ab".to_string(), "y".to_string()),
            ("b".to_string(), "2".to_string()),
        ],
    );
    assert_eq!(
        a.get_state(),
        &vec![("a".to_string(), "x".to_string()), ("ab".to_string(), "y".to_string()), ("b".to_string(), "2".to_string())]
    );
    let b = BlockState::from_parts(
        "log",
        vec![("ab".to_string(), "y".to_string()), ("b".to_string(), "2".to_string()), ("a".to_string(), "x".to_string())],
    );
    assert_eq!(a, b);
}

#[test]
fn chunk_rows_after_first_write_to_uniform_chunk() {
    let mut c = ChunkData::single(state("air"));
    c.set_block(0, 0, 0, state("stone")).unwrap();
    assert_eq!(c.palette_len(), 2);
    assert_eq!(c.palette_iter()[0].get_ref_count() as usize, BLOCKS_PER_CHUNK - 1);
    assert_eq!(c.palette_iter()[1].get_ref_count(), 1);
}

#[test]
fn chunk_local_negative_coordinates_are_out_of_bounds() {
    let mut w = gtclone::world::BlockWorld::new();
    w.queue_chunk_generation(ivec3(0, 0, 0));
    w.process_generate_queue();
    w.receive_generated_chunk(ivec3(0, 0, 0), ChunkData::single(state("air")));
    w.insert_chunk_data();
    let chunk = w.get_chunk_map().get_chunk(&ivec3(0, 0, 0)).unwrap();
    assert_eq!(chunk.get_block(ivec3(-1, 0, 0)), Err(gtclone::errors::ChunkError::OutOfBounds(ivec3(-1, 0, 0))));
    assert_eq!(chunk.get_block(ivec3(0, 32, 0)), Err(gtclone::errors::ChunkError::OutOfBounds(ivec3(0, 32, 0))));
}
