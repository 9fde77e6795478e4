use gtclone::block_state::BlockState;
use gtclone::chunk::{ChunkData, PaletteEntry};
use gtclone::errors::ChunkError;
use gtclone::pos::{ivec3, BLOCKS_PER_CHUNK};

fn state(id: &str) -> BlockState {
    BlockState::from_parts(id, Vec::new())
}

fn ref_total(c: &ChunkData) -> usize {
    c.palette_iter().iter().map(|e| e.get_ref_count() as usize).sum()
}

#[test]
fn single_to_dense_keeps_other_cells() {
    let mut c = ChunkData::single(state("air"));
    assert!(c.is_single());
    assert!(c.is_empty());
    let old = c.set_block(3, 4, 5, state("stone")).unwrap();
    assert_eq!(old.get_id(), "air");
    assert!(!c.is_single());
    assert_eq!(c.get_block(3, 4, 5).unwrap().get_id(), "stone");
    assert_eq!(c.get_block(0, 0, 0).unwrap().get_id(), "air");
    assert_eq!(c.get_block(31, 31, 31).unwrap().get_id(), "air");
    assert_eq!(c.get_block(3, 4, 6).unwrap().get_id(), "air");
    assert_eq!(ref_total(&c), BLOCKS_PER_CHUNK);
}

#[test]
fn set_then_get_round_trip() {
    let mut c = ChunkData::single(state("air"));
    let s = BlockState::from_parts("log", vec![("axis".to_string(), "y".to_string())]);
    c.set_block(31, 0, 17, s.clone()).unwrap();
    let got = c.get_block(31, 0, 17).unwrap();
    assert_eq!(got, s);
    assert_eq!(got.get_state()[0].1, "y");
}

#[test]
fn identical_write_changes_nothing() {
    let mut c = ChunkData::single(state("air"));
    c.set_block(1, 1, 1, state("dirt")).unwrap();
    let before: Vec<(String, u16)> =
        c.palette_iter().iter().map(|e| (e.block.get_id().to_string(), e.get_ref_count())).collect();
    let old = c.set_block(1, 1, 1, state("dirt")).unwrap();
    assert_eq!(old.get_id(), "dirt");
    let after: Vec<(String, u16)> =
        c.palette_iter().iter().map(|e| (e.block.get_id().to_string(), e.get_ref_count())).collect();
    assert_eq!(before, after);
    let mut u = ChunkData::single(state("air"));
    u.set_block(0, 0, 0, state("air")).unwrap();
    assert!(u.is_single());
}

#[test]
fn width_grows_at_257_entries_and_keeps_cells() {
    let mut c = ChunkData::single(state("air"));
    for i in 0..256usize {
        let (x, y, z) = (i % 32, i / 32, 0);
        c.set_block(x, y, z, state(&format!("b{i}"))).unwrap();
    }
    assert_eq!(c.palette_len(), 257);
    assert!(c.is_double_width());
    for i in 0..256usize {
        let (x, y, z) = (i % 32, i / 32, 0);
        assert_eq!(c.get_block(x, y, z).unwrap().get_id(), format!("b{i}"));
    }
    assert_eq!(c.get_block(5, 5, 5).unwrap().get_id(), "air");
    assert_eq!(ref_total(&c), BLOCKS_PER_CHUNK);
}

#[test]
fn width_stays_single_byte_at_256_entries() {
    let mut c = ChunkData::single(state("air"));
    for i in 0..255usize {
        c.set_block(i % 32, i / 32, 1, state(&format!("b{i}"))).unwrap();
    }
    assert_eq!(c.palette_len(), 256);
    assert!(!c.is_double_width());
}

#[test]
fn out_of_bounds_is_an_error_and_changes_nothing() {
    let mut c = ChunkData::single(state("air"));
    assert_eq!(c.block_at(32, 0, 0), Err(ChunkError::OutOfBounds(ivec3(32, 0, 0))));
    assert!(matches!(c.set_block(0, 40, 0, state("stone")), Err(ChunkError::OutOfBounds(_))));
    assert!(matches!(c.get_block(0, 0, usize::MAX), Err(ChunkError::OutOfBounds(_))));
    assert!(c.is_single());
    assert_eq!(c.block_at(31, 31, 31), Ok(0));
}

#[test]
fn freed_row_is_recycled() {
    let mut c = ChunkData::single(state("air"));
    c.set_block(0, 0, 0, state("stone")).unwrap();
    assert_eq!(c.palette_len(), 2);
    c.set_block(0, 0, 0, state("air")).unwrap();
    assert!(c.palette_iter()[1].is_free());
    c.set_block(0, 0, 1, state("dirt")).unwrap();
    assert_eq!(c.palette_len(), 2);
    assert_eq!(c.palette_iter()[1].block.get_id(), "dirt");
    assert_eq!(c.palette_iter()[1].get_ref_count(), 1);
    assert_eq!(c.block_at(0, 0, 1), Ok(1));
}

#[test]
fn ref_counts_add_up_after_many_writes() {
    let mut c = ChunkData::single(state("air"));
    for i in 0..2000usize {
        let id = ["stone", "dirt", "air", "grass"][i % 4];
        c.set_block(i % 32, (i / 32) % 32, (i * 7) % 32, state(id)).unwrap();
        assert_eq!(ref_total(&c), BLOCKS_PER_CHUNK);
    }
}

#[test]
fn with_data_builds_dense_chunk() {
    let mut palette = vec![PaletteEntry::new(state("air")), PaletteEntry::new(state("stone"))];
    let mut data = Vec::new();
    for i in 0..BLOCKS_PER_CHUNK {
        let id = if i < 1024 { 1 } else { 0 };
        palette[id].increment_ref_count();
        data.push(id as u8);
    }
    let c = ChunkData::with_data(data, palette);
    assert!(!c.is_single());
    assert_eq!(c.get_block(5, 0, 9).unwrap().get_id(), "stone");
    assert_eq!(c.get_block(5, 1, 9).unwrap().get_id(), "air");
    assert_eq!(c.block_at_index(1023), 1);
}

#[test]
fn palette_rows_are_added_reused_and_found() {
    let mut c = ChunkData::single(state("air"));
    c.set_block(0, 0, 0, state("stone")).unwrap();
    assert_eq!(c.first_free_palette(), None);
    let i = c.add_palette(PaletteEntry::new(state("dirt")));
    assert_eq!(i, 2);
    assert_eq!(c.first_free_palette(), Some(2));
    assert_eq!(c.add_palette(PaletteEntry::new(state("dirt"))), 2);
    assert_eq!(c.add_palette(PaletteEntry::new(state("sand"))), 2);
    assert_eq!(c.lookup_palette(2).unwrap().block.get_id(), "sand");
    assert_eq!(c.palette_len(), 3);
    c.set_raw(5, 1);
    assert_eq!(c.block_at_index(5), 1);
}

#[test]
fn palette_entry_counts() {
    let mut e = PaletteEntry::new(state("stone"));
    assert!(e.is_free());
    e.increment_ref_count();
    e.increment_ref_count();
    e.decrement_ref_count();
    assert_eq!(e.get_ref_count(), 1);
    assert!(!e.is_free());
}
