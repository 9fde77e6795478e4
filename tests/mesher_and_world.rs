use gtclone::block_state::BlockState;
use gtclone::chunk::ChunkData;
use gtclone::errors::{ChunkError, WorldError};
use gtclone::mesher::{create_chunk_mesh, index_buffers, should_skip, BlockModelMinimal, FaceMinimal, FaceType, MeshDataCache};
use gtclone::pos::{ivec3, pos_to_chunk_local, pos_to_chunk_pos, Direction, IVec3};
use gtclone::world::{BlockWorld, MIB_PER_FRAME};

fn state(id: &str) -> BlockState {
    BlockState::from_parts(id, Vec::new())
}

fn cube_faces() -> Vec<FaceMinimal> {
    [Direction::North, Direction::South, Direction::East, Direction::West, Direction::Up, Direction::Down]
        .iter()
        .map(|d| FaceMinimal::from_asset(FaceType::Quad, 4, 0, Some(*d)).unwrap())
        .collect()
}

fn all_sides() -> Vec<Direction> {
    vec![Direction::Up, Direction::Down, Direction::North, Direction::South, Direction::East, Direction::West]
}

fn cache_with(full_for_glass_south: bool) -> MeshDataCache {
    let mut cache = MeshDataCache::new();
    cache.insert(state("stone"), BlockModelMinimal::new(cube_faces(), &all_sides(), 0));
    let glass_sides = if full_for_glass_south { all_sides() } else { vec![Direction::Up] };
    cache.insert(state("glass"), BlockModelMinimal::new(cube_faces(), &glass_sides, 0));
    cache
}

fn faces_at(mesh: &gtclone::mesher::MeshFaces, x: usize, y: usize, z: usize) -> usize {
    mesh.faces.iter().filter(|f| f.x == x && f.y == y && f.z == z).count()
}

#[test]
fn culling_across_a_shared_face() {
    // chunk A holds stone at z = 31; its north neighbour B holds a block at z = 0.
    let air = ChunkData::single(state("air"));
    let cache = cache_with(true);
    let mut a = ChunkData::single(state("air"));
    a.set_block(4, 4, 31, state("stone")).unwrap();
    let mut b = ChunkData::single(state("air"));
    b.set_block(4, 4, 0, state("glass")).unwrap();
    let ma = create_chunk_mesh(&a, &cache, (&b, &air, &air, &air, &air, &air)).unwrap();
    let mb = create_chunk_mesh(&b, &cache, (&air, &a, &air, &air, &air, &air)).unwrap();
    // both full toward each other: neither boundary face is drawn
    assert_eq!(ma.faces.len(), 5);
    assert_eq!(mb.faces.len(), 5);
    assert!(ma.faces.iter().all(|f| f.face != 0));
    assert!(mb.faces.iter().all(|f| f.face != 1));

    // the glass side facing the stone is not full: the stone face is drawn, the glass one is not
    let cache2 = cache_with(false);
    let ma2 = create_chunk_mesh(&a, &cache2, (&b, &air, &air, &air, &air, &air)).unwrap();
    let mb2 = create_chunk_mesh(&b, &cache2, (&air, &a, &air, &air, &air, &air)).unwrap();
    assert_eq!(ma2.faces.len(), 6);
    assert_eq!(mb2.faces.len(), 5);
    assert_eq!(faces_at(&ma2, 4, 4, 31), 6);
}

#[test]
fn empty_chunk_has_no_mesh_and_unknown_blocks_never_cull() {
    let air = ChunkData::single(state("air"));
    let cache = cache_with(true);
    assert!(create_chunk_mesh(&air, &cache, (&air, &air, &air, &air, &air, &air)).is_none());
    let mut c = ChunkData::single(state("air"));
    c.set_block(1, 1, 1, state("stone")).unwrap();
    c.set_block(1, 1, 2, state("mystery")).unwrap();
    let m = create_chunk_mesh(&c, &cache, (&air, &air, &air, &air, &air, &air)).unwrap();
    assert_eq!(faces_at(&m, 1, 1, 1), 6);
    assert_eq!(faces_at(&m, 1, 1, 2), 0);
    let mut d = ChunkData::single(state("air"));
    d.set_block(1, 1, 1, state("stone")).unwrap();
    d.set_block(1, 1, 2, state("stone")).unwrap();
    let m2 = create_chunk_mesh(&d, &cache, (&air, &air, &air, &air, &air, &air)).unwrap();
    assert_eq!(m2.faces.len(), 10);
}

#[test]
fn cull_mask_bits() {
    assert!(should_skip(Direction::North, 0b000001));
    assert!(!should_skip(Direction::South, 0b000001));
    assert!(should_skip(Direction::Down, 0b100000));
    assert!(should_skip(Direction::East, 0b000100));
    assert!(!should_skip(Direction::Up, 0b101111));
}

#[test]
fn face_indices() {
    let q = FaceMinimal::from_asset(FaceType::Quad, 8, 3, None).unwrap();
    assert_eq!(q.get_indices(), &vec![0, 1, 2, 0, 2, 3, 4, 5, 6, 4, 6, 7]);
    let t = FaceMinimal::from_asset(FaceType::Triangle, 3, 3, None).unwrap();
    assert_eq!(t.get_indices(), &vec![0, 1, 2]);
    assert!(FaceMinimal::from_asset(FaceType::Quad, 6, 0, None).is_err());
    assert!(FaceMinimal::from_asset(FaceType::Triangle, 4, 0, None).is_err());
}

#[test]
fn chunk_coordinates_round_down() {
    assert_eq!(pos_to_chunk_pos(ivec3(-1, 0, 31)), ivec3(-1, 0, 0));
    assert_eq!(pos_to_chunk_local(ivec3(-1, 0, 31)), ivec3(31, 0, 31));
    assert_eq!(pos_to_chunk_pos(ivec3(-32, 32, -33)), ivec3(-1, 1, -2));
    assert_eq!(pos_to_chunk_local(ivec3(-32, 32, -33)), ivec3(0, 0, 31));
    assert_eq!(pos_to_chunk_pos(ivec3(i32::MIN, i32::MAX, 0)), ivec3(-67108864, 67108863, 0));
}

fn generate(world: &mut BlockWorld, fill: &str) -> Vec<(IVec3, u64)> {
    let tick = world.process_generate_queue();
    for (p, _) in tick.spawned.iter() {
        assert!(world.receive_generated_chunk(*p, ChunkData::single(state(fill))));
    }
    let errors = world.insert_chunk_data();
    assert!(errors.is_empty());
    tick.spawned
}

#[test]
fn pipeline_generates_then_meshes_once() {
    let mut w = BlockWorld::new();
    let centre = ivec3(0, 0, 0);
    w.queue_chunk_generation(centre);
    generate(&mut w, "stone");
    assert!(w.get_chunk_map().get_chunk(&centre).unwrap().is_initialized());
    // neighbours missing: nothing to mesh yet
    assert!(w.queue_mesh_creation().is_empty());
    for d in [Direction::North, Direction::South, Direction::East, Direction::West, Direction::Up, Direction::Down] {
        w.queue_chunk_generation(centre.offset(d));
    }
    generate(&mut w, "air");
    let jobs = w.queue_mesh_creation();
    let mine: Vec<_> = jobs.iter().filter(|j| j.pos == centre).collect();
    assert_eq!(mine.len(), 1);
    assert!(w.is_queued_for_meshing(&centre));
    assert!(w.queue_mesh_creation().iter().all(|j| j.pos != centre));
}

#[test]
fn world_block_access_and_errors() {
    let mut w = BlockWorld::new();
    let p = ivec3(-1, 5, 40);
    assert_eq!(w.get_block(&p), Err(WorldError::UnloadedChunk(ivec3(-1, 0, 1))));
    w.queue_chunk_generation(ivec3(-1, 0, 1));
    let tick = w.process_generate_queue();
    assert_eq!(tick.spawned.len(), 1);
    assert_eq!(w.get_block(&p), Err(WorldError::Chunk(ChunkError::Uninitialized(ivec3(-1, 0, 1)))));
    assert!(w.receive_generated_chunk(ivec3(-1, 0, 1), ChunkData::single(state("air"))));
    assert!(!w.receive_generated_chunk(ivec3(-1, 0, 1), ChunkData::single(state("air"))));
    assert!(w.insert_chunk_data().is_empty());
    let old = w.set_block(&p, state("stone")).unwrap();
    assert_eq!(old.get_id(), "air");
    assert_eq!(w.get_block(&p).unwrap().get_id(), "stone");
    // a second install of the same chunk is refused
    w.queue_chunk_generation(ivec3(-1, 0, 1));
    let again = w.process_generate_queue();
    assert_eq!(again.errors, vec![ChunkError::DuplicateChunk(ivec3(-1, 0, 1))]);
}

#[test]
fn despawn_then_regenerate_gives_fresh_chunk() {
    let mut w = BlockWorld::new();
    let p = ivec3(2, -3, 4);
    w.queue_chunk_generation(p);
    let first = generate(&mut w, "stone");
    let old_entity = first[0].1;
    w.queue_chunk_despawn(p);
    let d = w.process_despawn_queue();
    assert_eq!(d.despawned, vec![old_entity]);
    assert!(d.errors.is_empty());
    w.queue_chunk_generation(p);
    let tick = w.process_generate_queue();
    assert!(tick.errors.is_empty());
    assert_eq!(tick.spawned.len(), 1);
    assert_ne!(tick.spawned[0].1, old_entity);
    assert_eq!(w.get_chunk_map().get_chunk(&p).unwrap().get_entity(), tick.spawned[0].1);
    w.queue_chunk_despawn(ivec3(9, 9, 9));
    let d2 = w.process_despawn_queue();
    assert_eq!(d2.errors, vec![ChunkError::NotFound(ivec3(9, 9, 9))]);
}

#[test]
fn upload_stops_at_budget_and_keeps_the_rest() {
    let mut w = BlockWorld::new();
    let ps: Vec<IVec3> = (0..5).map(|i| ivec3(i * 10, 0, 0)).collect();
    for p in ps.iter() {
        w.queue_chunk_generation(*p);
    }
    generate(&mut w, "stone");
    // make them all wait for meshing by giving them their neighbours
    let mut all = Vec::new();
    for p in ps.iter() {
        for d in [Direction::North, Direction::South, Direction::East, Direction::West, Direction::Up, Direction::Down] {
            all.push(p.offset(d));
        }
    }
    for q in all.iter() {
        w.queue_chunk_generation(*q);
    }
    generate(&mut w, "air");
    let jobs = w.queue_mesh_creation();
    let mut order = Vec::new();
    for p in ps.iter() {
        assert!(jobs.iter().any(|j| j.pos == *p));
        order.push(*p);
    }
    let sizes = [524288u64, 629146, 100, 1048576, 5];
    for (p, size) in order.iter().zip(sizes.iter()) {
        assert!(w.receive_generated_mesh(*p, Some(*size)));
    }
    // 524288 + 629146 exceeds one mebibyte: only the first is taken
    let first = w.upload_meshes(MIB_PER_FRAME);
    assert_eq!(first.uploads.iter().map(|u| u.0).collect::<Vec<_>>(), order[0..1].to_vec());
    assert!(w.is_queued_for_meshing(&order[1]));
    // 629146 + 100 fits; 1048576 more does not
    let second = w.upload_meshes(MIB_PER_FRAME);
    assert_eq!(second.uploads.iter().map(|u| u.0).collect::<Vec<_>>(), order[1..3].to_vec());
    // an oversized first mesh of a tick is still taken, the next waits
    let third = w.upload_meshes(MIB_PER_FRAME);
    assert_eq!(third.uploads.iter().map(|u| u.0).collect::<Vec<_>>(), order[3..4].to_vec());
    let fourth = w.upload_meshes(MIB_PER_FRAME);
    assert_eq!(fourth.uploads.iter().map(|u| u.0).collect::<Vec<_>>(), order[4..5].to_vec());
    assert!(!w.is_queued_for_meshing(&order[4]));
}

#[test]
fn edits_on_a_chunk_face_remesh_the_neighbour() {
    let mut w = BlockWorld::new();
    let c = ivec3(0, 0, 0);
    w.queue_chunk_generation(c);
    for d in [Direction::North, Direction::South, Direction::East, Direction::West, Direction::Up, Direction::Down] {
        w.queue_chunk_generation(c.offset(d));
    }
    generate(&mut w, "air");
    // everything is dirty after install; mesh what can be meshed
    w.queue_mesh_creation();
    w.set_block(&ivec3(31, 5, 5), state("stone")).unwrap();
    // the east neighbour lacks its own neighbours, so it stays waiting; the centre is meshed
    let jobs = w.queue_mesh_creation();
    assert_eq!(jobs.len(), 1);
    assert_eq!(jobs[0].pos, c);
    assert_eq!(jobs[0].data.get_block(31, 5, 5).unwrap().get_id(), "stone");
}

#[test]
fn moving_between_chunks_streams_the_world() {
    let mut w = BlockWorld::new();
    w.on_world_join(ivec3(0, 0, 0));
    let t = w.process_generate_queue();
    assert_eq!(t.spawned.len(), 1331);
    w.spawn_and_despawn_chunks(ivec3(0, 0, 0), ivec3(0, 0, 0));
    assert_eq!(w.process_generate_queue().spawned.len(), 0);
    w.spawn_and_despawn_chunks(ivec3(0, 0, 0), ivec3(20, 0, 0));
    let t2 = w.process_generate_queue();
    // the sphere of radius 8 holds 2109 chunks; none of them was loaded
    assert_eq!(t2.spawned.len(), 2109);
    let d = w.process_despawn_queue();
    assert_eq!(d.despawned.len(), 1331);
}

#[test]
fn child_models_extend_their_parent() {
    let parent = BlockModelMinimal::new(cube_faces(), &all_sides(), 0);
    let extra = vec![FaceMinimal::from_asset(FaceType::Triangle, 3, 9, None).unwrap()];
    let child = BlockModelMinimal::with_parent(&parent, extra, &Vec::new());
    assert_eq!(child.face_iter().len(), 7);
    assert_eq!(child.get_full_sides(), parent.get_full_sides());
    assert_eq!(child.face_iter()[6].get_texture_index(), 9);
    let open_top = BlockModelMinimal::with_parent(&parent, Vec::new(), &vec![Direction::Down]);
    assert!(open_top.is_full(Direction::Down));
    assert!(!open_top.is_full(Direction::Up));
    assert_eq!(parent.get_full_sides(), 0b111111);
}

#[test]
fn index_buffers_offset_each_face() {
    let air = ChunkData::single(state("air"));
    let cache = cache_with(true);
    let mut c = ChunkData::single(state("air"));
    c.set_block(1, 1, 1, state("stone")).unwrap();
    let m = create_chunk_mesh(&c, &cache, (&air, &air, &air, &air, &air, &air)).unwrap();
    let b = index_buffers(&m, &cache).unwrap();
    assert_eq!(b.vertex_count, 24);
    assert_eq!(b.texture_ids.len(), 24);
    assert_eq!(b.indices.len(), 36);
    assert_eq!(&b.indices[0..12], &[0, 1, 2, 0, 2, 3, 4, 5, 6, 4, 6, 7]);
    assert!(b.indices.iter().all(|i| *i < 24));
}
