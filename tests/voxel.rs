use voxel_stream::chunk::{chunk_origin_world, world_to_chunk_pos, Block, ChunkData, ChunkPos};
use voxel_stream::config::{AtlasInfo, BlockDef, BlocksConfig, SkyboxInfo};
use voxel_stream::faces::{effective_block_kind, face_id, face_kind, tile_for, BlockFace, ConfigError, FaceDir};
use voxel_stream::greedy::build_chunk_mesh_greedy_all_axes;
use voxel_stream::meshing::build_chunk_mesh_with_neighbors;
use voxel_stream::quad::Quad;
use voxel_stream::remesh::{mesh_buffers, remesh_dirty_chunks};
use voxel_stream::store::ChunkSaveStore;
use voxel_stream::stream::{
    chunk_stream_tick_system, generate_chunk_data, handle_chunk_load_requests_system,
    handle_chunk_unload_requests_system, make_test_blocks, wanted_chunks, ChunkLoadQueue,
    ChunkStreamConfig,
};
use voxel_stream::tile::{uv_corners, UvCorner, UvRot};
use voxel_stream::world::{get_block_world, LiveChunk, VoxelWorld};

fn pos(x: i32, y: i32, z: i32) -> ChunkPos {
    ChunkPos { x, y, z }
}

fn all(t: (u32, u32)) -> BlockDef {
    BlockDef { all: Some(t), top: None, bottom: None, side: None }
}

fn config() -> BlocksConfig {
    BlocksConfig {
        atlas: AtlasInfo { size: (1024, 1024), tile_size: (16, 16), texture: "atlas.png".to_string() },
        skybox: SkyboxInfo { texture: "sky.png".to_string() },
        blocks: vec![
            (
                "grass".to_string(),
                BlockDef { all: None, top: Some((21, 5)), bottom: Some((17, 10)), side: Some((20, 6)) },
            ),
            ("dirt".to_string(), all((17, 10))),
            ("stone".to_string(), all((1, 0))),
        ],
    }
}

fn air_grid() -> ChunkData {
    ChunkData::new_air()
}

fn set(d: &mut ChunkData, x: i32, y: i32, z: i32, b: Block) {
    d.blocks[ChunkData::idx(x, y, z)] = b;
}

fn live(p: ChunkPos, data: ChunkData) -> LiveChunk {
    LiveChunk { pos: p, data, dirty: false, modified: false }
}

fn stream_cfg(view: i32, unload: i32, budget: usize) -> ChunkStreamConfig {
    ChunkStreamConfig { view_radius: view, unload_radius: unload, y_min: 0, y_max: 0, load_budget: budget }
}

fn area(qs: &[Quad]) -> i64 {
    qs.iter().map(|q| q.w as i64 * q.h as i64).sum()
}

#[test]
fn get_local_outside_is_air() {
    let mut d = air_grid();
    for i in 0..d.blocks.len() {
        d.blocks[i] = Block::Stone;
    }
    assert_eq!(d.get_local(0, 0, 0), Block::Stone);
    assert_eq!(d.get_local(15, 15, 15), Block::Stone);
    for (x, y, z) in [(-1, 0, 0), (0, -1, 0), (0, 0, -1), (16, 0, 0), (0, 16, 0), (0, 0, 16), (i32::MIN, 5, 5), (5, i32::MAX, 5)] {
        assert_eq!(d.get_local(x, y, z), Block::Air);
    }
}

#[test]
fn idx_is_x_fastest() {
    assert_eq!(ChunkData::idx(0, 0, 0), 0);
    assert_eq!(ChunkData::idx(1, 0, 0), 1);
    assert_eq!(ChunkData::idx(0, 1, 0), 16);
    assert_eq!(ChunkData::idx(0, 0, 1), 256);
    assert_eq!(ChunkData::idx(15, 15, 15), 4095);
}

#[test]
fn origin_round_trip() {
    for c in [pos(0, 0, 0), pos(-1, 2, -3), pos(5, -7, 11), pos(-100, 100, 0)] {
        let o = chunk_origin_world(c);
        assert_eq!(world_to_chunk_pos(o.x, o.y, o.z), c);
    }
    let o = chunk_origin_world(pos(-2, 1, 3));
    assert_eq!((o.x, o.y, o.z), (-32, 16, 48));
}

#[test]
fn negative_voxels_map_to_negative_chunks() {
    for w in -16..=-1 {
        assert_eq!(world_to_chunk_pos(w, 0, 0).x, -1);
    }
    for w in -32..=-17 {
        assert_eq!(world_to_chunk_pos(w, 0, 0).x, -2);
    }
    assert_eq!(world_to_chunk_pos(0, 15, 16), pos(0, 0, 1));
    assert_eq!(world_to_chunk_pos(-1, -17, 31), pos(-1, -2, 1));
}

#[test]
fn effective_kind_follows_block_above() {
    assert_eq!(effective_block_kind(Block::Grass, false), Block::Dirt);
    assert_eq!(effective_block_kind(Block::Dirt, true), Block::Grass);
    assert_eq!(effective_block_kind(Block::Grass, true), Block::Grass);
    assert_eq!(effective_block_kind(Block::Dirt, false), Block::Dirt);
    assert_eq!(effective_block_kind(Block::Stone, true), Block::Stone);
}

#[test]
fn tile_lookup_and_errors() {
    let cfg = config();
    assert_eq!(face_kind(FaceDir::PosY), BlockFace::Top);
    assert_eq!(face_kind(FaceDir::NegY), BlockFace::Bottom);
    assert_eq!(face_kind(FaceDir::NegZ), BlockFace::Side);
    assert_eq!(tile_for(&cfg, Block::Grass, BlockFace::Top), Ok((21, 5)));
    assert_eq!(tile_for(&cfg, Block::Grass, BlockFace::Side), Ok((20, 6)));
    assert_eq!(tile_for(&cfg, Block::Dirt, BlockFace::Top), Ok((17, 10)));
    assert_eq!(tile_for(&cfg, Block::Air, BlockFace::Top), Err(ConfigError::MissingBlock(Block::Air)));
    let mut partial = config();
    partial.blocks[0].1.bottom = None;
    assert_eq!(
        tile_for(&partial, Block::Grass, BlockFace::Bottom),
        Err(ConfigError::MissingFace(Block::Grass, BlockFace::Bottom))
    );
    assert_eq!(tile_for(&partial, Block::Grass, BlockFace::Top), Ok((21, 5)));
}

#[test]
fn face_id_packs_tile_and_direction() {
    let cfg = config();
    // tile (21, 5) for the grass top, direction tag 3
    assert_eq!(face_id(&cfg, Block::Grass, FaceDir::PosY), Ok(21 | (5 << 16) | (3 << 24)));
    // dirt (17, 10) on the -z side, tag 6
    assert_eq!(face_id(&cfg, Block::Dirt, FaceDir::NegZ), Ok(17 | (10 << 16) | (6 << 24)));
    assert_ne!(face_id(&cfg, Block::Dirt, FaceDir::PosZ), face_id(&cfg, Block::Dirt, FaceDir::NegZ));
}

#[test]
fn uv_corner_rotations() {
    let c = |u: bool, v: bool| UvCorner { hi_u: u, hi_v: v };
    assert_eq!(uv_corners(UvRot::R0), [c(false, false), c(true, false), c(true, true), c(false, true)]);
    assert_eq!(uv_corners(UvRot::R90), [c(false, true), c(false, false), c(true, false), c(true, true)]);
    assert_eq!(uv_corners(UvRot::R180), [c(true, true), c(false, true), c(false, false), c(true, false)]);
    assert_eq!(uv_corners(UvRot::R270), [c(true, false), c(true, true), c(false, true), c(false, false)]);
}

#[test]
fn single_voxel_gives_six_quads() {
    let cfg = config();
    let world = VoxelWorld::new();
    let mut d = air_grid();
    set(&mut d, 8, 8, 8, Block::Stone);
    let quads = build_chunk_mesh_with_neighbors(&cfg, &world, pos(0, 0, 0), &d).unwrap();
    assert_eq!(quads.len(), 6);
    let dirs: Vec<FaceDir> = quads.iter().map(|q| q.dir).collect();
    assert_eq!(dirs, vec![FaceDir::PosX, FaceDir::NegX, FaceDir::PosY, FaceDir::NegY, FaceDir::PosZ, FaceDir::NegZ]);
    let b = mesh_buffers(&quads);
    assert_eq!(b.positions.len(), 24);
    assert_eq!(b.normals.len(), 24);
    assert_eq!(b.uv_corners.len(), 24);
    assert_eq!(b.indices.len(), 36);
    assert_eq!(&b.indices[0..6], &[0, 2, 1, 0, 3, 2]);
    assert_eq!(&b.indices[6..12], &[4, 6, 5, 4, 7, 6]);
    // +x face at x = 9, corners in its winding table
    let p = &b.positions[0..4];
    assert_eq!((p[0].x, p[0].y, p[0].z), (9, 8, 8));
    assert_eq!((p[1].x, p[1].y, p[1].z), (9, 8, 9));
    assert_eq!((p[2].x, p[2].y, p[2].z), (9, 9, 9));
    assert_eq!((p[3].x, p[3].y, p[3].z), (9, 9, 8));
    assert_eq!((b.normals[0].x, b.normals[0].y, b.normals[0].z), (1, 0, 0));
    assert_eq!(quads[0].rot, UvRot::R180);
    assert_eq!(quads[2].rot, UvRot::R0);
    assert_eq!(b.uv_tiles[0], (1, 0));
    let g = build_chunk_mesh_greedy_all_axes(&cfg, &world, pos(0, 0, 0), &d).unwrap();
    assert_eq!(g.len(), 6);
    assert_eq!(area(&g), 6);
}

#[test]
fn grass_under_a_block_is_drawn_as_dirt() {
    let cfg = config();
    let world = VoxelWorld::new();
    let mut d = air_grid();
    set(&mut d, 3, 3, 3, Block::Grass);
    set(&mut d, 3, 4, 3, Block::Stone);
    let quads = build_chunk_mesh_with_neighbors(&cfg, &world, pos(0, 0, 0), &d).unwrap();
    // 2 voxels x 6 faces minus the shared pair
    assert_eq!(quads.len(), 10);
    for q in quads.iter().filter(|q| q.u == 3 && q.v == 3 && q.dir == FaceDir::NegY) {
        assert_eq!(q.block, Block::Dirt);
        assert_eq!(q.tile, (17, 10));
    }
    let top = quads.iter().find(|q| q.dir == FaceDir::PosY).unwrap();
    assert_eq!(top.block, Block::Stone);
}

#[test]
fn missing_tile_stops_meshing() {
    let mut cfg = config();
    cfg.blocks.retain(|(n, _)| n != "stone");
    let world = VoxelWorld::new();
    let mut d = air_grid();
    set(&mut d, 1, 1, 1, Block::Stone);
    assert_eq!(
        build_chunk_mesh_with_neighbors(&cfg, &world, pos(0, 0, 0), &d),
        Err(ConfigError::MissingBlock(Block::Stone))
    );
    assert_eq!(
        build_chunk_mesh_greedy_all_axes(&cfg, &world, pos(0, 0, 0), &d),
        Err(ConfigError::MissingBlock(Block::Stone))
    );
}

#[test]
fn greedy_merges_a_slab() {
    let cfg = config();
    let world = VoxelWorld::new();
    let mut d = air_grid();
    for x in 0..4 {
        for z in 0..3 {
            set(&mut d, x, 0, z, Block::Stone);
        }
    }
    let naive = build_chunk_mesh_with_neighbors(&cfg, &world, pos(0, 0, 0), &d).unwrap();
    let greedy = build_chunk_mesh_greedy_all_axes(&cfg, &world, pos(0, 0, 0), &d).unwrap();
    // 12 tops, 12 bottoms, 2 * (4 + 3) sides
    assert_eq!(naive.len(), 38);
    assert_eq!(area(&naive), 38);
    assert_eq!(area(&greedy), 38);
    assert_eq!(greedy.len(), 6);
    let top = greedy.iter().find(|q| q.dir == FaceDir::PosY).unwrap();
    assert_eq!((top.plane, top.u, top.v, top.w, top.h), (1, 0, 0, 4, 3));
    assert_eq!(top.rot, UvRot::R90);
}

#[test]
fn greedy_keeps_different_identities_apart() {
    let cfg = config();
    let world = VoxelWorld::new();
    let mut d = air_grid();
    // two adjacent columns, stone and dirt, both fully visible on -z
    for y in 0..3 {
        set(&mut d, 4, y, 0, Block::Stone);
        set(&mut d, 5, y, 0, Block::Stone);
        set(&mut d, 6, y, 0, Block::Dirt);
    }
    // keep the dirt covered so it is drawn as dirt, not grass
    set(&mut d, 6, 3, 0, Block::Stone);
    let greedy = build_chunk_mesh_greedy_all_axes(&cfg, &world, pos(0, 0, 0), &d).unwrap();
    let neg_z: Vec<&Quad> = greedy.iter().filter(|q| q.dir == FaceDir::NegZ).collect();
    assert_eq!(neg_z.len(), 3);
    let stone = neg_z.iter().find(|q| q.u == 4 && q.v == 0).unwrap();
    assert_eq!((stone.w, stone.h, stone.tile), (2, 3, (1, 0)));
    let dirt = neg_z.iter().find(|q| q.u == 6 && q.v == 0).unwrap();
    assert_eq!((dirt.w, dirt.h, dirt.tile), (1, 3, (17, 10)));
    let cap = neg_z.iter().find(|q| q.u == 6 && q.v == 3).unwrap();
    assert_eq!((cap.w, cap.h), (1, 1));
    let naive = build_chunk_mesh_with_neighbors(&cfg, &world, pos(0, 0, 0), &d).unwrap();
    assert_eq!(area(&naive), area(&greedy));
}

#[test]
fn naive_and_greedy_agree_on_test_scene() {
    let cfg = config();
    let world = VoxelWorld::new();
    let d = ChunkData { blocks: make_test_blocks() };
    let naive = build_chunk_mesh_with_neighbors(&cfg, &world, pos(0, 0, 0), &d).unwrap();
    let greedy = build_chunk_mesh_greedy_all_axes(&cfg, &world, pos(0, 0, 0), &d).unwrap();
    assert_eq!(area(&naive), naive.len() as i64);
    assert_eq!(area(&naive), area(&greedy));
    assert!(greedy.len() < naive.len());
}

#[test]
fn neighbour_chunk_hides_boundary_faces() {
    let cfg = config();
    let mut world = VoxelWorld::new();
    let mut full = air_grid();
    for i in 0..full.blocks.len() {
        full.blocks[i] = Block::Stone;
    }
    let mut other = air_grid();
    for i in 0..other.blocks.len() {
        other.blocks[i] = Block::Stone;
    }
    world.insert(live(pos(1, 0, 0), other));
    assert_eq!(get_block_world(&world, pos(0, 0, 0), 16, 3, 3), Block::Stone);
    assert_eq!(get_block_world(&world, pos(0, 0, 0), -1, 3, 3), Block::Air);
    assert_eq!(get_block_world(&world, pos(2, 0, 0), -16, 0, 0), Block::Stone);
    let quads = build_chunk_mesh_with_neighbors(&cfg, &world, pos(0, 0, 0), &full).unwrap();
    // five open sides of 256 faces each; the +x side touches the neighbour
    assert_eq!(quads.len(), 5 * 256);
    assert!(quads.iter().all(|q| q.dir != FaceDir::PosX));
}

#[test]
fn generator_builds_flat_ground() {
    let g = generate_chunk_data(pos(3, 0, -2));
    assert_eq!(g.get_local(0, 15, 0), Block::Grass);
    assert_eq!(g.get_local(7, 14, 9), Block::Dirt);
    assert_eq!(g.get_local(7, 0, 9), Block::Dirt);
    let a = generate_chunk_data(pos(0, 1, 0));
    assert!(a.blocks.iter().all(|b| *b == Block::Air));
}

#[test]
fn wanted_window() {
    let w = wanted_chunks(pos(0, 5, 0), 1, 0, 1);
    assert_eq!(w.len(), 18);
    assert!(w.contains(&pos(-1, 0, 1)));
    assert!(w.contains(&pos(1, 1, -1)));
    assert!(!w.contains(&pos(2, 0, 0)));
    assert_eq!(wanted_chunks(pos(0, 0, 0), 2, 1, 0).len(), 0);
}

#[test]
fn budgeted_loading_is_fifo_and_deduplicated() {
    let mut world = VoxelWorld::new();
    let mut queue = ChunkLoadQueue::new();
    let mut store = ChunkSaveStore::new();
    // a 1 x 5 strip of wanted chunks: radius 0 on x, then four neighbours on z
    let cfg = ChunkStreamConfig { view_radius: 0, unload_radius: 3, y_min: 0, y_max: 4, load_budget: 2 };
    let t1 = chunk_stream_tick_system(&cfg, pos(0, 0, 0), &mut world, &mut queue, &mut store);
    assert_eq!(t1.load_requests, vec![pos(0, 0, 0), pos(0, 1, 0)]);
    assert_eq!(queue.fifo.len(), 3);
    // nothing was loaded: the tick must not queue the same positions again
    let t2 = chunk_stream_tick_system(&cfg, pos(0, 0, 0), &mut world, &mut queue, &mut store);
    assert_eq!(t2.load_requests, vec![pos(0, 2, 0), pos(0, 3, 0)]);
    // the two requested positions are still missing, so they queue again
    assert_eq!(queue.fifo.len(), 3);
    assert_eq!(queue.fifo[0], pos(0, 4, 0));
    let t3 = chunk_stream_tick_system(&cfg, pos(0, 0, 0), &mut world, &mut queue, &mut store);
    assert_eq!(t3.load_requests, vec![pos(0, 4, 0), pos(0, 0, 0)]);
    assert!(t3.unloaded.is_empty());
}

#[test]
fn present_chunks_are_not_queued() {
    let mut world = VoxelWorld::new();
    world.insert(live(pos(0, 0, 0), generate_chunk_data(pos(0, 0, 0))));
    let mut queue = ChunkLoadQueue::new();
    let mut store = ChunkSaveStore::new();
    let cfg = stream_cfg(1, 2, 100);
    let t = chunk_stream_tick_system(&cfg, pos(0, 0, 0), &mut world, &mut queue, &mut store);
    assert_eq!(t.load_requests.len(), 8);
    assert!(!t.load_requests.contains(&pos(0, 0, 0)));
}

#[test]
fn loading_dirties_exactly_present_face_neighbours() {
    let mut world = VoxelWorld::new();
    let store = ChunkSaveStore::new();
    for p in [pos(1, 0, 0), pos(0, 0, -1), pos(1, 1, 0), pos(2, 0, 0), pos(0, 1, 0)] {
        world.insert(live(p, air_grid()));
    }
    let loaded = handle_chunk_load_requests_system(&mut world, &store, &vec![pos(0, 0, 0), pos(1, 0, 0)]);
    assert_eq!(loaded, vec![pos(0, 0, 0)]);
    let dirty = |w: &VoxelWorld, p: ChunkPos| w.chunks.iter().find(|c| c.pos == p).unwrap().dirty;
    assert!(dirty(&world, pos(0, 0, 0)));
    assert!(dirty(&world, pos(1, 0, 0)));
    assert!(dirty(&world, pos(0, 0, -1)));
    assert!(dirty(&world, pos(0, 1, 0)));
    assert!(!dirty(&world, pos(1, 1, 0)));
    assert!(!dirty(&world, pos(2, 0, 0)));
}

#[test]
fn unloading_dirties_exactly_present_face_neighbours() {
    let mut world = VoxelWorld::new();
    let mut store = ChunkSaveStore::new();
    for p in [pos(0, 0, 0), pos(0, 0, 1), pos(1, 0, 1), pos(-1, 0, 0)] {
        world.insert(live(p, air_grid()));
    }
    let un = handle_chunk_unload_requests_system(&mut world, &mut store, &vec![pos(0, 0, 0), pos(5, 5, 5)]);
    assert_eq!(un, vec![pos(0, 0, 0)]);
    assert_eq!(world.chunks.len(), 3);
    for c in world.chunks.iter() {
        assert_eq!(c.dirty, c.pos == pos(0, 0, 1) || c.pos == pos(-1, 0, 0));
    }
    // the chunk was not modified: nothing is saved
    assert!(store.load_chunk(pos(0, 0, 0)).is_none());
}

#[test]
fn evicted_modified_chunk_reloads_from_cache() {
    let mut world = VoxelWorld::new();
    let mut queue = ChunkLoadQueue::new();
    let mut store = ChunkSaveStore::new();
    let mut edited = generate_chunk_data(pos(5, 0, 0));
    set(&mut edited, 1, 2, 3, Block::Stone);
    set(&mut edited, 0, 15, 0, Block::Air);
    let saved = edited.blocks.clone();
    world.insert(LiveChunk { pos: pos(5, 0, 0), data: edited, dirty: false, modified: true });
    world.insert(live(pos(4, 0, 0), generate_chunk_data(pos(4, 0, 0))));
    let cfg = stream_cfg(0, 2, 1);
    let t = chunk_stream_tick_system(&cfg, pos(0, 0, 0), &mut world, &mut queue, &mut store);
    let mut un = t.unloaded.clone();
    un.sort_by_key(|p| p.x);
    assert_eq!(un, vec![pos(4, 0, 0), pos(5, 0, 0)]);
    assert_eq!(world.chunks.len(), 0);
    assert_eq!(store.load_chunk(pos(5, 0, 0)).unwrap().blocks, saved);
    assert!(store.load_chunk(pos(4, 0, 0)).is_none());
    let loaded = handle_chunk_load_requests_system(&mut world, &store, &vec![pos(5, 0, 0), pos(4, 0, 0)]);
    assert_eq!(loaded.len(), 2);
    let back = world.chunks.iter().find(|c| c.pos == pos(5, 0, 0)).unwrap();
    assert_eq!(back.data.blocks, saved);
    assert!(back.dirty && !back.modified);
    let fresh = world.chunks.iter().find(|c| c.pos == pos(4, 0, 0)).unwrap();
    assert_eq!(fresh.data.blocks, generate_chunk_data(pos(4, 0, 0)).blocks);
}

#[test]
fn eviction_respects_hysteresis_and_vertical_minimum() {
    let mut world = VoxelWorld::new();
    let mut queue = ChunkLoadQueue::new();
    let mut store = ChunkSaveStore::new();
    for p in [pos(3, 0, 0), pos(4, 0, 0), pos(0, 3, 0), pos(0, 4, 0), pos(0, 0, -4), pos(3, 0, 1)] {
        world.insert(live(p, air_grid()));
    }
    let cfg = stream_cfg(1, 3, 0);
    let t = chunk_stream_tick_system(&cfg, pos(0, 0, 0), &mut world, &mut queue, &mut store);
    let mut un = t.unloaded.clone();
    un.sort_by_key(|p| (p.x, p.y, p.z));
    assert_eq!(un, vec![pos(0, 0, -4), pos(0, 4, 0), pos(4, 0, 0)]);
    assert!(t.load_requests.is_empty());
    for c in world.chunks.iter() {
        // (3,0,0) touched the evicted (4,0,0), (0,3,0) the evicted (0,4,0)
        assert_eq!(c.dirty, c.pos == pos(3, 0, 0) || c.pos == pos(0, 3, 0));
    }
}

#[test]
fn remesh_clears_dirty_marks() {
    let cfg = config();
    let mut world = VoxelWorld::new();
    let mut a = air_grid();
    set(&mut a, 0, 0, 0, Block::Stone);
    world.insert(LiveChunk { pos: pos(0, 0, 0), data: a, dirty: true, modified: false });
    world.insert(live(pos(1, 0, 0), air_grid()));
    let meshes = remesh_dirty_chunks(&cfg, &mut world).unwrap();
    assert_eq!(meshes.len(), 1);
    assert_eq!(meshes[0].pos, pos(0, 0, 0));
    assert_eq!(meshes[0].quads.len(), 6);
    assert!(world.chunks.iter().all(|c| !c.dirty));
    let mut bad = config();
    bad.blocks.clear();
    world.chunks[0].dirty = true;
    assert_eq!(remesh_dirty_chunks(&bad, &mut world).err(), Some(ConfigError::MissingBlock(Block::Stone)));
    assert!(world.chunks[0].dirty);
}

#[test]
fn save_cache_keeps_latest_grid() {
    let mut store = ChunkSaveStore::new();
    let mut a = air_grid();
    store.save_chunk(pos(1, 2, 3), &a);
    set(&mut a, 2, 2, 2, Block::Dirt);
    store.save_chunk(pos(1, 2, 3), &a);
    assert_eq!(store.saved.len(), 1);
    assert_eq!(store.load_chunk(pos(1, 2, 3)).unwrap().get_local(2, 2, 2), Block::Dirt);
}
