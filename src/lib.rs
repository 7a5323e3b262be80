//! Chunked voxel storage, chunk streaming around a viewpoint, and surface
//! meshing (per-voxel face culling and greedy rectangle merging).
//!
//! `chunk` holds grids and chunk coordinates, `world` the store of live
//! chunks, `store` the save cache, `stream` the per-tick streaming decisions,
//! `meshing` and `greedy` the two mesh builders, `remesh` the remeshing of
//! dirty chunks and the vertex/index buffers, `faces`, `config` and `tile`
//! the tile-atlas mapping.
pub mod area;
pub mod chunk;
pub mod config;
pub mod faces;
pub mod greedy;
pub mod meshing;
pub mod quad;
pub mod remesh;
pub mod store;
pub mod stream;
pub mod tile;
pub mod world;

pub use chunk::{chunk_origin_world, world_to_chunk_pos, Block, ChunkData, ChunkPos, Point3};
pub use config::{AtlasInfo, BlockDef, BlocksConfig, SkyboxInfo};
pub use faces::{effective_block_kind, face_id, face_kind, tile_for, BlockFace, ConfigError, FaceDir};
pub use greedy::build_chunk_mesh_greedy_all_axes;
pub use meshing::build_chunk_mesh_with_neighbors;
pub use quad::Quad;
pub use remesh::{mesh_buffers, remesh_dirty_chunks, ChunkMesh, MeshBuffers};
pub use store::ChunkSaveStore;
pub use stream::{
    chunk_stream_tick_system, handle_chunk_load_requests_system, ChunkLoadQueue, ChunkStreamConfig,
    StreamTick,
};
pub use tile::{uv_corners, UvCorner, UvRot};
pub use world::{LiveChunk, VoxelWorld};
