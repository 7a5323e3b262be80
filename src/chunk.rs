use vstd::prelude::*;

verus! {

/// Edge length of a chunk along x, in voxels.
pub const CHUNK_SIZE_X: i32 = 16;

/// Edge length of a chunk along y, in voxels.
pub const CHUNK_SIZE_Y: i32 = 16;

/// Edge length of a chunk along z, in voxels.
pub const CHUNK_SIZE_Z: i32 = 16;

/// Number of voxels held by one chunk grid.
pub const CHUNK_VOLUME: usize = 4096;

/// The kind of material that fills one voxel.
#[derive(Clone, Copy, Debug, PartialEq, Eq, Structural)]
pub enum Block {
    Air,
    Grass,
    Dirt,
    Stone,
}

/// Position of a chunk in chunk space (one unit is one whole chunk).
#[derive(Clone, Copy, Debug, PartialEq, Eq, Hash, Structural)]
pub struct ChunkPos {
    pub x: i32,
    pub y: i32,
    pub z: i32,
}

/// An integer point: a voxel or vertex position, or a direction vector.
#[derive(Clone, Copy, Debug, PartialEq, Eq, Hash, Structural)]
pub struct Point3 {
    pub x: i32,
    pub y: i32,
    pub z: i32,
}

/// The block grid owned by one chunk, stored x-fastest, then y, then z.
pub struct ChunkData {
    pub blocks: Vec<Block>,
}

/// Whether a local coordinate triple lies inside a chunk grid.
pub open spec fn in_chunk(x: int, y: int, z: int) -> bool {
    &&& 0 <= x < CHUNK_SIZE_X
    &&& 0 <= y < CHUNK_SIZE_Y
    &&& 0 <= z < CHUNK_SIZE_Z
}

/// Flat position of a local coordinate triple in a grid.
pub open spec fn flat_index(x: int, y: int, z: int) -> int {
    x + CHUNK_SIZE_X * (y + CHUNK_SIZE_Y * z)
}

/// Block at a local coordinate of a grid; everything outside the grid is air.
pub open spec fn grid_block(blocks: Seq<Block>, x: int, y: int, z: int) -> Block {
    if in_chunk(x, y, z) {
        blocks[flat_index(x, y, z)]
    } else {
        Block::Air
    }
}

pub proof fn lemma_flat_index_bounds(x: int, y: int, z: int)
    requires
        in_chunk(x, y, z),
    ensures
        0 <= flat_index(x, y, z) < CHUNK_VOLUME,
{
    assert(0 <= x + 16 * (y + 16 * z) < 4096) by (nonlinear_arith)
        requires
            0 <= x < 16,
            0 <= y < 16,
            0 <= z < 16,
    ;
}

impl ChunkData {
    /// The grid has exactly one block per voxel of a chunk.
    pub open spec fn wf(&self) -> bool {
        self.blocks@.len() == CHUNK_VOLUME
    }

    /// Block at a local coordinate, air outside the grid.
    pub open spec fn block_at(&self, x: int, y: int, z: int) -> Block {
        grid_block(self.blocks@, x, y, z)
    }

    /// A grid of air only.
    pub fn new_air() -> (r: ChunkData)
        ensures
            r.wf(),
            forall|i: int| 0 <= i < CHUNK_VOLUME ==> r.blocks@[i] == Block::Air,
    {
        ChunkData { blocks: vec![Block::Air; CHUNK_VOLUME] }
    }

    /// Flat position of a local coordinate triple in a grid.
    pub fn idx(x: i32, y: i32, z: i32) -> (r: usize)
        requires
            in_chunk(x as int, y as int, z as int),
        ensures
            r == flat_index(x as int, y as int, z as int),
            r < CHUNK_VOLUME,
    {
        proof {
            lemma_flat_index_bounds(x as int, y as int, z as int);
        }
        (x + CHUNK_SIZE_X * (y + CHUNK_SIZE_Y * z)) as usize
    }

    /// Block at a local coordinate; a coordinate outside `[0, size)` on any
    /// axis gives air.
    pub fn get_local(&self, x: i32, y: i32, z: i32) -> (r: Block)
        requires
            self.wf(),
        ensures
            r == self.block_at(x as int, y as int, z as int),
            !in_chunk(x as int, y as int, z as int) ==> r == Block::Air,
    {
        if x < 0 || y < 0 || z < 0 || x >= CHUNK_SIZE_X || y >= CHUNK_SIZE_Y || z >= CHUNK_SIZE_Z {
            return Block::Air;
        }
        self.blocks[Self::idx(x, y, z)]
    }
}

/// World position (in voxels) of the minimum corner of a chunk.
pub open spec fn origin_of(pos: ChunkPos) -> (int, int, int) {
    (pos.x * CHUNK_SIZE_X, pos.y * CHUNK_SIZE_Y, pos.z * CHUNK_SIZE_Z)
}

/// Whether the origin of a chunk is representable as 32-bit coordinates.
pub open spec fn origin_fits(pos: ChunkPos) -> bool {
    let (x, y, z) = origin_of(pos);
    &&& i32::MIN <= x <= i32::MAX
    &&& i32::MIN <= y <= i32::MAX
    &&& i32::MIN <= z <= i32::MAX
}

/// Chunk that holds a world voxel: Euclidean (flooring) division per axis.
pub open spec fn chunk_of_voxel(x: int, y: int, z: int) -> ChunkPos {
    ChunkPos {
        x: (x / CHUNK_SIZE_X as int) as i32,
        y: (y / CHUNK_SIZE_Y as int) as i32,
        z: (z / CHUNK_SIZE_Z as int) as i32,
    }
}

/// World position (in voxels) of the minimum corner of a chunk.
pub fn chunk_origin_world(pos: ChunkPos) -> (r: Point3)
    requires
        origin_fits(pos),
    ensures
        (r.x as int, r.y as int, r.z as int) == origin_of(pos),
{
    Point3 { x: pos.x * CHUNK_SIZE_X, y: pos.y * CHUNK_SIZE_Y, z: pos.z * CHUNK_SIZE_Z }
}

fn floor_div_chunk(v: i32) -> (r: i32)
    ensures
        r as int == v as int / 16,
{
    match v.checked_div_euclid(16) {
        Some(q) => q,
        None => 0,
    }
}

/// Chunk that holds the world voxel `(bx, by, bz)`, the voxel being the floor
/// of a world position. Negative coordinates map downwards: voxel -1 lies in
/// chunk -1.
pub fn world_to_chunk_pos(bx: i32, by: i32, bz: i32) -> (r: ChunkPos)
    ensures
        r == chunk_of_voxel(bx as int, by as int, bz as int),
{
    ChunkPos { x: floor_div_chunk(bx), y: floor_div_chunk(by), z: floor_div_chunk(bz) }
}

/// Going from a chunk to its origin voxel and back yields the same chunk.
pub proof fn lemma_origin_round_trip(c: ChunkPos)
    ensures
        chunk_of_voxel(origin_of(c).0, origin_of(c).1, origin_of(c).2) == c,
{
    assert((c.x * 16) / 16 == c.x) by (nonlinear_arith);
    assert((c.y * 16) / 16 == c.y) by (nonlinear_arith);
    assert((c.z * 16) / 16 == c.z) by (nonlinear_arith);
}

/// A voxel coordinate lies in chunk `c` along an axis exactly when it lies in
/// `[16c, 16c + 16)`; in particular voxels -16..=-1 lie in chunk -1 and
/// voxels -32..=-17 in chunk -2.
pub proof fn lemma_chunk_axis_range(w: int, c: int)
    ensures
        (w / 16 == c) <==> (16 * c <= w < 16 * c + 16),
        -16 <= w <= -1 ==> w / 16 == -1,
        -32 <= w <= -17 ==> w / 16 == -2,
{
    assert((w / 16 == c) <==> (16 * c <= w < 16 * c + 16)) by (nonlinear_arith);
    assert(-16 <= w <= -1 ==> w / 16 == -1) by (nonlinear_arith);
    assert(-32 <= w <= -17 ==> w / 16 == -2) by (nonlinear_arith);
}

} // verus!
