use vstd::prelude::*;

use crate::chunk::{Block, ChunkData, ChunkPos, Point3, grid_block, in_chunk, flat_index, lemma_flat_index_bounds, CHUNK_VOLUME};
use crate::config::{BlocksConfig, Tile};
use crate::faces::{
    ConfigError, FaceDir, dir_offset, effective_block_kind, effective_kind, face_kind,
    face_kind_of, tile_for, tile_of,
};
use crate::quad::{Quad, UnitFace, covers, pt};
use crate::tile::{UvRot, unit_face_rot};
use crate::world::{VoxelWorld, get_block_world};

verus! {

/// Block seen from chunk `pos` at local voxel `(x, y, z)`: inside the chunk
/// it is read from the chunk's own grid `data`, outside from the world store,
/// where a missing chunk reads as air.
pub open spec fn block_near(world: &VoxelWorld, pos: ChunkPos, data: Seq<Block>, x: int, y: int, z: int) -> Block {
    if in_chunk(x, y, z) {
        grid_block(data, x, y, z)
    } else {
        world.block_rel(pos, x, y, z)
    }
}

/// Block seen from chunk `pos` at local voxel `(x, y, z)`.
pub fn get_block(world: &VoxelWorld, pos: ChunkPos, data: &ChunkData, x: i32, y: i32, z: i32) -> (r: Block)
    requires
        world.wf(),
        data.wf(),
    ensures
        r == block_near(world, pos, data.blocks@, x as int, y as int, z as int),
{
    if 0 <= x && x < 16 && 0 <= y && y < 16 && 0 <= z && z < 16 {
        data.get_local(x, y, z)
    } else {
        get_block_world(world, pos, x, y, z)
    }
}

/// The six face directions in the order the per-voxel mesher visits them.
pub open spec fn dir_at(k: int) -> FaceDir {
    if k == 0 {
        FaceDir::PosX
    } else if k == 1 {
        FaceDir::NegX
    } else if k == 2 {
        FaceDir::PosY
    } else if k == 3 {
        FaceDir::NegY
    } else if k == 4 {
        FaceDir::PosZ
    } else {
        FaceDir::NegZ
    }
}

fn dir_from_index(k: usize) -> (r: FaceDir)
    ensures
        r == dir_at(k as int),
{
    if k == 0 {
        FaceDir::PosX
    } else if k == 1 {
        FaceDir::NegX
    } else if k == 2 {
        FaceDir::PosY
    } else if k == 3 {
        FaceDir::NegY
    } else if k == 4 {
        FaceDir::PosZ
    } else {
        FaceDir::NegZ
    }
}

proof fn lemma_voxel_err_sticky(cfg: &BlocksConfig, world: &VoxelWorld, pos: ChunkPos, data: Seq<Block>, x: int, y: int, z: int, k: nat, m: nat)
    requires
        k <= m,
        voxel_faces(cfg, world, pos, data, x, y, z, k) is Err,
    ensures
        voxel_faces(cfg, world, pos, data, x, y, z, m) == voxel_faces(cfg, world, pos, data, x, y, z, k),
    decreases m - k,
{
    if k < m {
        lemma_voxel_err_sticky(cfg, world, pos, data, x, y, z, k, (m - 1) as nat);
    }
}

/// The unit quad on face `dir` of voxel `(x, y, z)`, with its corners in
/// the per-voxel winding table.
pub open spec fn unit_quad(x: int, y: int, z: int, dir: FaceDir, block: Block, tile: Tile) -> Quad {
    let (x0, x1, y0, y1, z0, z1) = (x, x + 1, y, y + 1, z, z + 1);
    let rot = unit_face_rot(dir);
    match dir {
        FaceDir::PosX => Quad { dir, block, tile, rot, plane: x1 as i32, u: y as i32, v: z as i32, w: 1, h: 1,
            p0: pt(x1, y0, z0), p1: pt(x1, y0, z1), p2: pt(x1, y1, z1), p3: pt(x1, y1, z0) },
        FaceDir::NegX => Quad { dir, block, tile, rot, plane: x0 as i32, u: y as i32, v: z as i32, w: 1, h: 1,
            p0: pt(x0, y0, z1), p1: pt(x0, y0, z0), p2: pt(x0, y1, z0), p3: pt(x0, y1, z1) },
        FaceDir::PosY => Quad { dir, block, tile, rot, plane: y1 as i32, u: x as i32, v: z as i32, w: 1, h: 1,
            p0: pt(x0, y1, z0), p1: pt(x1, y1, z0), p2: pt(x1, y1, z1), p3: pt(x0, y1, z1) },
        FaceDir::NegY => Quad { dir, block, tile, rot, plane: y0 as i32, u: x as i32, v: z as i32, w: 1, h: 1,
            p0: pt(x0, y0, z1), p1: pt(x1, y0, z1), p2: pt(x1, y0, z0), p3: pt(x0, y0, z0) },
        FaceDir::PosZ => Quad { dir, block, tile, rot, plane: z1 as i32, u: x as i32, v: y as i32, w: 1, h: 1,
            p0: pt(x1, y0, z1), p1: pt(x0, y0, z1), p2: pt(x0, y1, z1), p3: pt(x1, y1, z1) },
        FaceDir::NegZ => Quad { dir, block, tile, rot, plane: z0 as i32, u: x as i32, v: y as i32, w: 1, h: 1,
            p0: pt(x0, y0, z0), p1: pt(x1, y0, z0), p2: pt(x1, y1, z0), p3: pt(x0, y1, z0) },
    }
}

/// Whether face `dir` of local voxel `(x, y, z)` is drawn: the voxel is
/// solid and the block it looks at is air.
pub open spec fn face_visible(world: &VoxelWorld, pos: ChunkPos, data: Seq<Block>, x: int, y: int, z: int, dir: FaceDir) -> bool {
    let (dx, dy, dz) = dir_offset(dir);
    &&& grid_block(data, x, y, z) != Block::Air
    &&& block_near(world, pos, data, x + dx, y + dy, z + dz) == Block::Air
}

/// Kind a solid voxel is drawn as, from the block directly above it.
pub open spec fn drawn_kind(world: &VoxelWorld, pos: ChunkPos, data: Seq<Block>, x: int, y: int, z: int) -> Block {
    effective_kind(grid_block(data, x, y, z), block_near(world, pos, data, x, y + 1, z) == Block::Air)
}

/// Quads of the first `k` directions of a solid voxel, or the first
/// configuration error met.
pub open spec fn voxel_faces(cfg: &BlocksConfig, world: &VoxelWorld, pos: ChunkPos, data: Seq<Block>, x: int, y: int, z: int, k: nat) -> Result<Seq<Quad>, ConfigError>
    decreases k,
{
    if k == 0 {
        Ok(Seq::empty())
    } else {
        match voxel_faces(cfg, world, pos, data, x, y, z, (k - 1) as nat) {
            Err(e) => Err(e),
            Ok(s) => {
                let dir = dir_at(k - 1);
                if face_visible(world, pos, data, x, y, z, dir) {
                    let eff = drawn_kind(world, pos, data, x, y, z);
                    match tile_of(cfg, eff, face_kind_of(dir)) {
                        Err(e) => Err(e),
                        Ok(t) => Ok(s.push(unit_quad(x, y, z, dir, eff, t))),
                    }
                } else {
                    Ok(s)
                }
            },
        }
    }
}

/// Local coordinates of the `n`-th voxel in mesher order (x fastest, then y,
/// then z).
pub open spec fn voxel_of(n: int) -> (int, int, int) {
    (n % 16, (n / 16) % 16, n / 256)
}

/// Quads of the first `n` voxels in mesher order, or the first
/// configuration error met.
pub open spec fn naive_upto(cfg: &BlocksConfig, world: &VoxelWorld, pos: ChunkPos, data: Seq<Block>, n: nat) -> Result<Seq<Quad>, ConfigError>
    decreases n,
{
    if n == 0 {
        Ok(Seq::empty())
    } else {
        match naive_upto(cfg, world, pos, data, (n - 1) as nat) {
            Err(e) => Err(e),
            Ok(s) => {
                let (x, y, z) = voxel_of(n - 1);
                if grid_block(data, x, y, z) == Block::Air {
                    Ok(s)
                } else {
                    match voxel_faces(cfg, world, pos, data, x, y, z, 6) {
                        Err(e) => Err(e),
                        Ok(f) => Ok(s + f),
                    }
                }
            },
        }
    }
}

/// The per-voxel surface of a chunk: every visible unit face as one quad,
/// voxel by voxel, or the first configuration error met.
pub open spec fn naive_mesh(cfg: &BlocksConfig, world: &VoxelWorld, pos: ChunkPos, data: Seq<Block>) -> Result<Seq<Quad>, ConfigError> {
    naive_upto(cfg, world, pos, data, CHUNK_VOLUME as nat)
}

/// Whether an executable mesh result is the given spec result.
pub open spec fn mesh_result_is(r: Result<Vec<Quad>, ConfigError>, s: Result<Seq<Quad>, ConfigError>) -> bool {
    match (r, s) {
        (Ok(v), Ok(q)) => v@ == q,
        (Err(e), Err(f)) => e == f,
        _ => false,
    }
}

proof fn lemma_naive_err_sticky(cfg: &BlocksConfig, world: &VoxelWorld, pos: ChunkPos, data: Seq<Block>, n: nat, m: nat)
    requires
        n <= m,
        naive_upto(cfg, world, pos, data, n) is Err,
    ensures
        naive_upto(cfg, world, pos, data, m) == naive_upto(cfg, world, pos, data, n),
    decreases m - n,
{
    if n < m {
        lemma_naive_err_sticky(cfg, world, pos, data, n, (m - 1) as nat);
    }
}

/// The unit quad on face `dir` of voxel `(x, y, z)`.
fn push_face(block: Block, tile: Tile, dir: FaceDir, x: i32, y: i32, z: i32) -> (r: Quad)
    requires
        in_chunk(x as int, y as int, z as int),
    ensures
        r == unit_quad(x as int, y as int, z as int, dir, block, tile),
{
    let (x0, x1, y0, y1, z0, z1) = (x, x + 1, y, y + 1, z, z + 1);
    let p = |a: i32, b: i32, c: i32| -> (r: Point3)
        ensures
            r == pt(a as int, b as int, c as int),
        { Point3 { x: a, y: b, z: c } };
    match dir {
        FaceDir::PosX => Quad { dir, block, tile, rot: UvRot::R180, plane: x1, u: y, v: z, w: 1, h: 1,
            p0: p(x1, y0, z0), p1: p(x1, y0, z1), p2: p(x1, y1, z1), p3: p(x1, y1, z0) },
        FaceDir::NegX => Quad { dir, block, tile, rot: UvRot::R180, plane: x0, u: y, v: z, w: 1, h: 1,
            p0: p(x0, y0, z1), p1: p(x0, y0, z0), p2: p(x0, y1, z0), p3: p(x0, y1, z1) },
        FaceDir::PosY => Quad { dir, block, tile, rot: UvRot::R0, plane: y1, u: x, v: z, w: 1, h: 1,
            p0: p(x0, y1, z0), p1: p(x1, y1, z0), p2: p(x1, y1, z1), p3: p(x0, y1, z1) },
        FaceDir::NegY => Quad { dir, block, tile, rot: UvRot::R0, plane: y0, u: x, v: z, w: 1, h: 1,
            p0: p(x0, y0, z1), p1: p(x1, y0, z1), p2: p(x1, y0, z0), p3: p(x0, y0, z0) },
        FaceDir::PosZ => Quad { dir, block, tile, rot: UvRot::R180, plane: z1, u: x, v: y, w: 1, h: 1,
            p0: p(x1, y0, z1), p1: p(x0, y0, z1), p2: p(x0, y1, z1), p3: p(x1, y1, z1) },
        FaceDir::NegZ => Quad { dir, block, tile, rot: UvRot::R180, plane: z0, u: x, v: y, w: 1, h: 1,
            p0: p(x0, y0, z0), p1: p(x1, y0, z0), p2: p(x1, y1, z0), p3: p(x0, y1, z0) },
    }
}

/// Appends the visible faces of solid voxel `(x, y, z)` to `quads`.
fn push_voxel_faces(cfg: &BlocksConfig, world: &VoxelWorld, pos: ChunkPos, data: &ChunkData, x: i32, y: i32, z: i32, quads: &mut Vec<Quad>) -> (r: Result<(), ConfigError>)
    requires
        world.wf(),
        data.wf(),
        in_chunk(x as int, y as int, z as int),
        grid_block(data.blocks@, x as int, y as int, z as int) != Block::Air,
    ensures
        match voxel_faces(cfg, world, pos, data.blocks@, x as int, y as int, z as int, 6) {
            Ok(f) => r is Ok && final(quads)@ == old(quads)@ + f,
            Err(e) => r == Err::<(), ConfigError>(e),
        },
{
    let ghost d = data.blocks@;
    let raw = data.get_local(x, y, z);
    let above = get_block(world, pos, data, x, y + 1, z);
    let block = effective_block_kind(raw, above == Block::Air);
    let mut k: usize = 0;
    while k < 6
        invariant
            0 <= k <= 6,
            world.wf(),
            data.wf(),
            d == data.blocks@,
            in_chunk(x as int, y as int, z as int),
            raw == grid_block(d, x as int, y as int, z as int),
            raw != Block::Air,
            block == drawn_kind(world, pos, d, x as int, y as int, z as int),
            voxel_faces(cfg, world, pos, d, x as int, y as int, z as int, k as nat) is Ok,
            quads@ == old(quads)@ + voxel_faces(cfg, world, pos, d, x as int, y as int, z as int, k as nat).unwrap(),
        decreases 6 - k,
    {
        let dir = dir_from_index(k);
        let (dx, dy, dz): (i32, i32, i32) = match dir {
            FaceDir::PosX => (1, 0, 0),
            FaceDir::NegX => (-1, 0, 0),
            FaceDir::PosY => (0, 1, 0),
            FaceDir::NegY => (0, -1, 0),
            FaceDir::PosZ => (0, 0, 1),
            FaceDir::NegZ => (0, 0, -1),
        };
        let ghost prev = voxel_faces(cfg, world, pos, d, x as int, y as int, z as int, k as nat).unwrap();
        if get_block(world, pos, data, x + dx, y + dy, z + dz) == Block::Air {
            let tile = match tile_for(cfg, block, face_kind(dir)) {
                Ok(t) => t,
                Err(e) => {
                    proof {
                        lemma_voxel_err_sticky(cfg, world, pos, d, x as int, y as int, z as int, (k + 1) as nat, 6);
                    }
                    return Err(e);
                },
            };
            let q = push_face(block, tile, dir, x, y, z);
            quads.push(q);
            assert(quads@ =~= old(quads)@ + prev.push(q));
        }
        k = k + 1;
    }
    Ok(())
}

/// Per-voxel mesh of chunk `chunk_pos` with grid `data`: one unit quad for
/// every face of a solid voxel that looks at air, where voxels outside the
/// chunk are read from the world store (a missing chunk reads as air).
/// Grass under a non-air block is drawn as dirt and dirt under air as grass.
/// A missing tile mapping stops the build with a configuration error.
pub fn build_chunk_mesh_with_neighbors(cfg: &BlocksConfig, world: &VoxelWorld, chunk_pos: ChunkPos, data: &ChunkData) -> (r: Result<Vec<Quad>, ConfigError>)
    requires
        world.wf(),
        data.wf(),
    ensures
        mesh_result_is(r, naive_mesh(cfg, world, chunk_pos, data.blocks@)),
{
    let ghost d = data.blocks@;
    let mut quads: Vec<Quad> = Vec::new();
    let mut n: usize = 0;
    while n < CHUNK_VOLUME
        invariant
            0 <= n <= CHUNK_VOLUME,
            world.wf(),
            data.wf(),
            d == data.blocks@,
            naive_upto(cfg, world, chunk_pos, d, n as nat) is Ok,
            quads@ == naive_upto(cfg, world, chunk_pos, d, n as nat).unwrap(),
        decreases CHUNK_VOLUME - n,
    {
        let x: i32 = (n % 16) as i32;
        let y: i32 = ((n / 16) % 16) as i32;
        let z: i32 = (n / 256) as i32;
        assert(z < 16) by {
            assert(n < 4096);
        }
        let raw = data.get_local(x, y, z);
        if raw != Block::Air {
            match push_voxel_faces(cfg, world, chunk_pos, data, x, y, z, &mut quads) {
                Ok(()) => {},
                Err(e) => {
                    proof {
                        lemma_naive_err_sticky(cfg, world, chunk_pos, d, (n + 1) as nat, CHUNK_VOLUME as nat);
                    }
                    return Err(e);
                },
            }
        }
        n = n + 1;
    }
    Ok(quads)
}


/// Position of a direction in the mesher's visiting order.
pub open spec fn dir_index(dir: FaceDir) -> int {
    match dir {
        FaceDir::PosX => 0,
        FaceDir::NegX => 1,
        FaceDir::PosY => 2,
        FaceDir::NegY => 3,
        FaceDir::PosZ => 4,
        FaceDir::NegZ => 5,
    }
}

/// The quads `s` are unit quads, each covering one visible unit face that
/// satisfies `within`, and every visible face satisfying `within` is
/// covered by exactly one of them.
pub open spec fn unit_cover(world: &VoxelWorld, pos: ChunkPos, data: Seq<Block>, s: Seq<Quad>, within: spec_fn(UnitFace) -> bool) -> bool {
    &&& forall|i: int| 0 <= i < s.len() ==> (#[trigger] s[i]).w == 1 && s[i].h == 1
    &&& forall|i: int, f: UnitFace| 0 <= i < s.len() && #[trigger] covers(s[i], f) ==>
        in_chunk(f.x, f.y, f.z) && face_visible(world, pos, data, f.x, f.y, f.z, f.dir) && within(f)
    &&& forall|f: UnitFace| in_chunk(f.x, f.y, f.z) && face_visible(world, pos, data, f.x, f.y, f.z, f.dir) && within(f)
        ==> exists|i: int| 0 <= i < s.len() && #[trigger] covers(s[i], f)
    &&& forall|i: int, j: int, f: UnitFace| 0 <= i < s.len() && 0 <= j < s.len() && #[trigger] covers(s[i], f) && #[trigger] covers(s[j], f) ==> i == j
}

proof fn lemma_unit_quad_covers(x: int, y: int, z: int, dir: FaceDir, block: Block, tile: Tile, f: UnitFace)
    requires
        in_chunk(x, y, z),
    ensures
        covers(unit_quad(x, y, z, dir, block, tile), f) <==> (f.x == x && f.y == y && f.z == z && f.dir == dir),
        unit_quad(x, y, z, dir, block, tile).w == 1,
        unit_quad(x, y, z, dir, block, tile).h == 1,
{
}

proof fn lemma_voxel_faces_cover(cfg: &BlocksConfig, world: &VoxelWorld, pos: ChunkPos, data: Seq<Block>, x: int, y: int, z: int, k: nat)
    requires
        in_chunk(x, y, z),
        k <= 6,
        voxel_faces(cfg, world, pos, data, x, y, z, k) is Ok,
    ensures
        unit_cover(world, pos, data, voxel_faces(cfg, world, pos, data, x, y, z, k).unwrap(),
            |f: UnitFace| f.x == x && f.y == y && f.z == z && dir_index(f.dir) < k),
    decreases k,
{
    let s = voxel_faces(cfg, world, pos, data, x, y, z, k).unwrap();
    let within = |f: UnitFace| f.x == x && f.y == y && f.z == z && dir_index(f.dir) < k;
    if k == 0 {
        assert forall|f: UnitFace| in_chunk(f.x, f.y, f.z) && face_visible(world, pos, data, f.x, f.y, f.z, f.dir) && within(f)
            implies exists|i: int| 0 <= i < s.len() && #[trigger] covers(s[i], f) by {
            assert(dir_index(f.dir) >= 0);
        }
    } else {
        let k1 = (k - 1) as nat;
        lemma_voxel_faces_cover(cfg, world, pos, data, x, y, z, k1);
        let s0 = voxel_faces(cfg, world, pos, data, x, y, z, k1).unwrap();
        let within0 = |f: UnitFace| f.x == x && f.y == y && f.z == z && dir_index(f.dir) < k1;
        let dir = dir_at(k1 as int);
        assert(dir_index(dir) == k1);
        if face_visible(world, pos, data, x, y, z, dir) {
            let eff = drawn_kind(world, pos, data, x, y, z);
            let t = tile_of(cfg, eff, face_kind_of(dir))->Ok_0;
            let q = unit_quad(x, y, z, dir, eff, t);
            assert(s == s0.push(q));
            assert forall|f: UnitFace| #[trigger] covers(q, f) <==> (f.x == x && f.y == y && f.z == z && f.dir == dir) by {
                lemma_unit_quad_covers(x, y, z, dir, eff, t, f);
            }
            lemma_unit_quad_covers(x, y, z, dir, eff, t, UnitFace { x, y, z, dir });
            assert forall|i: int| 0 <= i < s.len() implies (#[trigger] s[i]).w == 1 && s[i].h == 1 by {
                if i < s0.len() {
                    assert(s[i] == s0[i]);
                }
            }
            assert forall|i: int, f: UnitFace| 0 <= i < s.len() && #[trigger] covers(s[i], f) implies
                in_chunk(f.x, f.y, f.z) && face_visible(world, pos, data, f.x, f.y, f.z, f.dir) && within(f) by {
                if i < s0.len() {
                    assert(s[i] == s0[i]);
                    assert(within0(f));
                }
            }
            assert forall|f: UnitFace| in_chunk(f.x, f.y, f.z) && face_visible(world, pos, data, f.x, f.y, f.z, f.dir) && within(f)
                implies exists|i: int| 0 <= i < s.len() && #[trigger] covers(s[i], f) by {
                if dir_index(f.dir) < k1 {
                    assert(within0(f));
                    let i = choose|i: int| 0 <= i < s0.len() && #[trigger] covers(s0[i], f);
                    assert(s[i] == s0[i]);
                } else {
                    assert(f.dir == dir);
                    assert(covers(s[s0.len() as int], f));
                }
            }
            assert forall|i: int, j: int, f: UnitFace| 0 <= i < s.len() && 0 <= j < s.len() && #[trigger] covers(s[i], f) && #[trigger] covers(s[j], f) implies i == j by {
                if i < s0.len() {
                    assert(s[i] == s0[i]);
                    assert(within0(f));
                }
                if j < s0.len() {
                    assert(s[j] == s0[j]);
                    assert(within0(f));
                }
            }
        } else {
            assert(s == s0);
            assert forall|i: int, f: UnitFace| 0 <= i < s.len() && #[trigger] covers(s[i], f) implies
                in_chunk(f.x, f.y, f.z) && face_visible(world, pos, data, f.x, f.y, f.z, f.dir) && within(f) by {
                assert(within0(f));
            }
            assert forall|f: UnitFace| in_chunk(f.x, f.y, f.z) && face_visible(world, pos, data, f.x, f.y, f.z, f.dir) && within(f)
                implies exists|i: int| 0 <= i < s.len() && #[trigger] covers(s[i], f) by {
                if dir_index(f.dir) < k1 {
                    assert(within0(f));
                } else {
                    assert(f.dir == dir);
                }
            }
        }
    }
}


proof fn lemma_voxel_of(m: int)
    requires
        0 <= m < CHUNK_VOLUME,
    ensures
        in_chunk(voxel_of(m).0, voxel_of(m).1, voxel_of(m).2),
        flat_index(voxel_of(m).0, voxel_of(m).1, voxel_of(m).2) == m,
{
    let x = m % 16;
    let y = (m / 16) % 16;
    let z = m / 256;
    assert(m / 16 == y + 16 * z && 0 <= y < 16 && 0 <= z < 16) by {
        assert(m / 256 == (m / 16) / 16) by {
            vstd::arithmetic::div_mod::lemma_div_denominator(m, 16, 16);
        }
    }
    assert(m == x + 16 * (m / 16));
}

pub proof fn lemma_naive_cover(cfg: &BlocksConfig, world: &VoxelWorld, pos: ChunkPos, data: Seq<Block>, n: nat)
    requires
        n <= CHUNK_VOLUME,
        naive_upto(cfg, world, pos, data, n) is Ok,
    ensures
        unit_cover(world, pos, data, naive_upto(cfg, world, pos, data, n).unwrap(),
            |f: UnitFace| flat_index(f.x, f.y, f.z) < n),
    decreases n,
{
    let s = naive_upto(cfg, world, pos, data, n).unwrap();
    let within = |f: UnitFace| flat_index(f.x, f.y, f.z) < n;
    if n == 0 {
        assert forall|f: UnitFace| in_chunk(f.x, f.y, f.z) && face_visible(world, pos, data, f.x, f.y, f.z, f.dir) && within(f)
            implies exists|i: int| 0 <= i < s.len() && #[trigger] covers(s[i], f) by {
            lemma_flat_index_nonneg(f.x, f.y, f.z);
        }
    } else {
        let n1 = (n - 1) as nat;
        lemma_naive_cover(cfg, world, pos, data, n1);
        let s0 = naive_upto(cfg, world, pos, data, n1).unwrap();
        let within0 = |f: UnitFace| flat_index(f.x, f.y, f.z) < n1;
        let (x, y, z) = voxel_of(n1 as int);
        lemma_voxel_of(n1 as int);
        let at_voxel = |f: UnitFace| f.x == x && f.y == y && f.z == z;
        assert forall|f: UnitFace| in_chunk(f.x, f.y, f.z) implies (within(f) <==> (within0(f) || at_voxel(f))) by {
            lemma_flat_index_inj(f.x, f.y, f.z, x, y, z);
        }
        if grid_block(data, x, y, z) == Block::Air {
            assert(s == s0);
            assert forall|i: int, f: UnitFace| 0 <= i < s.len() && #[trigger] covers(s[i], f) implies
                in_chunk(f.x, f.y, f.z) && face_visible(world, pos, data, f.x, f.y, f.z, f.dir) && within(f) by {
                assert(within0(f));
            }
            assert forall|f: UnitFace| in_chunk(f.x, f.y, f.z) && face_visible(world, pos, data, f.x, f.y, f.z, f.dir) && within(f)
                implies exists|i: int| 0 <= i < s.len() && #[trigger] covers(s[i], f) by {
                if !within0(f) {
                    assert(at_voxel(f));
                }
            }
        } else {
            let fs = voxel_faces(cfg, world, pos, data, x, y, z, 6).unwrap();
            lemma_voxel_faces_cover(cfg, world, pos, data, x, y, z, 6);
            let within1 = |f: UnitFace| f.x == x && f.y == y && f.z == z && dir_index(f.dir) < 6;
            assert(s == s0 + fs);
            let m = s0.len();
            assert forall|i: int| 0 <= i < s.len() implies (#[trigger] s[i]).w == 1 && s[i].h == 1 by {
                if i < m {
                    assert(s[i] == s0[i]);
                } else {
                    assert(s[i] == fs[i - m]);
                }
            }
            assert forall|i: int, f: UnitFace| 0 <= i < s.len() && #[trigger] covers(s[i], f) implies
                in_chunk(f.x, f.y, f.z) && face_visible(world, pos, data, f.x, f.y, f.z, f.dir) && within(f) by {
                if i < m {
                    assert(s[i] == s0[i]);
                    assert(within0(f));
                } else {
                    assert(s[i] == fs[i - m]);
                    assert(covers(fs[i - m], f));
                    assert(within1(f));
                }
            }
            assert forall|f: UnitFace| in_chunk(f.x, f.y, f.z) && face_visible(world, pos, data, f.x, f.y, f.z, f.dir) && within(f)
                implies exists|i: int| 0 <= i < s.len() && #[trigger] covers(s[i], f) by {
                if within0(f) {
                    let i = choose|i: int| 0 <= i < s0.len() && #[trigger] covers(s0[i], f);
                    assert(s[i] == s0[i]);
                } else {
                    assert(at_voxel(f));
                    assert(within1(f));
                    let i = choose|i: int| 0 <= i < fs.len() && #[trigger] covers(fs[i], f);
                    assert(s[i + m] == fs[i]);
                }
            }
            assert forall|i: int, j: int, f: UnitFace| 0 <= i < s.len() && 0 <= j < s.len() && #[trigger] covers(s[i], f) && #[trigger] covers(s[j], f) implies i == j by {
                if i < m {
                    assert(s[i] == s0[i]);
                    assert(within0(f));
                } else {
                    assert(s[i] == fs[i - m]);
                    assert(covers(fs[i - m], f));
                    assert(within1(f));
                }
                if j < m {
                    assert(s[j] == s0[j]);
                    assert(within0(f));
                } else {
                    assert(s[j] == fs[j - m]);
                    assert(covers(fs[j - m], f));
                    assert(within1(f));
                }
                if i >= m && j >= m {
                    assert(covers(fs[i - m], f) && covers(fs[j - m], f));
                }
                if i < m && j >= m {
                    assert(within1(f));
                    lemma_flat_index_inj(f.x, f.y, f.z, x, y, z);
                }
                if j < m && i >= m {
                    lemma_flat_index_inj(f.x, f.y, f.z, x, y, z);
                }
            }
        }
    }
}

proof fn lemma_flat_index_nonneg(x: int, y: int, z: int)
    requires
        in_chunk(x, y, z),
    ensures
        flat_index(x, y, z) >= 0,
{
    lemma_flat_index_bounds(x, y, z);
}

proof fn lemma_flat_index_inj(x: int, y: int, z: int, a: int, b: int, c: int)
    requires
        in_chunk(x, y, z),
        in_chunk(a, b, c),
    ensures
        flat_index(x, y, z) == flat_index(a, b, c) <==> (x == a && y == b && z == c),
{
    if flat_index(x, y, z) == flat_index(a, b, c) {
        assert(x + 16 * y + 256 * z == a + 16 * b + 256 * c);
        assert(z == c) by (nonlinear_arith)
            requires
                x + 16 * y + 256 * z == a + 16 * b + 256 * c,
                0 <= x < 16, 0 <= y < 16, 0 <= z < 16, 0 <= a < 16, 0 <= b < 16, 0 <= c < 16,
        ;
        assert(y == b) by (nonlinear_arith)
            requires
                x + 16 * y == a + 16 * b,
                0 <= x < 16, 0 <= y < 16, 0 <= a < 16, 0 <= b < 16,
        ;
    }
}

} // verus!
