use vstd::prelude::*;

use crate::chunk::{Block, ChunkData, ChunkPos, Point3, grid_block, in_chunk, lemma_flat_index_bounds, CHUNK_VOLUME};
use crate::config::{BlocksConfig, Tile};
use crate::faces::{
    ConfigError, FaceDir, dir_offset, effective_block_kind, face_id, face_identity, face_kind,
    face_kind_of, pack_face_id, tile_for, tile_of,
};
use crate::meshing::{drawn_kind, face_visible, get_block, lemma_naive_cover, naive_mesh};
use crate::quad::{Quad, UnitFace, covered_by, covers, dir_axis, dir_positive, face_at, pt, to_uvd};
use crate::tile::{UvRot, merged_face_rot};
use crate::world::VoxelWorld;

verus! {

/// Voxel coordinates of the point at `d` along `axis` and `(u, v)` on the
/// two other axes (y, z for x; x, z for y; x, y for z).
pub open spec fn axis_xyz(axis: int, u: int, v: int, d: int) -> (int, int, int) {
    if axis == 0 {
        (d, u, v)
    } else if axis == 1 {
        (u, d, v)
    } else {
        (u, v, d)
    }
}

/// The face direction looking towards increasing `axis`.
pub open spec fn pos_dir(axis: int) -> FaceDir {
    if axis == 0 {
        FaceDir::PosX
    } else if axis == 1 {
        FaceDir::PosY
    } else {
        FaceDir::PosZ
    }
}

/// The face direction looking towards decreasing `axis`.
pub open spec fn neg_dir(axis: int) -> FaceDir {
    if axis == 0 {
        FaceDir::NegX
    } else if axis == 1 {
        FaceDir::NegY
    } else {
        FaceDir::NegZ
    }
}

/// Whether face `dir` of local voxel `(x, y, z)` is open within the chunk's
/// own grid: the voxel is solid and the voxel it looks at is air, everything
/// outside the grid counting as air.
pub open spec fn open_face(data: Seq<Block>, x: int, y: int, z: int, dir: FaceDir) -> bool {
    let (dx, dy, dz) = dir_offset(dir);
    &&& grid_block(data, x, y, z) != Block::Air
    &&& grid_block(data, x + dx, y + dy, z + dz) == Block::Air
}

/// The merged quad on plane `d` of `axis` spanning `[u, u + w) x [v, v + h)`,
/// with its corners in the merged-face winding table.
#[verifier::opaque]
pub open spec fn greedy_quad(axis: int, dir: FaceDir, block: Block, tile: Tile, u: int, v: int, d: int, w: int, h: int) -> Quad {
    let c0 = axis_xyz(axis, u, v, d);
    let c1 = axis_xyz(axis, u + w, v, d);
    let c2 = axis_xyz(axis, u + w, v + h, d);
    let c3 = axis_xyz(axis, u, v + h, d);
    let forward = match dir {
        FaceDir::NegX | FaceDir::PosY | FaceDir::NegZ => true,
        _ => false,
    };
    Quad {
        dir,
        block,
        tile,
        rot: merged_face_rot(dir),
        plane: d as i32,
        u: u as i32,
        v: v as i32,
        w: w as i32,
        h: h as i32,
        p0: pt(c0.0, c0.1, c0.2),
        p1: if forward { pt(c1.0, c1.1, c1.2) } else { pt(c3.0, c3.1, c3.2) },
        p2: pt(c2.0, c2.1, c2.2),
        p3: if forward { pt(c3.0, c3.1, c3.2) } else { pt(c1.0, c1.1, c1.2) },
    }
}

/// Identity of an open unit face: the identity of its drawn kind and
/// direction.
pub open spec fn unit_face_identity(cfg: &BlocksConfig, world: &VoxelWorld, pos: ChunkPos, data: Seq<Block>, f: UnitFace) -> Result<u32, ConfigError> {
    face_identity(cfg, drawn_kind(world, pos, data, f.x, f.y, f.z), f.dir)
}

/// Whether unit face `f` could still join quad `k` of `qs` when that quad
/// was emitted: it is open, has the quad's identity, and no quad emitted
/// before it (from index `lo` on) covers it.
pub open spec fn face_free(cfg: &BlocksConfig, world: &VoxelWorld, pos: ChunkPos, data: Seq<Block>, qs: Seq<Quad>, lo: int, k: int, f: UnitFace) -> bool {
    &&& open_face(data, f.x, f.y, f.z, f.dir)
    &&& unit_face_identity(cfg, world, pos, data, f) == Ok::<u32, ConfigError>(pack_face_id(qs[k].tile, qs[k].dir))
    &&& !(exists|k2: int| lo <= k2 < k && #[trigger] covers(qs[k2], f))
}

/// Quad `k` of `qs` is as large as the greedy growth makes it: the face just
/// past the end of its first row, and some face of the row just past its
/// last row, were not free when it was emitted (or the chunk ends there).
pub open spec fn quad_maximal(cfg: &BlocksConfig, world: &VoxelWorld, pos: ChunkPos, data: Seq<Block>, qs: Seq<Quad>, lo: int, k: int) -> bool {
    let q = qs[k];
    &&& (q.u + q.w == 16 || !face_free(cfg, world, pos, data, qs, lo, k, face_at(q, q.u + q.w, q.v as int)))
    &&& (q.v + q.h == 16 || exists|uu: int| q.u <= uu < q.u + q.w
        && !#[trigger] face_free(cfg, world, pos, data, qs, lo, k, face_at(q, uu, q.v + q.h)))
}

/// Quad `k` of `qs` starts at the first free cell in scan order: every open
/// unit face on its plane, looking along its axis, whose cell comes before
/// the quad's first cell (rows first) is covered by a quad emitted before it
/// (from index `lo` on).
pub open spec fn quad_first(data: Seq<Block>, qs: Seq<Quad>, lo: int, k: int) -> bool {
    let q = qs[k];
    forall|g: UnitFace| #![trigger open_face(data, g.x, g.y, g.z, g.dir)] {
        let (d, uu, vv) = to_uvd(dir_axis(g.dir), g.x, g.y, g.z);
        dir_axis(g.dir) == dir_axis(q.dir) && in_chunk(g.x, g.y, g.z) && face_plane(g) == q.plane
            && (vv < q.v || (vv == q.v && uu < q.u)) && open_face(data, g.x, g.y, g.z, g.dir)
    } ==> exists|k2: int| lo <= k2 < k && #[trigger] covers(qs[k2], g)
}

/// What a greedy mesh of chunk `pos` with grid `data` promises:
/// every quad is a well-formed merged rectangle inside the chunk; a unit face
/// of a chunk voxel is covered exactly when it is open, and then by exactly
/// one quad; every unit face a quad covers has the quad's identity; each
/// quad starts at the first face still free in scan order on its plane; and
/// no quad could have grown along its rows or by one more row.
pub open spec fn greedy_mesh_ok(cfg: &BlocksConfig, world: &VoxelWorld, pos: ChunkPos, data: Seq<Block>, quads: Seq<Quad>) -> bool {
    &&& forall|k: int| 0 <= k < quads.len() ==> {
        let q = #[trigger] quads[k];
        &&& 1 <= q.w && 1 <= q.h
        &&& 0 <= q.u && q.u + q.w <= 16
        &&& 0 <= q.v && q.v + q.h <= 16
        &&& 0 <= q.plane <= 16
        &&& q == greedy_quad(dir_axis(q.dir), q.dir, q.block, q.tile, q.u as int, q.v as int, q.plane as int, q.w as int, q.h as int)
        &&& tile_of(cfg, q.block, face_kind_of(q.dir)) == Ok::<Tile, ConfigError>(q.tile)
    }
    &&& forall|f: UnitFace| in_chunk(f.x, f.y, f.z) ==> (open_face(data, f.x, f.y, f.z, f.dir) <==> exists|k: int| 0 <= k < quads.len() && #[trigger] covers(quads[k], f))
    &&& forall|k: int, f: UnitFace| 0 <= k < quads.len() && #[trigger] covers(quads[k], f) ==> in_chunk(f.x, f.y, f.z)
    &&& forall|k1: int, k2: int, f: UnitFace|
        0 <= k1 < quads.len() && 0 <= k2 < quads.len() && #[trigger] covers(quads[k1], f) && #[trigger] covers(quads[k2], f) ==> k1 == k2
    &&& forall|k: int, f: UnitFace| 0 <= k < quads.len() && #[trigger] covers(quads[k], f) ==>
        unit_face_identity(cfg, world, pos, data, f) == Ok::<u32, ConfigError>(pack_face_id(quads[k].tile, quads[k].dir))
    &&& forall|k: int| 0 <= k < quads.len() ==> #[trigger] quad_maximal(cfg, world, pos, data, quads, 0, k)
    &&& forall|k: int| 0 <= k < quads.len() ==> #[trigger] quad_first(data, quads, 0, k)
}


/// One cell of the face mask of a boundary plane.
struct MaskCell {
    visible: bool,
    id: u32,
    block: Block,
    dir: FaceDir,
}

/// The mask cell at `(u, v)` of plane `s` along `axis`: the face between the
/// voxels at `s - 1` and `s`, if exactly one of them is solid.
#[verifier::opaque]
spec fn mask_cell(cfg: &BlocksConfig, world: &VoxelWorld, pos: ChunkPos, data: Seq<Block>, axis: int, s: int, u: int, v: int) -> Result<MaskCell, ConfigError> {
    let (ax, ay, az) = axis_xyz(axis, u, v, s - 1);
    let (bx, by, bz) = axis_xyz(axis, u, v, s);
    let a = grid_block(data, ax, ay, az);
    let b = grid_block(data, bx, by, bz);
    if a != Block::Air && b == Block::Air {
        let dir = pos_dir(axis);
        let eff = drawn_kind(world, pos, data, ax, ay, az);
        match face_identity(cfg, eff, dir) {
            Ok(id) => Ok(MaskCell { visible: true, id, block: eff, dir }),
            Err(e) => Err(e),
        }
    } else if b != Block::Air && a == Block::Air {
        let dir = neg_dir(axis);
        let eff = drawn_kind(world, pos, data, bx, by, bz);
        match face_identity(cfg, eff, dir) {
            Ok(id) => Ok(MaskCell { visible: true, id, block: eff, dir }),
            Err(e) => Err(e),
        }
    } else {
        Ok(MaskCell { visible: false, id: 0, block: Block::Air, dir: FaceDir::PosZ })
    }
}

/// Cell `(u, v)` of a mask.
spec fn cell_at(m: Seq<MaskCell>, u: int, v: int) -> MaskCell {
    m[u + 16 * v]
}

proof fn lemma_mask_cell_visible(cfg: &BlocksConfig, world: &VoxelWorld, pos: ChunkPos, data: Seq<Block>, axis: int, s: int, u: int, v: int)
    requires
        0 <= axis < 3,
    ensures
        match mask_cell(cfg, world, pos, data, axis, s, u, v) {
            Ok(c) => c.visible ==> face_identity(cfg, c.block, c.dir) == Ok::<u32, ConfigError>(c.id) && dir_axis(c.dir) == axis,
            Err(_) => true,
        },
{
    reveal(mask_cell);
}

proof fn lemma_greedy_quad_fields(axis: int, dir: FaceDir, block: Block, tile: Tile, u: int, v: int, d: int, w: int, h: int)
    ensures
        ({
            let q = greedy_quad(axis, dir, block, tile, u, v, d, w, h);
            &&& q.dir == dir
            &&& q.block == block
            &&& q.tile == tile
            &&& q.plane == d as i32
            &&& q.u == u as i32
            &&& q.v == v as i32
            &&& q.w == w as i32
            &&& q.h == h as i32
        }),
{
    reveal(greedy_quad);
}

/// Whether cell `(u, v)` lies in a quad's rectangle.
spec fn in_rect(q: Quad, u: int, v: int) -> bool {
    q.u <= u < q.u + q.w && q.v <= v < q.v + q.h
}

/// A quad emitted for plane `s` of `axis` from the mask `orig`.
spec fn slice_quad_ok(cfg: &BlocksConfig, axis: int, s: int, orig: Seq<MaskCell>, q: Quad) -> bool {
    &&& dir_axis(q.dir) == axis
    &&& q.plane == s
    &&& 1 <= q.w && 1 <= q.h
    &&& 0 <= q.u && q.u + q.w <= 16
    &&& 0 <= q.v && q.v + q.h <= 16
    &&& q == greedy_quad(axis, q.dir, q.block, q.tile, q.u as int, q.v as int, s, q.w as int, q.h as int)
    &&& tile_of(cfg, q.block, face_kind_of(q.dir)) == Ok::<Tile, ConfigError>(q.tile)
    &&& forall|u: int, v: int| #[trigger] in_rect(q, u, v) ==> {
        let c = cell_at(orig, u, v);
        &&& c.visible
        &&& c.id == pack_face_id(q.tile, q.dir)
        &&& c.dir == q.dir
    }
}

/// Whether cell `(u, v)` could still join quad `k` when it was emitted:
/// visible with `k`'s identity and direction, and not taken by one of the
/// quads emitted before it from `base` on.
spec fn cell_free(orig: Seq<MaskCell>, qs: Seq<Quad>, base: int, k: int, u: int, v: int) -> bool {
    let c = cell_at(orig, u, v);
    let q = qs[k];
    &&& c.visible
    &&& c.id == pack_face_id(q.tile, q.dir)
    &&& c.dir == q.dir
    &&& !(exists|k2: int| base <= k2 < k && #[trigger] in_rect(qs[k2], u, v))
}

/// Quad `k` could not grow when it was emitted: the cell right of its first
/// row, and some cell of the row above it, were not free.
spec fn slice_quad_max(orig: Seq<MaskCell>, qs: Seq<Quad>, base: int, k: int) -> bool {
    let q = qs[k];
    &&& (q.u + q.w == 16 || !cell_free(orig, qs, base, k, q.u + q.w, q.v as int))
    &&& (q.v + q.h == 16 || exists|uu: int| q.u <= uu < q.u + q.w && !#[trigger] cell_free(orig, qs, base, k, uu, q.v + q.h))
}

/// Every cell before quad `k`'s first cell in scan order (rows first) was
/// empty or taken by a quad emitted before it from `base` on.
spec fn slice_quad_first(orig: Seq<MaskCell>, qs: Seq<Quad>, base: int, k: int) -> bool {
    let q = qs[k];
    forall|uu: int, vv: int| 0 <= uu < 16 && 0 <= vv < 16 && (vv < q.v || (vv == q.v && uu < q.u)) ==>
        !(#[trigger] cell_at(orig, uu, vv)).visible || exists|k2: int| base <= k2 < k && #[trigger] in_rect(qs[k2], uu, vv)
}

fn axis_uvd_to_xyz(axis: usize, u: i32, v: i32, d: i32) -> (r: (i32, i32, i32))
    ensures
        (r.0 as int, r.1 as int, r.2 as int) == axis_xyz(axis as int, u as int, v as int, d as int),
{
    if axis == 0 {
        (d, u, v)
    } else if axis == 1 {
        (u, d, v)
    } else {
        (u, v, d)
    }
}

fn axis_pos_dir(axis: usize) -> (r: FaceDir)
    ensures
        r == pos_dir(axis as int),
{
    if axis == 0 {
        FaceDir::PosX
    } else if axis == 1 {
        FaceDir::PosY
    } else {
        FaceDir::PosZ
    }
}

fn axis_neg_dir(axis: usize) -> (r: FaceDir)
    ensures
        r == neg_dir(axis as int),
{
    if axis == 0 {
        FaceDir::NegX
    } else if axis == 1 {
        FaceDir::NegY
    } else {
        FaceDir::NegZ
    }
}

/// The face mask of plane `s` along `axis`, cell `(u, v)` at `u + 16 v`.
fn build_mask(cfg: &BlocksConfig, world: &VoxelWorld, pos: ChunkPos, data: &ChunkData, axis: usize, s: i32) -> (r: Result<Vec<MaskCell>, ConfigError>)
    requires
        axis < 3,
        0 <= s <= 16,
        world.wf(),
        data.wf(),
    ensures
        match r {
            Ok(m) => m@.len() == 256 && forall|u: int, v: int| 0 <= u < 16 && 0 <= v < 16 ==>
                mask_cell(cfg, world, pos, data.blocks@, axis as int, s as int, u, v) == Ok::<MaskCell, ConfigError>(#[trigger] cell_at(m@, u, v)),
            Err(e) => exists|u: int, v: int| 0 <= u < 16 && 0 <= v < 16 &&
                #[trigger] mask_cell(cfg, world, pos, data.blocks@, axis as int, s as int, u, v) == Err::<MaskCell, ConfigError>(e),
        },
{
    let ghost d = data.blocks@;
    let mut m: Vec<MaskCell> = Vec::new();
    let mut c: usize = 0;
    while c < 256
        invariant
            0 <= c <= 256,
            m@.len() == c,
            axis < 3,
            0 <= s <= 16,
            world.wf(),
            data.wf(),
            d == data.blocks@,
            forall|i: int| 0 <= i < c ==>
                mask_cell(cfg, world, pos, d, axis as int, s as int, i % 16, i / 16) == Ok::<MaskCell, ConfigError>(#[trigger] m@[i]),
        decreases 256 - c,
    {
        proof {
            reveal(mask_cell);
        }
        let uu: i32 = (c % 16) as i32;
        let vv: i32 = (c / 16) as i32;
        let (ax, ay, az) = axis_uvd_to_xyz(axis, uu, vv, s - 1);
        let (bx, by, bz) = axis_uvd_to_xyz(axis, uu, vv, s);
        let a = data.get_local(ax, ay, az);
        let b = data.get_local(bx, by, bz);
        let cell = if a != Block::Air && b == Block::Air {
            let dir = axis_pos_dir(axis);
            let above = get_block(world, pos, data, ax, ay + 1, az);
            let eff = effective_block_kind(a, above == Block::Air);
            match face_id(cfg, eff, dir) {
                Ok(id) => MaskCell { visible: true, id, block: eff, dir },
                Err(e) => {
                    assert(mask_cell(cfg, world, pos, d, axis as int, s as int, uu as int, vv as int) == Err::<MaskCell, ConfigError>(e));
                    return Err(e);
                },
            }
        } else if b != Block::Air && a == Block::Air {
            let dir = axis_neg_dir(axis);
            let above = get_block(world, pos, data, bx, by + 1, bz);
            let eff = effective_block_kind(b, above == Block::Air);
            match face_id(cfg, eff, dir) {
                Ok(id) => MaskCell { visible: true, id, block: eff, dir },
                Err(e) => {
                    assert(mask_cell(cfg, world, pos, d, axis as int, s as int, uu as int, vv as int) == Err::<MaskCell, ConfigError>(e));
                    return Err(e);
                },
            }
        } else {
            MaskCell { visible: false, id: 0, block: Block::Air, dir: FaceDir::PosZ }
        };
        m.push(cell);
        c = c + 1;
    }
    assert forall|u: int, v: int| 0 <= u < 16 && 0 <= v < 16 implies
        mask_cell(cfg, world, pos, d, axis as int, s as int, u, v) == Ok::<MaskCell, ConfigError>(#[trigger] cell_at(m@, u, v)) by {
        let i = u + 16 * v;
        assert(i % 16 == u && i / 16 == v);
    }
    Ok(m)
}


/// The merged quad for one rectangle of a mask, textured with the atlas cell
/// of `block` for `dir`.
fn emit_greedy_quad(cfg: &BlocksConfig, block: Block, dir: FaceDir, axis: usize, u: i32, v: i32, d: i32, w: i32, h: i32) -> (r: Result<Quad, ConfigError>)
    requires
        axis < 3,
        0 <= u && u + w <= 16,
        0 <= v && v + h <= 16,
        0 <= d <= 16,
        1 <= w && 1 <= h,
    ensures
        match tile_of(cfg, block, face_kind_of(dir)) {
            Ok(t) => r == Ok::<Quad, ConfigError>(greedy_quad(axis as int, dir, block, t, u as int, v as int, d as int, w as int, h as int)),
            Err(e) => r == Err::<Quad, ConfigError>(e),
        },
{
    reveal(greedy_quad);
    let tile = match tile_for(cfg, block, face_kind(dir)) {
        Ok(t) => t,
        Err(e) => {
            return Err(e);
        },
    };
    let c0 = axis_uvd_to_xyz(axis, u, v, d);
    let c1 = axis_uvd_to_xyz(axis, u + w, v, d);
    let c2 = axis_uvd_to_xyz(axis, u + w, v + h, d);
    let c3 = axis_uvd_to_xyz(axis, u, v + h, d);
    let p0 = Point3 { x: c0.0, y: c0.1, z: c0.2 };
    let p1 = Point3 { x: c1.0, y: c1.1, z: c1.2 };
    let p2 = Point3 { x: c2.0, y: c2.1, z: c2.2 };
    let p3 = Point3 { x: c3.0, y: c3.1, z: c3.2 };
    let (rot, forward) = match dir {
        FaceDir::PosX => (UvRot::R180, false),
        FaceDir::NegX => (UvRot::R90, true),
        FaceDir::PosY => (UvRot::R90, true),
        FaceDir::NegY => (UvRot::R180, false),
        FaceDir::PosZ => (UvRot::R90, false),
        FaceDir::NegZ => (UvRot::R180, true),
    };
    let (q1, q3) = if forward { (p1, p3) } else { (p3, p1) };
    Ok(Quad { dir, block, tile, rot, plane: d, u, v, w, h, p0, p1: q1, p2, p3: q3 })
}

/// Whether mask cell `c` can join a rectangle of identity `id` and
/// direction `dir`.
fn cell_matches(c: &MaskCell, id: u32, dir: FaceDir) -> (r: bool)
    ensures
        r == (c.visible && c.id == id && c.dir == dir),
{
    c.visible && c.id == id && c.dir == dir
}

/// Cuts the visible cells of a plane's mask into rectangles, scanning rows
/// (`v`) outer and cells (`u`) inner: from the first visible cell a rectangle
/// grows along `u` while cells match, then along `v` while whole rows match;
/// its cells are cleared and one quad is emitted for it.
#[verifier::rlimit(60)]
fn extract_quads(cfg: &BlocksConfig, axis: usize, s: i32, mask: &mut Vec<MaskCell>, quads: &mut Vec<Quad>)
    requires
        axis < 3,
        0 <= s <= 16,
        old(mask)@.len() == 256,
        forall|i: int| 0 <= i < 256 && (#[trigger] old(mask)@[i]).visible ==> face_identity(cfg, old(mask)@[i].block, old(mask)@[i].dir)
            == Ok::<u32, ConfigError>(old(mask)@[i].id) && dir_axis(old(mask)@[i].dir) == axis,
    ensures
        final(quads)@.len() >= old(quads)@.len(),
        final(quads)@.subrange(0, old(quads)@.len() as int) == old(quads)@,
        forall|k: int| old(quads)@.len() <= k < final(quads)@.len() ==> slice_quad_ok(cfg, axis as int, s as int, old(mask)@, #[trigger] final(quads)@[k]),
        forall|u: int, v: int| 0 <= u < 16 && 0 <= v < 16 ==> (cell_at(old(mask)@, u, v).visible <==>
            exists|k: int| old(quads)@.len() <= k < final(quads)@.len() && #[trigger] in_rect(final(quads)@[k], u, v)),
        forall|k1: int, k2: int, u: int, v: int| old(quads)@.len() <= k1 < final(quads)@.len() && old(quads)@.len() <= k2 < final(quads)@.len()
            && #[trigger] in_rect(final(quads)@[k1], u, v) && #[trigger] in_rect(final(quads)@[k2], u, v) ==> k1 == k2,
        forall|k: int| old(quads)@.len() <= k < final(quads)@.len() ==> #[trigger] slice_quad_max(old(mask)@, final(quads)@, old(quads)@.len() as int, k),
        forall|k: int| old(quads)@.len() <= k < final(quads)@.len() ==> #[trigger] slice_quad_first(old(mask)@, final(quads)@, old(quads)@.len() as int, k),
{
    let ghost orig = mask@;
    let ghost base = quads@.len() as int;
    let ghost start = quads@;
    let mut v: i32 = 0;
    while v < 16
        invariant
            0 <= v <= 16,
            axis < 3,
            0 <= s <= 16,
            mask@.len() == 256,
            orig.len() == 256,
            forall|i: int| 0 <= i < 256 && (#[trigger] orig[i]).visible ==> face_identity(cfg, orig[i].block, orig[i].dir)
                == Ok::<u32, ConfigError>(orig[i].id) && dir_axis(orig[i].dir) == axis,
            forall|i: int| 0 <= i < 256 ==> {
                let m = #[trigger] mask@[i];
                &&& m.id == orig[i].id
                &&& m.block == orig[i].block
                &&& m.dir == orig[i].dir
                &&& (m.visible ==> orig[i].visible)
            },
            0 <= base,
            start.len() == base,
            quads@.len() >= base,
            quads@.subrange(0, base) == start,
            forall|k: int| base <= k < quads@.len() ==> slice_quad_ok(cfg, axis as int, s as int, orig, #[trigger] quads@[k]),
            forall|uu: int, vv: int| 0 <= uu < 16 && 0 <= vv < 16 ==> ((cell_at(orig, uu, vv).visible && !cell_at(mask@, uu, vv).visible) <==>
                exists|k: int| base <= k < quads@.len() && #[trigger] in_rect(quads@[k], uu, vv)),
            forall|k1: int, k2: int, uu: int, vv: int| base <= k1 < quads@.len() && base <= k2 < quads@.len()
                && #[trigger] in_rect(quads@[k1], uu, vv) && #[trigger] in_rect(quads@[k2], uu, vv) ==> k1 == k2,
            forall|k: int| base <= k < quads@.len() ==> #[trigger] slice_quad_max(orig, quads@, base, k),
            forall|k: int| base <= k < quads@.len() ==> #[trigger] slice_quad_first(orig, quads@, base, k),
            forall|uu: int, vv: int| 0 <= uu < 16 && 0 <= vv < v ==> !(#[trigger] cell_at(mask@, uu, vv)).visible,
        decreases 16 - v,
    {
        let mut u: i32 = 0;
        while u < 16
            invariant
                0 <= v < 16,
                0 <= u <= 16,
                axis < 3,
                0 <= s <= 16,
                mask@.len() == 256,
                orig.len() == 256,
                forall|i: int| 0 <= i < 256 && (#[trigger] orig[i]).visible ==> face_identity(cfg, orig[i].block, orig[i].dir)
                    == Ok::<u32, ConfigError>(orig[i].id) && dir_axis(orig[i].dir) == axis,
                forall|i: int| 0 <= i < 256 ==> {
                    let m = #[trigger] mask@[i];
                    &&& m.id == orig[i].id
                    &&& m.block == orig[i].block
                    &&& m.dir == orig[i].dir
                    &&& (m.visible ==> orig[i].visible)
                },
                0 <= base,
                start.len() == base,
                quads@.len() >= base,
                quads@.subrange(0, base) == start,
                forall|k: int| base <= k < quads@.len() ==> slice_quad_ok(cfg, axis as int, s as int, orig, #[trigger] quads@[k]),
                forall|uu: int, vv: int| 0 <= uu < 16 && 0 <= vv < 16 ==> ((cell_at(orig, uu, vv).visible && !cell_at(mask@, uu, vv).visible) <==>
                    exists|k: int| base <= k < quads@.len() && #[trigger] in_rect(quads@[k], uu, vv)),
                forall|k1: int, k2: int, uu: int, vv: int| base <= k1 < quads@.len() && base <= k2 < quads@.len()
                    && #[trigger] in_rect(quads@[k1], uu, vv) && #[trigger] in_rect(quads@[k2], uu, vv) ==> k1 == k2,
                forall|k: int| base <= k < quads@.len() ==> #[trigger] slice_quad_max(orig, quads@, base, k),
                forall|k: int| base <= k < quads@.len() ==> #[trigger] slice_quad_first(orig, quads@, base, k),
                forall|uu: int, vv: int| 0 <= uu < 16 && 0 <= vv < v ==> !(#[trigger] cell_at(mask@, uu, vv)).visible,
                forall|uu: int| 0 <= uu < u ==> !(#[trigger] cell_at(mask@, uu, v as int)).visible,
            decreases 16 - u,
        {
            let i0: usize = (u + v * 16) as usize;
            if !mask[i0].visible {
                u = u + 1;
                continue;
            }
            let id0 = mask[i0].id;
            let blk0 = mask[i0].block;
            let dir0 = mask[i0].dir;

            let mut w: i32 = 1;
            while u + w < 16
                invariant
                    0 <= u < 16,
                    0 <= v < 16,
                    1 <= w,
                    u + w <= 16,
                    mask@.len() == 256,
                    forall|uu: int| u <= uu < u + w ==> {
                        let m = #[trigger] cell_at(mask@, uu, v as int);
                        m.visible && m.id == id0 && m.dir == dir0
                    },
                ensures
                    1 <= w,
                    u + w <= 16,
                    forall|uu: int| u <= uu < u + w ==> {
                        let m = #[trigger] cell_at(mask@, uu, v as int);
                        m.visible && m.id == id0 && m.dir == dir0
                    },
                    u + w == 16 || !{
                        let m = cell_at(mask@, u + w, v as int);
                        m.visible && m.id == id0 && m.dir == dir0
                    },
                decreases 16 - u - w,
            {
                if !cell_matches(&mask[(u + w + v * 16) as usize], id0, dir0) {
                    break;
                }
                w = w + 1;
            }

            let mut h: i32 = 1;
            while v + h < 16
                invariant
                    0 <= u < 16,
                    0 <= v < 16,
                    1 <= w,
                    u + w <= 16,
                    1 <= h,
                    v + h <= 16,
                    mask@.len() == 256,
                    forall|uu: int, vv: int| u <= uu < u + w && v <= vv < v + h ==> {
                        let m = #[trigger] cell_at(mask@, uu, vv);
                        m.visible && m.id == id0 && m.dir == dir0
                    },
                ensures
                    1 <= h,
                    v + h <= 16,
                    forall|uu: int, vv: int| u <= uu < u + w && v <= vv < v + h ==> {
                        let m = #[trigger] cell_at(mask@, uu, vv);
                        m.visible && m.id == id0 && m.dir == dir0
                    },
                    v + h == 16 || exists|uu: int| u <= uu < u + w && !{
                        let m = #[trigger] cell_at(mask@, uu, v + h);
                        m.visible && m.id == id0 && m.dir == dir0
                    },
                decreases 16 - v - h,
            {
                let mut row_ok = true;
                let mut du: i32 = 0;
                while du < w
                    invariant_except_break
                        row_ok,
                    invariant
                        0 <= u < 16,
                        0 <= v < 16,
                        1 <= w,
                        u + w <= 16,
                        1 <= h,
                        v + h < 16,
                        0 <= du <= w,
                        mask@.len() == 256,
                        forall|uu: int| u <= uu < u + du ==> {
                            let m = #[trigger] cell_at(mask@, uu, v + h);
                            m.visible && m.id == id0 && m.dir == dir0
                        },
                    ensures
                        row_ok ==> forall|uu: int| u <= uu < u + w ==> {
                            let m = #[trigger] cell_at(mask@, uu, v + h);
                            m.visible && m.id == id0 && m.dir == dir0
                        },
                        !row_ok ==> 0 <= du < w && !{
                            let m = cell_at(mask@, u + du, v + h);
                            m.visible && m.id == id0 && m.dir == dir0
                        },
                    decreases w - du,
                {
                    if !cell_matches(&mask[(u + du + (v + h) * 16) as usize], id0, dir0) {
                        row_ok = false;
                        break;
                    }
                    du = du + 1;
                }
                if !row_ok {
                    proof {
                        let m = cell_at(mask@, u + du, v + h);
                        assert(u <= u + du < u + w && !(m.visible && m.id == id0 && m.dir == dir0));
                    }
                    break;
                }
                h = h + 1;
            }

            let q = match emit_greedy_quad(cfg, blk0, dir0, axis, u, v, s, w, h) {
                Ok(q) => q,
                Err(_) => {
                    proof {
                        assert(orig[i0 as int].visible);
                    }
                    unreached()
                },
            };

            proof {
                let t = tile_of(cfg, blk0, face_kind_of(dir0))->Ok_0;
                lemma_greedy_quad_fields(axis as int, dir0, blk0, t, u as int, v as int, s as int, w as int, h as int);
            }
            let ghost before = mask@;
            let mut dv: i32 = 0;
            while dv < h
                invariant
                    0 <= u < 16,
                    0 <= v < 16,
                    1 <= w,
                    u + w <= 16,
                    1 <= h,
                    v + h <= 16,
                    0 <= dv <= h,
                    mask@.len() == 256,
                    before.len() == 256,
                    forall|i: int| 0 <= i < 256 ==> {
                        let m = #[trigger] mask@[i];
                        let b = before[i];
                        &&& m.id == b.id
                        &&& m.block == b.block
                        &&& m.dir == b.dir
                        &&& m.visible == (b.visible && !(u <= i % 16 < u + w && v <= i / 16 < v + dv))
                    },
                decreases h - dv,
            {
                let mut du: i32 = 0;
                while du < w
                    invariant
                        0 <= u < 16,
                        0 <= v < 16,
                        1 <= w,
                        u + w <= 16,
                        1 <= h,
                        v + h <= 16,
                        0 <= dv < h,
                        0 <= du <= w,
                        mask@.len() == 256,
                        before.len() == 256,
                        forall|i: int| 0 <= i < 256 ==> {
                            let m = #[trigger] mask@[i];
                            let b = before[i];
                            &&& m.id == b.id
                            &&& m.block == b.block
                            &&& m.dir == b.dir
                            &&& m.visible == (b.visible && !((u <= i % 16 < u + w && v <= i / 16 < v + dv)
                                || (u <= i % 16 < u + du && i / 16 == v + dv)))
                        },
                    decreases w - du,
                {
                    let ii: usize = (u + du + (v + dv) * 16) as usize;
                    mask[ii].visible = false;
                    du = du + 1;
                }
                dv = dv + 1;
            }

            let ghost qs_before = quads@;
            quads.push(q);
            proof {
                let n = quads@.len() - 1;
                assert(quads@ == qs_before.push(q));
                assert(quads@[n] == q);
                assert forall|k: int| 0 <= k < n implies #[trigger] quads@[k] == qs_before[k] by {}
                assert forall|k: int| 0 <= k < base implies #[trigger] quads@.subrange(0, base)[k] == start[k] by {
                    assert(qs_before.subrange(0, base)[k] == start[k]);
                }
                assert(quads@.subrange(0, base) =~= start);
                // the matched rectangle, read in the mask before clearing
                assert forall|uu: int, vv: int| #[trigger] in_rect(q, uu, vv) implies {
                    let b = cell_at(before, uu, vv);
                    b.visible && b.id == id0 && b.dir == dir0
                } by {
                }
                assert(orig[i0 as int].visible);
                assert(face_identity(cfg, blk0, dir0) == Ok::<u32, ConfigError>(id0));
                assert(id0 == pack_face_id(q.tile, dir0));
                assert forall|i: int| 0 <= i < 256 implies {
                    let m = #[trigger] mask@[i];
                    &&& m.id == orig[i].id
                    &&& m.block == orig[i].block
                    &&& m.dir == orig[i].dir
                    &&& (m.visible ==> orig[i].visible)
                } by {
                    assert(mask@[i].id == before[i].id);
                }
                assert forall|uu: int, vv: int| #[trigger] in_rect(q, uu, vv) implies {
                    let c = cell_at(orig, uu, vv);
                    &&& c.visible
                    &&& c.id == pack_face_id(q.tile, q.dir)
                    &&& c.dir == q.dir
                } by {
                    let i = uu + 16 * vv;
                    assert(0 <= i < 256);
                    assert(before[i].visible);
                    assert(before[i].id == orig[i].id);
                }
                assert(slice_quad_ok(cfg, axis as int, s as int, orig, q));
                assert forall|k: int| base <= k < quads@.len() implies slice_quad_ok(cfg, axis as int, s as int, orig, #[trigger] quads@[k]) by {
                    if k < n {
                        assert(quads@[k] == qs_before[k]);
                    }
                }
                assert forall|uu: int, vv: int| 0 <= uu < 16 && 0 <= vv < 16 implies ((cell_at(orig, uu, vv).visible && !cell_at(mask@, uu, vv).visible) <==>
                    exists|k: int| base <= k < quads@.len() && #[trigger] in_rect(quads@[k], uu, vv)) by {
                    let i = uu + 16 * vv;
                    assert(i % 16 == uu && i / 16 == vv);
                    if in_rect(q, uu, vv) {
                        assert(in_rect(quads@[n], uu, vv));
                        assert(before[i].visible);
                    } else {
                        assert(mask@[i].visible == before[i].visible);
                        if exists|k: int| base <= k < quads@.len() && #[trigger] in_rect(quads@[k], uu, vv) {
                            let k = choose|k: int| base <= k < quads@.len() && #[trigger] in_rect(quads@[k], uu, vv);
                            assert(k != n);
                            assert(quads@[k] == qs_before[k]);
                            assert(in_rect(qs_before[k], uu, vv));
                        }
                        if (orig[i].visible && !before[i].visible) {
                            let k = choose|k: int| base <= k < qs_before.len() && #[trigger] in_rect(qs_before[k], uu, vv);
                            assert(quads@[k] == qs_before[k]);
                            assert(in_rect(quads@[k], uu, vv));
                        }
                    }
                }
                assert forall|k1: int, k2: int, uu: int, vv: int| base <= k1 < quads@.len() && base <= k2 < quads@.len()
                    && #[trigger] in_rect(quads@[k1], uu, vv) && #[trigger] in_rect(quads@[k2], uu, vv) implies k1 == k2 by {
                    if k1 != k2 && (k1 == n || k2 == n) {
                        let k = if k1 == n { k2 } else { k1 };
                        assert(quads@[k] == qs_before[k]);
                        assert(in_rect(qs_before[k], uu, vv));
                        assert(in_rect(q, uu, vv));
                        assert(cell_at(before, uu, vv).visible);
                        assert(0 <= uu < 16 && 0 <= vv < 16);
                    } else if k1 != k2 {
                        assert(quads@[k1] == qs_before[k1]);
                        assert(quads@[k2] == qs_before[k2]);
                    }
                }
                // free cells, read in the mask before clearing
                assert forall|uu: int, vv: int| 0 <= uu < 16 && 0 <= vv < 16 implies (#[trigger] cell_free(orig, quads@, base, n, uu, vv) <==> {
                    let b = cell_at(before, uu, vv);
                    b.visible && b.id == id0 && b.dir == dir0
                }) by {
                    if exists|k2: int| base <= k2 < n && #[trigger] in_rect(quads@[k2], uu, vv) {
                        let k2 = choose|k2: int| base <= k2 < n && #[trigger] in_rect(quads@[k2], uu, vv);
                        assert(quads@[k2] == qs_before[k2]);
                        assert(in_rect(qs_before[k2], uu, vv));
                    }
                    if exists|k2: int| base <= k2 < qs_before.len() && #[trigger] in_rect(qs_before[k2], uu, vv) {
                        let k2 = choose|k2: int| base <= k2 < qs_before.len() && #[trigger] in_rect(qs_before[k2], uu, vv);
                        assert(quads@[k2] == qs_before[k2]);
                        assert(in_rect(quads@[k2], uu, vv));
                    }
                    assert(cell_at(before, uu, vv).id == cell_at(orig, uu, vv).id);
                }
                assert(slice_quad_max(orig, quads@, base, n)) by {
                    if u + w < 16 {
                        assert(!cell_free(orig, quads@, base, n, u + w, v as int));
                    }
                    if v + h < 16 {
                        let uu = choose|uu: int| u <= uu < u + w && !{
                            let m = #[trigger] cell_at(before, uu, v + h);
                            m.visible && m.id == id0 && m.dir == dir0
                        };
                        assert(!cell_free(orig, quads@, base, n, uu, v + h));
                    }
                }
                assert forall|k: int| base <= k < quads@.len() implies #[trigger] slice_quad_max(orig, quads@, base, k) by {
                    if k < n {
                        assert(slice_quad_max(orig, qs_before, base, k));
                        assert(quads@[k] == qs_before[k]);
                        assert forall|uu: int, vv: int| #[trigger] cell_free(orig, quads@, base, k, uu, vv) == cell_free(orig, qs_before, base, k, uu, vv) by {
                            if exists|k2: int| base <= k2 < k && #[trigger] in_rect(quads@[k2], uu, vv) {
                                let k2 = choose|k2: int| base <= k2 < k && #[trigger] in_rect(quads@[k2], uu, vv);
                                assert(quads@[k2] == qs_before[k2]);
                                assert(in_rect(qs_before[k2], uu, vv));
                            }
                            if exists|k2: int| base <= k2 < k && #[trigger] in_rect(qs_before[k2], uu, vv) {
                                let k2 = choose|k2: int| base <= k2 < k && #[trigger] in_rect(qs_before[k2], uu, vv);
                                assert(quads@[k2] == qs_before[k2]);
                                assert(in_rect(quads@[k2], uu, vv));
                            }
                        }
                        let qk = quads@[k];
                        if qk.v + qk.h < 16 {
                            let uu = choose|uu: int| qk.u <= uu < qk.u + qk.w && !#[trigger] cell_free(orig, qs_before, base, k, uu, qk.v + qk.h);
                            assert(!cell_free(orig, quads@, base, k, uu, qk.v + qk.h));
                        }
                    }
                }
                assert(slice_quad_first(orig, quads@, base, n)) by {
                    assert forall|uu: int, vv: int| 0 <= uu < 16 && 0 <= vv < 16 && (vv < q.v || (vv == q.v && uu < q.u)) implies
                        !(#[trigger] cell_at(orig, uu, vv)).visible || exists|k2: int| base <= k2 < n && #[trigger] in_rect(quads@[k2], uu, vv) by {
                        assert(!cell_at(before, uu, vv).visible);
                        if cell_at(orig, uu, vv).visible {
                            let k2 = choose|k2: int| base <= k2 < qs_before.len() && #[trigger] in_rect(qs_before[k2], uu, vv);
                            assert(quads@[k2] == qs_before[k2]);
                            assert(in_rect(quads@[k2], uu, vv));
                        }
                    }
                }
                assert forall|k: int| base <= k < quads@.len() implies #[trigger] slice_quad_first(orig, quads@, base, k) by {
                    if k < n {
                        assert(slice_quad_first(orig, qs_before, base, k));
                        assert(quads@[k] == qs_before[k]);
                        let qk = quads@[k];
                        assert forall|uu: int, vv: int| 0 <= uu < 16 && 0 <= vv < 16 && (vv < qk.v || (vv == qk.v && uu < qk.u)) implies
                            !(#[trigger] cell_at(orig, uu, vv)).visible || exists|k2: int| base <= k2 < k && #[trigger] in_rect(quads@[k2], uu, vv) by {
                            if cell_at(orig, uu, vv).visible {
                                let k2 = choose|k2: int| base <= k2 < k && #[trigger] in_rect(qs_before[k2], uu, vv);
                                assert(quads@[k2] == qs_before[k2]);
                                assert(in_rect(quads@[k2], uu, vv));
                            }
                        }
                    }
                }
                assert forall|uu: int, vv: int| 0 <= uu < 16 && 0 <= vv < v implies !(#[trigger] cell_at(mask@, uu, vv)).visible by {
                    let i = uu + 16 * vv;
                    assert(i % 16 == uu && i / 16 == vv);
                    assert(!cell_at(before, uu, vv).visible);
                    assert(mask@[i].visible == (before[i].visible && !(u <= i % 16 < u + w && v <= i / 16 < v + h)));
                }
                assert forall|uu: int| 0 <= uu < u + w implies !(#[trigger] cell_at(mask@, uu, v as int)).visible by {
                    let i = uu + 16 * v;
                    assert(i % 16 == uu && i / 16 == v);
                    if uu < u {
                        assert(!cell_at(before, uu, v as int).visible);
                    }
                    assert(mask@[i].visible == (before[i].visible && !(u <= i % 16 < u + w && v <= i / 16 < v + h)));
                }
            }
            u = u + w;
        }
        v = v + 1;
    }
}


/// Boundary plane (along the face's axis) that a unit face lies on.
pub open spec fn face_plane(f: UnitFace) -> int {
    let (d, _u, _v) = to_uvd(dir_axis(f.dir), f.x, f.y, f.z);
    if dir_positive(f.dir) { d + 1 } else { d }
}

/// The unit face that a visible mask cell stands for.
spec fn cell_face(axis: int, s: int, u: int, v: int, positive: bool) -> UnitFace {
    let (x, y, z) = if positive { axis_xyz(axis, u, v, s - 1) } else { axis_xyz(axis, u, v, s) };
    UnitFace { x, y, z, dir: if positive { pos_dir(axis) } else { neg_dir(axis) } }
}

proof fn lemma_face_cell(cfg: &BlocksConfig, world: &VoxelWorld, pos: ChunkPos, data: Seq<Block>, f: UnitFace)
    ensures
        ({
            let axis = dir_axis(f.dir);
            let (d, uu, vv) = to_uvd(axis, f.x, f.y, f.z);
            let s = face_plane(f);
            &&& f == cell_face(axis, s, uu, vv, dir_positive(f.dir))
            &&& match mask_cell(cfg, world, pos, data, axis, s, uu, vv) {
                Ok(c) => ((c.visible && c.dir == f.dir) <==> open_face(data, f.x, f.y, f.z, f.dir))
                    && (c.visible && c.dir == f.dir ==> unit_face_identity(cfg, world, pos, data, f) == Ok::<u32, ConfigError>(c.id)),
                Err(e) => true,
            }
        }),
{
    reveal(mask_cell);
}

proof fn lemma_cell_err(cfg: &BlocksConfig, world: &VoxelWorld, pos: ChunkPos, data: Seq<Block>, axis: int, s: int, u: int, v: int, e: ConfigError)
    requires
        0 <= axis < 3,
        mask_cell(cfg, world, pos, data, axis, s, u, v) == Err::<MaskCell, ConfigError>(e),
    ensures
        exists|f: UnitFace| in_chunk(f.x, f.y, f.z) && open_face(data, f.x, f.y, f.z, f.dir)
            && unit_face_identity(cfg, world, pos, data, f) == Err::<u32, ConfigError>(e),
{
    reveal(mask_cell);
    let (ax, ay, az) = axis_xyz(axis, u, v, s - 1);
    let a = grid_block(data, ax, ay, az);
    if a != Block::Air {
        let f = cell_face(axis, s, u, v, true);
        assert(in_chunk(f.x, f.y, f.z));
        assert(open_face(data, f.x, f.y, f.z, f.dir));
        assert(unit_face_identity(cfg, world, pos, data, f) == Err::<u32, ConfigError>(e));
    } else {
        let f = cell_face(axis, s, u, v, false);
        assert(in_chunk(f.x, f.y, f.z));
        assert(open_face(data, f.x, f.y, f.z, f.dir));
        assert(unit_face_identity(cfg, world, pos, data, f) == Err::<u32, ConfigError>(e));
    }
}


/// A merged quad of `axis`: a well-formed rectangle on a plane of the chunk,
/// textured with the atlas cell of its block.
pub open spec fn axis_quad_ok(cfg: &BlocksConfig, axis: int, q: Quad) -> bool {
    &&& dir_axis(q.dir) == axis
    &&& 1 <= q.w && 1 <= q.h
    &&& 0 <= q.u && q.u + q.w <= 16
    &&& 0 <= q.v && q.v + q.h <= 16
    &&& 0 <= q.plane <= 16
    &&& q == greedy_quad(axis, q.dir, q.block, q.tile, q.u as int, q.v as int, q.plane as int, q.w as int, q.h as int)
    &&& tile_of(cfg, q.block, face_kind_of(q.dir)) == Ok::<Tile, ConfigError>(q.tile)
}

/// Some open unit face of the chunk whose identity lookup fails with `e`.
pub open spec fn open_face_fails(cfg: &BlocksConfig, world: &VoxelWorld, pos: ChunkPos, data: Seq<Block>, e: ConfigError) -> bool {
    exists|f: UnitFace| in_chunk(f.x, f.y, f.z) && open_face(data, f.x, f.y, f.z, f.dir)
        && unit_face_identity(cfg, world, pos, data, f) == Err::<u32, ConfigError>(e)
}

/// What holds after the mask of plane `s` was cut into quads.
spec fn step_pre(cfg: &BlocksConfig, world: &VoxelWorld, pos: ChunkPos, d: Seq<Block>, axis: int, s: int, base: int, start: Seq<Quad>, qs_before: Seq<Quad>, orig: Seq<MaskCell>, qs: Seq<Quad>) -> bool {
    &&& 0 <= axis < 3
    &&& 0 <= s <= 16
    &&& 0 <= base
    &&& start.len() == base
    &&& qs_before.len() >= base
    &&& qs_before.subrange(0, base) == start
    &&& forall|k: int| base <= k < qs_before.len() ==> axis_quad_ok(cfg, axis, #[trigger] qs_before[k]) && qs_before[k].plane < s
    &&& forall|f: UnitFace| in_chunk(f.x, f.y, f.z) && dir_axis(f.dir) == axis && face_plane(f) < s ==>
        (open_face(d, f.x, f.y, f.z, f.dir) <==> exists|k: int| base <= k < qs_before.len() && #[trigger] covers(qs_before[k], f))
    &&& forall|k: int, f: UnitFace| base <= k < qs_before.len() && #[trigger] covers(qs_before[k], f) ==> in_chunk(f.x, f.y, f.z)
        && unit_face_identity(cfg, world, pos, d, f) == Ok::<u32, ConfigError>(pack_face_id(qs_before[k].tile, qs_before[k].dir))
    &&& forall|k1: int, k2: int, f: UnitFace| base <= k1 < qs_before.len() && base <= k2 < qs_before.len()
        && #[trigger] covers(qs_before[k1], f) && #[trigger] covers(qs_before[k2], f) ==> k1 == k2
    &&& orig.len() == 256
    &&& forall|u: int, v: int| 0 <= u < 16 && 0 <= v < 16 ==>
        mask_cell(cfg, world, pos, d, axis, s, u, v) == Ok::<MaskCell, ConfigError>(#[trigger] cell_at(orig, u, v))
    &&& qs.len() >= qs_before.len()
    &&& qs.subrange(0, qs_before.len() as int) == qs_before
    &&& forall|k: int| qs_before.len() <= k < qs.len() ==> slice_quad_ok(cfg, axis, s, orig, #[trigger] qs[k])
    &&& forall|u: int, v: int| 0 <= u < 16 && 0 <= v < 16 ==> (cell_at(orig, u, v).visible <==>
        exists|k: int| qs_before.len() <= k < qs.len() && #[trigger] in_rect(qs[k], u, v))
    &&& forall|k1: int, k2: int, u: int, v: int| qs_before.len() <= k1 < qs.len() && qs_before.len() <= k2 < qs.len()
        && #[trigger] in_rect(qs[k1], u, v) && #[trigger] in_rect(qs[k2], u, v) ==> k1 == k2
}

proof fn lemma_step_same(cfg: &BlocksConfig, world: &VoxelWorld, pos: ChunkPos, d: Seq<Block>, axis: int, s: int, base: int, start: Seq<Quad>, qs_before: Seq<Quad>, orig: Seq<MaskCell>, qs: Seq<Quad>)
    requires
        step_pre(cfg, world, pos, d, axis, s, base, start, qs_before, orig, qs),
    ensures
        forall|k: int| 0 <= k < qs_before.len() ==> #[trigger] qs[k] == qs_before[k],
{
    let n0 = qs_before.len() as int;
    assert forall|k: int| 0 <= k < n0 implies #[trigger] qs[k] == qs_before[k] by {
        assert(qs.subrange(0, n0)[k] == qs_before[k]);
    }
}

proof fn lemma_step_new_quads(cfg: &BlocksConfig, world: &VoxelWorld, pos: ChunkPos, d: Seq<Block>, axis: int, s: int, base: int, start: Seq<Quad>, qs_before: Seq<Quad>, orig: Seq<MaskCell>, qs: Seq<Quad>)
    requires
        step_pre(cfg, world, pos, d, axis, s, base, start, qs_before, orig, qs),
    ensures
        forall|k: int, f: UnitFace| qs_before.len() <= k < qs.len() && #[trigger] covers(qs[k], f) ==> in_chunk(f.x, f.y, f.z)
            && dir_axis(f.dir) == axis && face_plane(f) == s && open_face(d, f.x, f.y, f.z, f.dir)
            && unit_face_identity(cfg, world, pos, d, f) == Ok::<u32, ConfigError>(pack_face_id(qs[k].tile, qs[k].dir)),
{
    let n0 = qs_before.len() as int;
    assert forall|k: int, f: UnitFace| n0 <= k < qs.len() && #[trigger] covers(qs[k], f) implies in_chunk(f.x, f.y, f.z)
        && dir_axis(f.dir) == axis && face_plane(f) == s && open_face(d, f.x, f.y, f.z, f.dir)
        && unit_face_identity(cfg, world, pos, d, f) == Ok::<u32, ConfigError>(pack_face_id(qs[k].tile, qs[k].dir)) by {
        let q = qs[k];
        assert(slice_quad_ok(cfg, axis, s, orig, q));
        lemma_face_cell(cfg, world, pos, d, f);
        let (dd, uu, vv) = to_uvd(dir_axis(f.dir), f.x, f.y, f.z);
        assert(in_rect(q, uu, vv));
        assert(mask_cell(cfg, world, pos, d, axis, s, uu, vv) == Ok::<MaskCell, ConfigError>(cell_at(orig, uu, vv)));
    }
}

proof fn lemma_step_shape(cfg: &BlocksConfig, world: &VoxelWorld, pos: ChunkPos, d: Seq<Block>, axis: int, s: int, base: int, start: Seq<Quad>, qs_before: Seq<Quad>, orig: Seq<MaskCell>, qs: Seq<Quad>)
    requires
        step_pre(cfg, world, pos, d, axis, s, base, start, qs_before, orig, qs),
    ensures
        qs.len() >= base,
        qs.subrange(0, base) == start,
        forall|k: int| base <= k < qs.len() ==> axis_quad_ok(cfg, axis, #[trigger] qs[k]) && qs[k].plane < s + 1,
{
    let n0 = qs_before.len() as int;
    lemma_step_same(cfg, world, pos, d, axis, s, base, start, qs_before, orig, qs);
    assert forall|k: int| 0 <= k < base implies #[trigger] qs.subrange(0, base)[k] == start[k] by {
        assert(qs_before.subrange(0, base)[k] == start[k]);
    }
    assert(qs.subrange(0, base) =~= start);
    assert forall|k: int| base <= k < qs.len() implies axis_quad_ok(cfg, axis, #[trigger] qs[k]) && qs[k].plane < s + 1 by {
        if k >= n0 {
            assert(slice_quad_ok(cfg, axis, s, orig, qs[k]));
        } else {
            assert(qs[k] == qs_before[k]);
        }
    }
}

proof fn lemma_step_identity(cfg: &BlocksConfig, world: &VoxelWorld, pos: ChunkPos, d: Seq<Block>, axis: int, s: int, base: int, start: Seq<Quad>, qs_before: Seq<Quad>, orig: Seq<MaskCell>, qs: Seq<Quad>)
    requires
        step_pre(cfg, world, pos, d, axis, s, base, start, qs_before, orig, qs),
    ensures
        forall|k: int, f: UnitFace| base <= k < qs.len() && #[trigger] covers(qs[k], f) ==> in_chunk(f.x, f.y, f.z)
            && unit_face_identity(cfg, world, pos, d, f) == Ok::<u32, ConfigError>(pack_face_id(qs[k].tile, qs[k].dir)),
{
    let n0 = qs_before.len() as int;
    lemma_step_same(cfg, world, pos, d, axis, s, base, start, qs_before, orig, qs);
    lemma_step_new_quads(cfg, world, pos, d, axis, s, base, start, qs_before, orig, qs);
    assert forall|k: int, f: UnitFace| base <= k < qs.len() && #[trigger] covers(qs[k], f) implies in_chunk(f.x, f.y, f.z)
        && unit_face_identity(cfg, world, pos, d, f) == Ok::<u32, ConfigError>(pack_face_id(qs[k].tile, qs[k].dir)) by {
        if k < n0 {
            assert(qs[k] == qs_before[k]);
        }
    }
}

proof fn lemma_step_cover(cfg: &BlocksConfig, world: &VoxelWorld, pos: ChunkPos, d: Seq<Block>, axis: int, s: int, base: int, start: Seq<Quad>, qs_before: Seq<Quad>, orig: Seq<MaskCell>, qs: Seq<Quad>)
    requires
        step_pre(cfg, world, pos, d, axis, s, base, start, qs_before, orig, qs),
    ensures
        forall|f: UnitFace| in_chunk(f.x, f.y, f.z) && dir_axis(f.dir) == axis && face_plane(f) < s + 1 ==>
            (open_face(d, f.x, f.y, f.z, f.dir) <==> exists|k: int| base <= k < qs.len() && #[trigger] covers(qs[k], f)),
{
    let n0 = qs_before.len() as int;
    lemma_step_same(cfg, world, pos, d, axis, s, base, start, qs_before, orig, qs);
    lemma_step_new_quads(cfg, world, pos, d, axis, s, base, start, qs_before, orig, qs);
    assert forall|f: UnitFace| in_chunk(f.x, f.y, f.z) && dir_axis(f.dir) == axis && face_plane(f) < s + 1 implies
        (open_face(d, f.x, f.y, f.z, f.dir) <==> exists|k: int| base <= k < qs.len() && #[trigger] covers(qs[k], f)) by {
        if face_plane(f) < s {
            if open_face(d, f.x, f.y, f.z, f.dir) {
                let k = choose|k: int| base <= k < qs_before.len() && #[trigger] covers(qs_before[k], f);
                assert(qs[k] == qs_before[k]);
                assert(covers(qs[k], f));
            }
            if exists|k: int| base <= k < qs.len() && #[trigger] covers(qs[k], f) {
                let k = choose|k: int| base <= k < qs.len() && #[trigger] covers(qs[k], f);
                if k >= n0 {
                    assert(face_plane(f) == s);
                } else {
                    assert(qs[k] == qs_before[k]);
                    assert(covers(qs_before[k], f));
                }
            }
        } else {
            lemma_face_cell(cfg, world, pos, d, f);
            let (dd, uu, vv) = to_uvd(dir_axis(f.dir), f.x, f.y, f.z);
            assert(0 <= uu < 16 && 0 <= vv < 16);
            assert(mask_cell(cfg, world, pos, d, axis, s, uu, vv) == Ok::<MaskCell, ConfigError>(cell_at(orig, uu, vv)));
            if open_face(d, f.x, f.y, f.z, f.dir) {
                assert(cell_at(orig, uu, vv).visible);
                let k = choose|k: int| n0 <= k < qs.len() && #[trigger] in_rect(qs[k], uu, vv);
                assert(slice_quad_ok(cfg, axis, s, orig, qs[k]));
                assert(covers(qs[k], f));
            }
            if exists|k: int| base <= k < qs.len() && #[trigger] covers(qs[k], f) {
                let k = choose|k: int| base <= k < qs.len() && #[trigger] covers(qs[k], f);
                if k < n0 {
                    assert(qs[k] == qs_before[k]);
                }
            }
        }
    }
}

proof fn lemma_step_unique(cfg: &BlocksConfig, world: &VoxelWorld, pos: ChunkPos, d: Seq<Block>, axis: int, s: int, base: int, start: Seq<Quad>, qs_before: Seq<Quad>, orig: Seq<MaskCell>, qs: Seq<Quad>)
    requires
        step_pre(cfg, world, pos, d, axis, s, base, start, qs_before, orig, qs),
    ensures
        forall|k1: int, k2: int, f: UnitFace| base <= k1 < qs.len() && base <= k2 < qs.len()
            && #[trigger] covers(qs[k1], f) && #[trigger] covers(qs[k2], f) ==> k1 == k2,
{
    let n0 = qs_before.len() as int;
    lemma_step_same(cfg, world, pos, d, axis, s, base, start, qs_before, orig, qs);
    lemma_step_new_quads(cfg, world, pos, d, axis, s, base, start, qs_before, orig, qs);
    assert forall|k1: int, k2: int, f: UnitFace| base <= k1 < qs.len() && base <= k2 < qs.len()
        && #[trigger] covers(qs[k1], f) && #[trigger] covers(qs[k2], f) implies k1 == k2 by {
        if k1 < n0 {
            assert(qs[k1] == qs_before[k1]);
        }
        if k2 < n0 {
            assert(qs[k2] == qs_before[k2]);
        }
        if k1 >= n0 && k2 >= n0 {
            let (dd, uu, vv) = to_uvd(dir_axis(f.dir), f.x, f.y, f.z);
            assert(in_rect(qs[k1], uu, vv));
            assert(in_rect(qs[k2], uu, vv));
        }
    }
}

proof fn lemma_free_cell_face(cfg: &BlocksConfig, world: &VoxelWorld, pos: ChunkPos, d: Seq<Block>, axis: int, s: int, base: int, start: Seq<Quad>, qs_before: Seq<Quad>, orig: Seq<MaskCell>, qs: Seq<Quad>, k: int, uu: int, vv: int)
    requires
        step_pre(cfg, world, pos, d, axis, s, base, start, qs_before, orig, qs),
        qs_before.len() <= k < qs.len(),
        0 <= uu < 16,
        0 <= vv < 16,
    ensures
        cell_free(orig, qs, qs_before.len() as int, k, uu, vv) <==> face_free(cfg, world, pos, d, qs, base, k, face_at(qs[k], uu, vv)),
{
    let n0 = qs_before.len() as int;
    let q = qs[k];
    let g = face_at(q, uu, vv);
    lemma_step_same(cfg, world, pos, d, axis, s, base, start, qs_before, orig, qs);
    assert(slice_quad_ok(cfg, axis, s, orig, q));
    lemma_face_cell(cfg, world, pos, d, g);
    assert(to_uvd(dir_axis(g.dir), g.x, g.y, g.z) == (if dir_positive(q.dir) { q.plane - 1 } else { q.plane as int }, uu, vv));
    assert(face_plane(g) == s);
    let c = cell_at(orig, uu, vv);
    assert(mask_cell(cfg, world, pos, d, axis, s, uu, vv) == Ok::<MaskCell, ConfigError>(c));
    if c.visible && c.id == pack_face_id(q.tile, q.dir) && c.dir == q.dir {
        if exists|k2: int| n0 <= k2 < k && #[trigger] in_rect(qs[k2], uu, vv) {
            let k2 = choose|k2: int| n0 <= k2 < k && #[trigger] in_rect(qs[k2], uu, vv);
            assert(slice_quad_ok(cfg, axis, s, orig, qs[k2]));
            assert(covers(qs[k2], g));
        }
        if exists|k2: int| base <= k2 < k && #[trigger] covers(qs[k2], g) {
            let k2 = choose|k2: int| base <= k2 < k && #[trigger] covers(qs[k2], g);
            if k2 < n0 {
                assert(qs[k2] == qs_before[k2]);
            } else {
                assert(slice_quad_ok(cfg, axis, s, orig, qs[k2]));
                assert(in_rect(qs[k2], uu, vv));
            }
        }
    }
}

proof fn lemma_step_max(cfg: &BlocksConfig, world: &VoxelWorld, pos: ChunkPos, d: Seq<Block>, axis: int, s: int, base: int, start: Seq<Quad>, qs_before: Seq<Quad>, orig: Seq<MaskCell>, qs: Seq<Quad>)
    requires
        step_pre(cfg, world, pos, d, axis, s, base, start, qs_before, orig, qs),
        forall|k: int| base <= k < qs_before.len() ==> #[trigger] quad_maximal(cfg, world, pos, d, qs_before, base, k),
        forall|k: int| qs_before.len() <= k < qs.len() ==> #[trigger] slice_quad_max(orig, qs, qs_before.len() as int, k),
    ensures
        forall|k: int| base <= k < qs.len() ==> #[trigger] quad_maximal(cfg, world, pos, d, qs, base, k),
{
    let n0 = qs_before.len() as int;
    lemma_step_same(cfg, world, pos, d, axis, s, base, start, qs_before, orig, qs);
    assert forall|k: int| base <= k < qs.len() implies #[trigger] quad_maximal(cfg, world, pos, d, qs, base, k) by {
        let q = qs[k];
        if k < n0 {
            assert(quad_maximal(cfg, world, pos, d, qs_before, base, k));
            assert(q == qs_before[k]);
            assert forall|f: UnitFace| #[trigger] face_free(cfg, world, pos, d, qs, base, k, f) == face_free(cfg, world, pos, d, qs_before, base, k, f) by {
                if exists|k2: int| base <= k2 < k && #[trigger] covers(qs[k2], f) {
                    let k2 = choose|k2: int| base <= k2 < k && #[trigger] covers(qs[k2], f);
                    assert(qs[k2] == qs_before[k2]);
                    assert(covers(qs_before[k2], f));
                }
                if exists|k2: int| base <= k2 < k && #[trigger] covers(qs_before[k2], f) {
                    let k2 = choose|k2: int| base <= k2 < k && #[trigger] covers(qs_before[k2], f);
                    assert(qs[k2] == qs_before[k2]);
                    assert(covers(qs[k2], f));
                }
            }
            if q.v + q.h < 16 {
                let uu = choose|uu: int| q.u <= uu < q.u + q.w && !#[trigger] face_free(cfg, world, pos, d, qs_before, base, k, face_at(q, uu, q.v + q.h));
                assert(!face_free(cfg, world, pos, d, qs, base, k, face_at(q, uu, q.v + q.h)));
            }
        } else {
            assert(slice_quad_max(orig, qs, n0, k));
            assert(slice_quad_ok(cfg, axis, s, orig, q));
            if q.u + q.w < 16 {
                lemma_free_cell_face(cfg, world, pos, d, axis, s, base, start, qs_before, orig, qs, k, q.u + q.w, q.v as int);
            }
            if q.v + q.h < 16 {
                let uu = choose|uu: int| q.u <= uu < q.u + q.w && !#[trigger] cell_free(orig, qs, n0, k, uu, q.v + q.h);
                lemma_free_cell_face(cfg, world, pos, d, axis, s, base, start, qs_before, orig, qs, k, uu, q.v + q.h);
                assert(!face_free(cfg, world, pos, d, qs, base, k, face_at(q, uu, q.v + q.h)));
            }
        }
    }
}

proof fn lemma_step_first(cfg: &BlocksConfig, world: &VoxelWorld, pos: ChunkPos, d: Seq<Block>, axis: int, s: int, base: int, start: Seq<Quad>, qs_before: Seq<Quad>, orig: Seq<MaskCell>, qs: Seq<Quad>)
    requires
        step_pre(cfg, world, pos, d, axis, s, base, start, qs_before, orig, qs),
        forall|k: int| base <= k < qs_before.len() ==> #[trigger] quad_first(d, qs_before, base, k),
        forall|k: int| qs_before.len() <= k < qs.len() ==> #[trigger] slice_quad_first(orig, qs, qs_before.len() as int, k),
    ensures
        forall|k: int| base <= k < qs.len() ==> #[trigger] quad_first(d, qs, base, k),
{
    let n0 = qs_before.len() as int;
    lemma_step_same(cfg, world, pos, d, axis, s, base, start, qs_before, orig, qs);
    assert forall|k: int| base <= k < qs.len() implies #[trigger] quad_first(d, qs, base, k) by {
        let q = qs[k];
        assert forall|g: UnitFace| #![trigger open_face(d, g.x, g.y, g.z, g.dir)] {
            let (dd, uu, vv) = to_uvd(dir_axis(g.dir), g.x, g.y, g.z);
            dir_axis(g.dir) == dir_axis(q.dir) && in_chunk(g.x, g.y, g.z) && face_plane(g) == q.plane
                && (vv < q.v || (vv == q.v && uu < q.u)) && open_face(d, g.x, g.y, g.z, g.dir)
        } implies exists|k2: int| base <= k2 < k && #[trigger] covers(qs[k2], g) by {
            let (dd, uu, vv) = to_uvd(dir_axis(g.dir), g.x, g.y, g.z);
            if k < n0 {
                assert(quad_first(d, qs_before, base, k));
                assert(q == qs_before[k]);
                let k2 = choose|k2: int| base <= k2 < k && #[trigger] covers(qs_before[k2], g);
                assert(qs[k2] == qs_before[k2]);
                assert(covers(qs[k2], g));
            } else {
                assert(slice_quad_ok(cfg, axis, s, orig, q));
                assert(slice_quad_first(orig, qs, n0, k));
                lemma_face_cell(cfg, world, pos, d, g);
                assert(0 <= uu < 16 && 0 <= vv < 16);
                assert(mask_cell(cfg, world, pos, d, axis, s, uu, vv) == Ok::<MaskCell, ConfigError>(cell_at(orig, uu, vv)));
                assert(cell_at(orig, uu, vv).visible);
                let k2 = choose|k2: int| n0 <= k2 < k && #[trigger] in_rect(qs[k2], uu, vv);
                assert(slice_quad_ok(cfg, axis, s, orig, qs[k2]));
                assert(covers(qs[k2], g));
            }
        }
    }
}

proof fn lemma_slice_step(cfg: &BlocksConfig, world: &VoxelWorld, pos: ChunkPos, d: Seq<Block>, axis: int, s: int, base: int, start: Seq<Quad>, qs_before: Seq<Quad>, orig: Seq<MaskCell>, qs: Seq<Quad>)
    requires
        step_pre(cfg, world, pos, d, axis, s, base, start, qs_before, orig, qs),
    ensures
        qs.len() >= base,
        qs.subrange(0, base) == start,
        forall|k: int| base <= k < qs.len() ==> axis_quad_ok(cfg, axis, #[trigger] qs[k]) && qs[k].plane < s + 1,
        forall|f: UnitFace| in_chunk(f.x, f.y, f.z) && dir_axis(f.dir) == axis && face_plane(f) < s + 1 ==>
            (open_face(d, f.x, f.y, f.z, f.dir) <==> exists|k: int| base <= k < qs.len() && #[trigger] covers(qs[k], f)),
        forall|k: int, f: UnitFace| base <= k < qs.len() && #[trigger] covers(qs[k], f) ==> in_chunk(f.x, f.y, f.z)
            && unit_face_identity(cfg, world, pos, d, f) == Ok::<u32, ConfigError>(pack_face_id(qs[k].tile, qs[k].dir)),
        forall|k1: int, k2: int, f: UnitFace| base <= k1 < qs.len() && base <= k2 < qs.len()
            && #[trigger] covers(qs[k1], f) && #[trigger] covers(qs[k2], f) ==> k1 == k2,
{
    lemma_step_shape(cfg, world, pos, d, axis, s, base, start, qs_before, orig, qs);
    lemma_step_identity(cfg, world, pos, d, axis, s, base, start, qs_before, orig, qs);
    lemma_step_cover(cfg, world, pos, d, axis, s, base, start, qs_before, orig, qs);
    lemma_step_unique(cfg, world, pos, d, axis, s, base, start, qs_before, orig, qs);
}

/// The quads in `[lo, hi)` are the merged faces of `axis`: each is well
/// formed, they cover exactly the open faces looking along `axis`, each at
/// most once, with the identity of the face.
spec fn axis_done(cfg: &BlocksConfig, world: &VoxelWorld, pos: ChunkPos, d: Seq<Block>, axis: int, qs: Seq<Quad>, lo: int, hi: int) -> bool {
    &&& 0 <= lo <= hi <= qs.len()
    &&& forall|k: int| lo <= k < hi ==> axis_quad_ok(cfg, axis, #[trigger] qs[k])
    &&& forall|f: UnitFace| in_chunk(f.x, f.y, f.z) && dir_axis(f.dir) == axis ==>
        (open_face(d, f.x, f.y, f.z, f.dir) <==> exists|k: int| lo <= k < hi && #[trigger] covers(qs[k], f))
    &&& forall|k: int, f: UnitFace| lo <= k < hi && #[trigger] covers(qs[k], f) ==> in_chunk(f.x, f.y, f.z)
        && unit_face_identity(cfg, world, pos, d, f) == Ok::<u32, ConfigError>(pack_face_id(qs[k].tile, qs[k].dir))
    &&& forall|k1: int, k2: int, f: UnitFace| lo <= k1 < hi && lo <= k2 < hi
        && #[trigger] covers(qs[k1], f) && #[trigger] covers(qs[k2], f) ==> k1 == k2
    &&& forall|k: int| lo <= k < hi ==> #[trigger] quad_maximal(cfg, world, pos, d, qs, lo, k)
    &&& forall|k: int| lo <= k < hi ==> #[trigger] quad_first(d, qs, lo, k)
}

/// Greedy meshing of one axis: every boundary plane along `axis`, from 0 to
/// the chunk size inclusive, gets a face mask cut into merged rectangles.
fn greedy_axis(axis: usize, cfg: &BlocksConfig, world: &VoxelWorld, pos: ChunkPos, data: &ChunkData, quads: &mut Vec<Quad>) -> (r: Result<(), ConfigError>)
    requires
        axis < 3,
        world.wf(),
        data.wf(),
    ensures
        match r {
            Ok(()) => {
                &&& final(quads)@.len() >= old(quads)@.len()
                &&& final(quads)@.subrange(0, old(quads)@.len() as int) == old(quads)@
                &&& axis_done(cfg, world, pos, data.blocks@, axis as int, final(quads)@, old(quads)@.len() as int, final(quads)@.len() as int)
            },
            Err(e) => open_face_fails(cfg, world, pos, data.blocks@, e),
        },
{
    let ghost d = data.blocks@;
    let ghost base = quads@.len() as int;
    let ghost start = quads@;
    let mut s: i32 = 0;
    while s <= 16
        invariant
            0 <= s <= 17,
            axis < 3,
            world.wf(),
            data.wf(),
            d == data.blocks@,
            0 <= base,
            start.len() == base,
            quads@.len() >= base,
            quads@.subrange(0, base) == start,
            forall|k: int| base <= k < quads@.len() ==> axis_quad_ok(cfg, axis as int, #[trigger] quads@[k]) && quads@[k].plane < s,
            forall|f: UnitFace| in_chunk(f.x, f.y, f.z) && dir_axis(f.dir) == axis && face_plane(f) < s ==>
                (open_face(d, f.x, f.y, f.z, f.dir) <==> exists|k: int| base <= k < quads@.len() && #[trigger] covers(quads@[k], f)),
            forall|k: int, f: UnitFace| base <= k < quads@.len() && #[trigger] covers(quads@[k], f) ==> in_chunk(f.x, f.y, f.z)
                && unit_face_identity(cfg, world, pos, d, f) == Ok::<u32, ConfigError>(pack_face_id(quads@[k].tile, quads@[k].dir)),
            forall|k1: int, k2: int, f: UnitFace| base <= k1 < quads@.len() && base <= k2 < quads@.len()
                && #[trigger] covers(quads@[k1], f) && #[trigger] covers(quads@[k2], f) ==> k1 == k2,
            forall|k: int| base <= k < quads@.len() ==> #[trigger] quad_maximal(cfg, world, pos, d, quads@, base, k),
            forall|k: int| base <= k < quads@.len() ==> #[trigger] quad_first(d, quads@, base, k),
        decreases 17 - s,
    {
        let mut mask = match build_mask(cfg, world, pos, data, axis, s) {
            Ok(m) => m,
            Err(e) => {
                proof {
                    let (u, v) = choose|u: int, v: int| 0 <= u < 16 && 0 <= v < 16 &&
                        #[trigger] mask_cell(cfg, world, pos, d, axis as int, s as int, u, v) == Err::<MaskCell, ConfigError>(e);
                    lemma_cell_err(cfg, world, pos, d, axis as int, s as int, u, v, e);
                }
                return Err(e);
            },
        };
        let ghost orig = mask@;
        let ghost qs_before = quads@;
        proof {
            assert forall|i: int| 0 <= i < 256 && (#[trigger] orig[i]).visible implies face_identity(cfg, orig[i].block, orig[i].dir)
                == Ok::<u32, ConfigError>(orig[i].id) && dir_axis(orig[i].dir) == axis by {
                let u = i % 16;
                let v = i / 16;
                assert(i == u + 16 * v);
                assert(mask_cell(cfg, world, pos, d, axis as int, s as int, u, v) == Ok::<MaskCell, ConfigError>(cell_at(orig, u, v)));
                lemma_mask_cell_visible(cfg, world, pos, d, axis as int, s as int, u, v);
            }
        }
        extract_quads(cfg, axis, s, &mut mask, quads);
        proof {
            assert(step_pre(cfg, world, pos, d, axis as int, s as int, base, start, qs_before, orig, quads@));
            lemma_slice_step(cfg, world, pos, d, axis as int, s as int, base, start, qs_before, orig, quads@);
            lemma_step_max(cfg, world, pos, d, axis as int, s as int, base, start, qs_before, orig, quads@);
            lemma_step_first(cfg, world, pos, d, axis as int, s as int, base, start, qs_before, orig, quads@);
        }
        s = s + 1;
    }
    proof {
        assert forall|f: UnitFace| in_chunk(f.x, f.y, f.z) && dir_axis(f.dir) == axis implies face_plane(f) < s by {}
        let qs = quads@;
        assert(qs.subrange(0, base) == old(quads)@);
        assert(forall|k: int| base <= k < qs.len() ==> axis_quad_ok(cfg, axis as int, #[trigger] qs[k]));
        assert forall|f: UnitFace| in_chunk(f.x, f.y, f.z) && dir_axis(f.dir) == axis implies
                    (open_face(data.blocks@, f.x, f.y, f.z, f.dir) <==> exists|k: int| base <= k < qs.len() && #[trigger] covers(qs[k], f)) by {
            assert(face_plane(f) < s);
        }
        assert(axis_done(cfg, world, pos, d, axis as int, qs, base, qs.len() as int));
    }
    Ok(())
}


proof fn lemma_axis_done_extend(cfg: &BlocksConfig, world: &VoxelWorld, pos: ChunkPos, d: Seq<Block>, axis: int, qs: Seq<Quad>, qs2: Seq<Quad>, lo: int, hi: int)
    requires
        axis_done(cfg, world, pos, d, axis, qs, lo, hi),
        qs2.len() >= qs.len(),
        qs2.subrange(0, qs.len() as int) == qs,
    ensures
        axis_done(cfg, world, pos, d, axis, qs2, lo, hi),
{
    assert forall|k: int| 0 <= k < qs.len() implies #[trigger] qs2[k] == qs[k] by {
        assert(qs2.subrange(0, qs.len() as int)[k] == qs[k]);
    }
    assert forall|f: UnitFace| in_chunk(f.x, f.y, f.z) && dir_axis(f.dir) == axis implies
        (open_face(d, f.x, f.y, f.z, f.dir) <==> exists|k: int| lo <= k < hi && #[trigger] covers(qs2[k], f)) by {
        if open_face(d, f.x, f.y, f.z, f.dir) {
            let k = choose|k: int| lo <= k < hi && #[trigger] covers(qs[k], f);
            assert(covers(qs2[k], f));
        }
        if exists|k: int| lo <= k < hi && #[trigger] covers(qs2[k], f) {
            let k = choose|k: int| lo <= k < hi && #[trigger] covers(qs2[k], f);
            assert(covers(qs[k], f));
        }
    }
    assert forall|k1: int, k2: int, f: UnitFace| lo <= k1 < hi && lo <= k2 < hi
        && #[trigger] covers(qs2[k1], f) && #[trigger] covers(qs2[k2], f) implies k1 == k2 by {
        assert(covers(qs[k1], f) && covers(qs[k2], f));
    }
    assert forall|k: int| lo <= k < hi implies #[trigger] quad_first(d, qs2, lo, k) by {
        assert(quad_first(d, qs, lo, k));
        lemma_first_same_prefix(d, qs, qs2, lo, k);
    }
    assert forall|k: int| lo <= k < hi implies #[trigger] quad_maximal(cfg, world, pos, d, qs2, lo, k) by {
        assert(quad_maximal(cfg, world, pos, d, qs, lo, k));
        lemma_free_same_prefix(cfg, world, pos, d, qs, qs2, lo, k);
        let q = qs[k];
        if q.v + q.h < 16 {
            let uu = choose|uu: int| q.u <= uu < q.u + q.w && !#[trigger] face_free(cfg, world, pos, d, qs, lo, k, face_at(q, uu, q.v + q.h));
            assert(!face_free(cfg, world, pos, d, qs2, lo, k, face_at(q, uu, q.v + q.h)));
        }
    }
}

proof fn lemma_first_same_prefix(d: Seq<Block>, qs: Seq<Quad>, qs2: Seq<Quad>, lo: int, k: int)
    requires
        0 <= lo,
        0 <= k < qs.len(),
        qs2.len() >= qs.len(),
        forall|j: int| 0 <= j < qs.len() ==> #[trigger] qs2[j] == qs[j],
        quad_first(d, qs, lo, k),
    ensures
        quad_first(d, qs2, lo, k),
{
    let q = qs[k];
    assert(qs2[k] == q);
    assert forall|g: UnitFace| #![trigger open_face(d, g.x, g.y, g.z, g.dir)] {
        let (dd, uu, vv) = to_uvd(dir_axis(g.dir), g.x, g.y, g.z);
        dir_axis(g.dir) == dir_axis(q.dir) && in_chunk(g.x, g.y, g.z) && face_plane(g) == q.plane
            && (vv < q.v || (vv == q.v && uu < q.u)) && open_face(d, g.x, g.y, g.z, g.dir)
    } implies exists|k2: int| lo <= k2 < k && #[trigger] covers(qs2[k2], g) by {
        let k2 = choose|k2: int| lo <= k2 < k && #[trigger] covers(qs[k2], g);
        assert(qs2[k2] == qs[k2]);
    }
}

proof fn lemma_free_same_prefix(cfg: &BlocksConfig, world: &VoxelWorld, pos: ChunkPos, d: Seq<Block>, qs: Seq<Quad>, qs2: Seq<Quad>, lo: int, k: int)
    requires
        0 <= lo,
        0 <= k < qs.len(),
        qs2.len() >= qs.len(),
        forall|j: int| 0 <= j < qs.len() ==> #[trigger] qs2[j] == qs[j],
    ensures
        forall|f: UnitFace| #[trigger] face_free(cfg, world, pos, d, qs2, lo, k, f) == face_free(cfg, world, pos, d, qs, lo, k, f),
{
    assert forall|f: UnitFace| #[trigger] face_free(cfg, world, pos, d, qs2, lo, k, f) == face_free(cfg, world, pos, d, qs, lo, k, f) by {
        assert(qs2[k] == qs[k]);
        if exists|k2: int| lo <= k2 < k && #[trigger] covers(qs2[k2], f) {
            let k2 = choose|k2: int| lo <= k2 < k && #[trigger] covers(qs2[k2], f);
            assert(qs2[k2] == qs[k2]);
            assert(covers(qs[k2], f));
        }
        if exists|k2: int| lo <= k2 < k && #[trigger] covers(qs[k2], f) {
            let k2 = choose|k2: int| lo <= k2 < k && #[trigger] covers(qs[k2], f);
            assert(qs2[k2] == qs[k2]);
            assert(covers(qs2[k2], f));
        }
    }
}

proof fn lemma_free_from_zero(cfg: &BlocksConfig, world: &VoxelWorld, pos: ChunkPos, d: Seq<Block>, qs: Seq<Quad>, lo: int, k: int, axis: int)
    requires
        0 <= lo <= k < qs.len(),
        dir_axis(qs[k].dir) == axis,
        forall|j: int| 0 <= j < lo ==> dir_axis((#[trigger] qs[j]).dir) != axis,
    ensures
        forall|f: UnitFace| f.dir == qs[k].dir ==> #[trigger] face_free(cfg, world, pos, d, qs, 0, k, f) == face_free(cfg, world, pos, d, qs, lo, k, f),
{
    assert forall|f: UnitFace| f.dir == qs[k].dir implies #[trigger] face_free(cfg, world, pos, d, qs, 0, k, f) == face_free(cfg, world, pos, d, qs, lo, k, f) by {
        if exists|k2: int| 0 <= k2 < k && #[trigger] covers(qs[k2], f) {
            let k2 = choose|k2: int| 0 <= k2 < k && #[trigger] covers(qs[k2], f);
            if k2 < lo {
                assert(dir_axis(qs[k2].dir) != axis);
            }
        }
    }
}

proof fn lemma_axes_combine(cfg: &BlocksConfig, world: &VoxelWorld, pos: ChunkPos, d: Seq<Block>, qs: Seq<Quad>, n1: int, n2: int)
    requires
        axis_done(cfg, world, pos, d, 2, qs, 0, n1),
        axis_done(cfg, world, pos, d, 0, qs, n1, n2),
        axis_done(cfg, world, pos, d, 1, qs, n2, qs.len() as int),
    ensures
        greedy_mesh_ok(cfg, world, pos, d, qs),
{
    let n3 = qs.len() as int;
    assert forall|k: int| 0 <= k < n3 implies axis_quad_ok(cfg, dir_axis((#[trigger] qs[k]).dir), qs[k]) by {
        if k < n1 {
            assert(axis_quad_ok(cfg, 2, qs[k]));
        } else if k < n2 {
            assert(axis_quad_ok(cfg, 0, qs[k]));
        } else {
            assert(axis_quad_ok(cfg, 1, qs[k]));
        }
    }
    assert forall|f: UnitFace| in_chunk(f.x, f.y, f.z) implies (open_face(d, f.x, f.y, f.z, f.dir) <==> exists|k: int| 0 <= k < qs.len() && #[trigger] covers(qs[k], f)) by {
        let a = dir_axis(f.dir);
        let (lo, hi) = if a == 2 { (0, n1) } else if a == 0 { (n1, n2) } else { (n2, n3) };
        assert(open_face(d, f.x, f.y, f.z, f.dir) <==> exists|k: int| lo <= k < hi && #[trigger] covers(qs[k], f));
        if exists|k: int| 0 <= k < qs.len() && #[trigger] covers(qs[k], f) {
            let k = choose|k: int| 0 <= k < qs.len() && #[trigger] covers(qs[k], f);
            if k < n1 {
                assert(axis_quad_ok(cfg, 2, qs[k]));
            } else if k < n2 {
                assert(axis_quad_ok(cfg, 0, qs[k]));
            } else {
                assert(axis_quad_ok(cfg, 1, qs[k]));
            }
        }
    }
    assert forall|k: int, f: UnitFace| 0 <= k < qs.len() && #[trigger] covers(qs[k], f) implies in_chunk(f.x, f.y, f.z)
        && unit_face_identity(cfg, world, pos, d, f) == Ok::<u32, ConfigError>(pack_face_id(qs[k].tile, qs[k].dir)) by {
        if k < n1 {
        } else if k < n2 {
        } else {
        }
    }
    assert forall|k1: int, k2: int, f: UnitFace| 0 <= k1 < qs.len() && 0 <= k2 < qs.len()
        && #[trigger] covers(qs[k1], f) && #[trigger] covers(qs[k2], f) implies k1 == k2 by {
        let a1 = if k1 < n1 { 2int } else if k1 < n2 { 0int } else { 1int };
        let a2 = if k2 < n1 { 2int } else if k2 < n2 { 0int } else { 1int };
        assert(axis_quad_ok(cfg, a1, qs[k1]));
        assert(axis_quad_ok(cfg, a2, qs[k2]));
    }
    assert forall|k: int| 0 <= k < qs.len() implies #[trigger] quad_maximal(cfg, world, pos, d, qs, 0, k) by {
        let (lo, a) = if k < n1 { (0int, 2int) } else if k < n2 { (n1, 0int) } else { (n2, 1int) };
        assert(quad_maximal(cfg, world, pos, d, qs, lo, k));
        assert(axis_quad_ok(cfg, a, qs[k]));
        assert forall|j: int| 0 <= j < lo implies dir_axis((#[trigger] qs[j]).dir) != a by {
            if j < n1 {
                assert(axis_quad_ok(cfg, 2, qs[j]));
            } else {
                assert(axis_quad_ok(cfg, 0, qs[j]));
            }
        }
        lemma_free_from_zero(cfg, world, pos, d, qs, lo, k, a);
        let q = qs[k];
        if q.u + q.w < 16 {
            assert(face_at(q, q.u + q.w, q.v as int).dir == q.dir);
        }
        if q.v + q.h < 16 {
            let uu = choose|uu: int| q.u <= uu < q.u + q.w && !#[trigger] face_free(cfg, world, pos, d, qs, lo, k, face_at(q, uu, q.v + q.h));
            assert(face_at(q, uu, q.v + q.h).dir == q.dir);
            assert(!face_free(cfg, world, pos, d, qs, 0, k, face_at(q, uu, q.v + q.h)));
        }
    }
    assert forall|k: int| 0 <= k < qs.len() implies #[trigger] quad_first(d, qs, 0, k) by {
        let (lo, a) = if k < n1 { (0int, 2int) } else if k < n2 { (n1, 0int) } else { (n2, 1int) };
        assert(quad_first(d, qs, lo, k));
        assert(axis_quad_ok(cfg, a, qs[k]));
        let q = qs[k];
        assert forall|g: UnitFace| #![trigger open_face(d, g.x, g.y, g.z, g.dir)] {
            let (dd, uu, vv) = to_uvd(dir_axis(g.dir), g.x, g.y, g.z);
            dir_axis(g.dir) == dir_axis(q.dir) && in_chunk(g.x, g.y, g.z) && face_plane(g) == q.plane
                && (vv < q.v || (vv == q.v && uu < q.u)) && open_face(d, g.x, g.y, g.z, g.dir)
        } implies exists|k2: int| 0 <= k2 < k && #[trigger] covers(qs[k2], g) by {
            let k2 = choose|k2: int| lo <= k2 < k && #[trigger] covers(qs[k2], g);
        }
    }
}

/// Greedy mesh of chunk `chunk_pos` with grid `data`. The three axes are
/// swept in turn (z, then x, then y); on every boundary plane the faces
/// between a solid voxel and air, with the chunk's outside counting as air,
/// are merged into rectangles of equal face identity. Each quad carries one
/// atlas cell stretched over the whole rectangle. A missing tile mapping
/// stops the build with the configuration error of some open face.
pub fn build_chunk_mesh_greedy_all_axes(cfg: &BlocksConfig, world: &VoxelWorld, chunk_pos: ChunkPos, data: &ChunkData) -> (r: Result<Vec<Quad>, ConfigError>)
    requires
        world.wf(),
        data.wf(),
    ensures
        match r {
            Ok(qs) => greedy_mesh_ok(cfg, world, chunk_pos, data.blocks@, qs@),
            Err(e) => open_face_fails(cfg, world, chunk_pos, data.blocks@, e),
        },
{
    let ghost d = data.blocks@;
    let mut quads: Vec<Quad> = Vec::new();
    greedy_axis(2, cfg, world, chunk_pos, data, &mut quads)?;
    let ghost q1 = quads@;
    let n1 = quads.len();
    greedy_axis(0, cfg, world, chunk_pos, data, &mut quads)?;
    let ghost q2 = quads@;
    let n2 = quads.len();
    greedy_axis(1, cfg, world, chunk_pos, data, &mut quads)?;
    proof {
        lemma_axis_done_extend(cfg, world, chunk_pos, d, 2, q1, q2, 0, n1 as int);
        lemma_axis_done_extend(cfg, world, chunk_pos, d, 2, q2, quads@, 0, n1 as int);
        lemma_axis_done_extend(cfg, world, chunk_pos, d, 0, q2, quads@, n1 as int, n2 as int);
        lemma_axes_combine(cfg, world, chunk_pos, d, quads@, n1 as int, n2 as int);
    }
    Ok(quads)
}


/// Every face of a solid voxel that looks out of the chunk looks at air in
/// the world: the neighbour chunks hide none of the chunk's boundary faces.
pub open spec fn boundary_clear(world: &VoxelWorld, pos: ChunkPos, data: Seq<Block>) -> bool {
    forall|f: UnitFace| #![trigger open_face(data, f.x, f.y, f.z, f.dir)]
        in_chunk(f.x, f.y, f.z) && grid_block(data, f.x, f.y, f.z) != Block::Air && !in_chunk(
            f.x + dir_offset(f.dir).0,
            f.y + dir_offset(f.dir).1,
            f.z + dir_offset(f.dir).2,
        ) ==> world.block_rel(pos, f.x + dir_offset(f.dir).0, f.y + dir_offset(f.dir).1, f.z + dir_offset(f.dir).2) == Block::Air
}

/// When the neighbour chunks hide none of a chunk's boundary faces, the
/// per-voxel mesh and the greedy mesh of the chunk show the same unit faces:
/// a unit face is covered by a quad of one exactly when it is covered by a
/// quad of the other, and by one quad only in each.
pub proof fn lemma_naive_greedy_same_faces(cfg: &BlocksConfig, world: &VoxelWorld, pos: ChunkPos, data: Seq<Block>, naive: Seq<Quad>, greedy: Seq<Quad>)
    requires
        naive_mesh(cfg, world, pos, data) == Ok::<Seq<Quad>, ConfigError>(naive),
        greedy_mesh_ok(cfg, world, pos, data, greedy),
        boundary_clear(world, pos, data),
    ensures
        forall|f: UnitFace| #![trigger covered_by(naive, f)] #![trigger covered_by(greedy, f)]
            covered_by(naive, f) <==> covered_by(greedy, f),
        forall|k1: int, k2: int, f: UnitFace| 0 <= k1 < naive.len() && 0 <= k2 < naive.len()
            && #[trigger] covers(naive[k1], f) && #[trigger] covers(naive[k2], f) ==> k1 == k2,
        forall|k1: int, k2: int, f: UnitFace| 0 <= k1 < greedy.len() && 0 <= k2 < greedy.len()
            && #[trigger] covers(greedy[k1], f) && #[trigger] covers(greedy[k2], f) ==> k1 == k2,
        forall|k: int| 0 <= k < naive.len() ==> (#[trigger] naive[k]).w == 1 && naive[k].h == 1,
{
    lemma_naive_cover(cfg, world, pos, data, CHUNK_VOLUME as nat);
    assert forall|f: UnitFace| #![trigger covered_by(naive, f)] #![trigger covered_by(greedy, f)]
        covered_by(naive, f) <==> covered_by(greedy, f) by {
        if in_chunk(f.x, f.y, f.z) {
            lemma_flat_index_bounds(f.x, f.y, f.z);
            let (dx, dy, dz) = dir_offset(f.dir);
            if grid_block(data, f.x, f.y, f.z) != Block::Air && !in_chunk(f.x + dx, f.y + dy, f.z + dz) {
                assert(open_face(data, f.x, f.y, f.z, f.dir));
            }
            assert(face_visible(world, pos, data, f.x, f.y, f.z, f.dir) == open_face(data, f.x, f.y, f.z, f.dir));
        } else {
            if exists|k: int| 0 <= k < naive.len() && #[trigger] covers(naive[k], f) {
                let k = choose|k: int| 0 <= k < naive.len() && #[trigger] covers(naive[k], f);
            }
            if exists|k: int| 0 <= k < greedy.len() && #[trigger] covers(greedy[k], f) {
                let k = choose|k: int| 0 <= k < greedy.len() && #[trigger] covers(greedy[k], f);
            }
        }
    }
}

} // verus!
