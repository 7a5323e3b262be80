use vstd::prelude::*;

use crate::chunk::{ChunkPos, Point3};
use crate::config::{BlocksConfig, Tile};
use crate::faces::{ConfigError, dir_offset, face_normal};
use crate::meshing::{build_chunk_mesh_with_neighbors, naive_mesh};
use crate::quad::Quad;
use crate::tile::{UvCorner, rotated_corners, uv_corners};
use crate::world::VoxelWorld;

verus! {

/// The freshly built surface of one chunk.
pub struct ChunkMesh {
    pub pos: ChunkPos,
    pub quads: Vec<Quad>,
}

/// Meshes every dirty chunk of the world with the per-voxel mesher, reading
/// neighbour grids from the world as it stands, and then clears the dirty
/// marks. A configuration error leaves every mark in place.
pub fn remesh_dirty_chunks(cfg: &BlocksConfig, world: &mut VoxelWorld) -> (r: Result<Vec<ChunkMesh>, ConfigError>)
    requires
        old(world).wf(),
    ensures
        final(world).wf(),
        match r {
            Ok(meshes) => {
                &&& forall|k: int| 0 <= k < meshes@.len() ==> {
                    let m = #[trigger] meshes@[k];
                    &&& old(world).has(m.pos)
                    &&& old(world).chunk(m.pos).dirty
                    &&& naive_mesh(cfg, old(world), m.pos, old(world).chunk(m.pos).data.blocks@) == Ok::<Seq<Quad>, ConfigError>(m.quads@)
                }
                &&& forall|p: ChunkPos| old(world).has(p) && #[trigger] old(world).chunk(p).dirty ==> exists|k: int| 0 <= k < meshes@.len() && meshes@[k].pos == p
                &&& final(world).chunks@.len() == old(world).chunks@.len()
                &&& forall|i: int| 0 <= i < final(world).chunks@.len() ==> {
                    let c = #[trigger] final(world).chunks@[i];
                    let o = old(world).chunks@[i];
                    &&& c.pos == o.pos
                    &&& c.data == o.data
                    &&& c.modified == o.modified
                    &&& !c.dirty
                }
            },
            Err(e) => {
                &&& *final(world) == *old(world)
                &&& exists|p: ChunkPos| old(world).has(p) && old(world).chunk(p).dirty
                    && #[trigger] naive_mesh(cfg, old(world), p, old(world).chunk(p).data.blocks@) == Err::<Seq<Quad>, ConfigError>(e)
            },
        },
{
    let ghost w0 = *world;
    let n = world.chunks.len();
    let mut meshes: Vec<ChunkMesh> = Vec::new();
    let mut i: usize = 0;
    while i < n
        invariant
            0 <= i <= n,
            n == world.chunks@.len(),
            world.wf(),
            *world == w0,
            forall|k: int| 0 <= k < meshes@.len() ==> {
                let m = #[trigger] meshes@[k];
                &&& w0.has(m.pos)
                &&& w0.chunk(m.pos).dirty
                &&& naive_mesh(cfg, &w0, m.pos, w0.chunk(m.pos).data.blocks@) == Ok::<Seq<Quad>, ConfigError>(m.quads@)
            },
            forall|j: int| 0 <= j < i && (#[trigger] w0.chunks@[j]).dirty ==> exists|k: int| 0 <= k < meshes@.len() && meshes@[k].pos == w0.chunks@[j].pos,
        decreases n - i,
    {
        if world.chunks[i].dirty {
            proof {
                world.lemma_slot(i as int);
            }
            let ghost before = meshes@;
            match build_chunk_mesh_with_neighbors(cfg, world, world.chunks[i].pos, &world.chunks[i].data) {
                Ok(quads) => {
                    meshes.push(ChunkMesh { pos: world.chunks[i].pos, quads });
                    proof {
                        assert forall|j: int| 0 <= j < i + 1 && (#[trigger] w0.chunks@[j]).dirty implies exists|k: int| 0 <= k < meshes@.len() && meshes@[k].pos == w0.chunks@[j].pos by {
                            if j < i {
                                let k = choose|k: int| 0 <= k < before.len() && before[k].pos == w0.chunks@[j].pos;
                                assert(meshes@[k] == before[k]);
                            } else {
                                assert(meshes@[before.len() as int].pos == w0.chunks@[j].pos);
                            }
                        }
                    }
                },
                Err(e) => {
                    return Err(e);
                },
            }
        }
        i = i + 1;
    }
    let mut t: usize = 0;
    while t < n
        invariant
            0 <= t <= n,
            n == w0.chunks@.len(),
            world.chunks@.len() == n,
            w0.wf(),
            forall|i: int| 0 <= i < n ==> {
                let c = #[trigger] world.chunks@[i];
                let o = w0.chunks@[i];
                &&& c.pos == o.pos
                &&& c.data == o.data
                &&& c.modified == o.modified
                &&& c.dirty == (o.dirty && i >= t)
            },
        decreases n - t,
    {
        world.chunks[t].dirty = false;
        t = t + 1;
    }
    proof {
        let s = world.chunks@;
        assert forall|a: int, b: int| 0 <= a < s.len() && 0 <= b < s.len() && a != b implies s[a].pos != s[b].pos by {
            assert(s[a].pos == w0.chunks@[a].pos);
            assert(s[b].pos == w0.chunks@[b].pos);
        }
        assert forall|a: int| 0 <= a < s.len() implies (#[trigger] s[a]).data.wf() by {
            assert(s[a].data == w0.chunks@[a].data);
        }
        assert forall|p: ChunkPos| w0.has(p) && #[trigger] w0.chunk(p).dirty implies exists|k: int| 0 <= k < meshes@.len() && meshes@[k].pos == p by {
            let j = w0.slot(p);
            w0.lemma_slot(j);
            assert(w0.chunks@[j].dirty);
        }
    }
    Ok(meshes)
}

/// Vertex and index buffers of a list of quads: four vertices per quad
/// (position, outward normal, atlas cell and UV corner) and two
/// counter-clockwise triangles, `0,2,1` and `0,3,2` of its vertices.
pub struct MeshBuffers {
    pub positions: Vec<Point3>,
    pub normals: Vec<Point3>,
    pub uv_tiles: Vec<Tile>,
    pub uv_corners: Vec<UvCorner>,
    pub indices: Vec<u32>,
}

/// Corner `j` of a quad.
pub open spec fn quad_corner(q: Quad, j: int) -> Point3 {
    if j == 0 {
        q.p0
    } else if j == 1 {
        q.p1
    } else if j == 2 {
        q.p2
    } else {
        q.p3
    }
}

/// Offset, within one quad's four vertices, of index `j` of its two triangles.
pub open spec fn tri_offset(j: int) -> int {
    if j == 0 || j == 3 {
        0
    } else if j == 1 || j == 5 {
        2
    } else if j == 2 {
        1
    } else {
        3
    }
}

/// Element `j` of the group of `n` entries that quad `k` owns in a buffer.
pub open spec fn group_at<T>(s: Seq<T>, n: int, k: int, j: int) -> T {
    s[n * k + j]
}

/// Vertex `j` of quad `q`, the `k`-th quad, is written in the four vertex
/// buffers.
pub open spec fn vertex_ok(positions: Seq<Point3>, normals: Seq<Point3>, tiles: Seq<Tile>, corners: Seq<UvCorner>, q: Quad, k: int, j: int) -> bool {
    let nv = group_at(normals, 4, k, j);
    &&& group_at(positions, 4, k, j) == quad_corner(q, j)
    &&& (nv.x as int, nv.y as int, nv.z as int) == dir_offset(q.dir)
    &&& group_at(tiles, 4, k, j) == q.tile
    &&& group_at(corners, 4, k, j) == rotated_corners(q.rot)[j]
}

/// Flattens quads into vertex and index buffers.
pub fn mesh_buffers(quads: &Vec<Quad>) -> (r: MeshBuffers)
    requires
        quads@.len() * 4 <= u32::MAX,
    ensures
        r.positions@.len() == 4 * quads@.len(),
        r.normals@.len() == 4 * quads@.len(),
        r.uv_tiles@.len() == 4 * quads@.len(),
        r.uv_corners@.len() == 4 * quads@.len(),
        r.indices@.len() == 6 * quads@.len(),
        forall|k: int, j: int| 0 <= k < quads@.len() && 0 <= j < 4 ==> #[trigger] vertex_ok(r.positions@, r.normals@, r.uv_tiles@, r.uv_corners@, quads@[k], k, j),
        forall|k: int, j: int| 0 <= k < quads@.len() && 0 <= j < 6 ==>
            #[trigger] group_at(r.indices@, 6, k, j) == 4 * k + tri_offset(j),
{
    let mut positions: Vec<Point3> = Vec::new();
    let mut normals: Vec<Point3> = Vec::new();
    let mut uv_tiles: Vec<Tile> = Vec::new();
    let mut corners: Vec<UvCorner> = Vec::new();
    let mut indices: Vec<u32> = Vec::new();
    let n = quads.len();
    let mut k: usize = 0;
    while k < n
        invariant
            0 <= k <= n,
            n == quads@.len(),
            n * 4 <= u32::MAX,
            positions@.len() == 4 * k,
            normals@.len() == 4 * k,
            uv_tiles@.len() == 4 * k,
            corners@.len() == 4 * k,
            indices@.len() == 6 * k,
            forall|k2: int, j: int| 0 <= k2 < k && 0 <= j < 4 ==> #[trigger] vertex_ok(positions@, normals@, uv_tiles@, corners@, quads@[k2], k2, j),
            forall|k2: int, j: int| 0 <= k2 < k && 0 <= j < 6 ==>
                #[trigger] group_at(indices@, 6, k2, j) == 4 * k2 + tri_offset(j),
        decreases n - k,
    {
        let q = quads[k];
        let nrm = face_normal(q.dir);
        let uv = uv_corners(q.rot);
        let base: u32 = (k * 4) as u32;
        let ghost p0 = positions@;
        let ghost n0 = normals@;
        let ghost t0 = uv_tiles@;
        let ghost c0 = corners@;
        let ghost i0 = indices@;
        positions.push(q.p0);
        positions.push(q.p1);
        positions.push(q.p2);
        positions.push(q.p3);
        normals.push(nrm);
        normals.push(nrm);
        normals.push(nrm);
        normals.push(nrm);
        uv_tiles.push(q.tile);
        uv_tiles.push(q.tile);
        uv_tiles.push(q.tile);
        uv_tiles.push(q.tile);
        corners.push(uv[0]);
        corners.push(uv[1]);
        corners.push(uv[2]);
        corners.push(uv[3]);
        indices.push(base);
        indices.push(base + 2);
        indices.push(base + 1);
        indices.push(base);
        indices.push(base + 3);
        indices.push(base + 2);
        k = k + 1;
        proof {
            assert forall|k2: int, j: int| 0 <= k2 < k && 0 <= j < 4 implies #[trigger] vertex_ok(positions@, normals@, uv_tiles@, corners@, quads@[k2], k2, j) by {
                if k2 < k - 1 {
                    assert(vertex_ok(p0, n0, t0, c0, quads@[k2], k2, j));
                    assert(group_at(positions@, 4, k2, j) == group_at(p0, 4, k2, j));
                    assert(group_at(normals@, 4, k2, j) == group_at(n0, 4, k2, j));
                    assert(group_at(uv_tiles@, 4, k2, j) == group_at(t0, 4, k2, j));
                    assert(group_at(corners@, 4, k2, j) == group_at(c0, 4, k2, j));
                } else {
                    assert(q == quads@[k2]);
                    assert(positions@ == p0 + seq![q.p0, q.p1, q.p2, q.p3]);
                    assert(normals@ == n0 + seq![nrm, nrm, nrm, nrm]);
                    assert(uv_tiles@ == t0 + seq![q.tile, q.tile, q.tile, q.tile]);
                    assert(corners@ == c0 + seq![uv[0], uv[1], uv[2], uv[3]]);
                    assert(uv@ == rotated_corners(q.rot));
                    assert(uv@[j] == rotated_corners(q.rot)[j]);
                    assert(group_at(positions@, 4, k2, j) == positions@[4 * (k - 1) + j]);
                    assert(group_at(corners@, 4, k2, j) == corners@[4 * (k - 1) + j]);
                    assert(group_at(normals@, 4, k2, j) == nrm);
                    assert(group_at(uv_tiles@, 4, k2, j) == q.tile);
                    assert(group_at(corners@, 4, k2, j) == uv@[j]);
                    if j == 0 {
                        assert(group_at(positions@, 4, k2, j) == q.p0);
                    } else if j == 1 {
                        assert(group_at(positions@, 4, k2, j) == q.p1);
                    } else if j == 2 {
                        assert(group_at(positions@, 4, k2, j) == q.p2);
                    } else {
                        assert(group_at(positions@, 4, k2, j) == q.p3);
                    }
                }
            }
            assert forall|k2: int, j: int| 0 <= k2 < k && 0 <= j < 6 implies
                #[trigger] group_at(indices@, 6, k2, j) == 4 * k2 + tri_offset(j) by {
                if k2 < k - 1 {
                    assert(group_at(indices@, 6, k2, j) == group_at(i0, 6, k2, j));
                }
            }
        }
    }
    MeshBuffers { positions, normals, uv_tiles, uv_corners: corners, indices }
}

} // verus!
