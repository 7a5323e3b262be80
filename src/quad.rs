use vstd::prelude::*;

use crate::chunk::{Block, Point3};
use crate::config::Tile;
use crate::faces::FaceDir;
use crate::tile::UvRot;

verus! {

/// One textured rectangle of a chunk's surface, in chunk-local voxel units.
///
/// The rectangle lies on the plane at `plane` along the axis of `dir` and
/// covers `[u, u + w) x [v, v + h)` of the two other axes (for an x face
/// those are y then z, for a y face x then z, for a z face x then y).
/// `p0..p3` are its corners in counter-clockwise order seen from outside;
/// the texture is one atlas cell stretched over the whole rectangle.
#[derive(Clone, Copy, Debug, PartialEq, Eq)]
pub struct Quad {
    pub dir: FaceDir,
    pub block: Block,
    pub tile: Tile,
    pub rot: UvRot,
    pub plane: i32,
    pub u: i32,
    pub v: i32,
    pub w: i32,
    pub h: i32,
    pub p0: Point3,
    pub p1: Point3,
    pub p2: Point3,
    pub p3: Point3,
}

/// A point from three spec integers.
pub open spec fn pt(x: int, y: int, z: int) -> Point3 {
    Point3 { x: x as i32, y: y as i32, z: z as i32 }
}

/// Axis a face direction looks along: 0 for x, 1 for y, 2 for z.
pub open spec fn dir_axis(dir: FaceDir) -> int {
    match dir {
        FaceDir::PosX | FaceDir::NegX => 0,
        FaceDir::PosY | FaceDir::NegY => 1,
        FaceDir::PosZ | FaceDir::NegZ => 2,
    }
}

/// Whether a face direction looks towards increasing coordinates.
pub open spec fn dir_positive(dir: FaceDir) -> bool {
    match dir {
        FaceDir::PosX | FaceDir::PosY | FaceDir::PosZ => true,
        _ => false,
    }
}

/// A unit face of a voxel: which voxel, and which way the face looks.
pub struct UnitFace {
    pub x: int,
    pub y: int,
    pub z: int,
    pub dir: FaceDir,
}

/// The voxel coordinate `(x, y, z)` written as (along-axis, u, v) for an axis.
pub open spec fn to_uvd(axis: int, x: int, y: int, z: int) -> (int, int, int) {
    if axis == 0 {
        (x, y, z)
    } else if axis == 1 {
        (y, x, z)
    } else {
        (z, x, y)
    }
}

/// Voxel coordinates of along-axis `d` and plane coordinates `(u, v)`.
pub open spec fn from_uvd(axis: int, d: int, u: int, v: int) -> (int, int, int) {
    if axis == 0 {
        (d, u, v)
    } else if axis == 1 {
        (u, d, v)
    } else {
        (u, v, d)
    }
}

/// The unit face of quad `q`'s plane and direction at plane cell `(u, v)`.
pub open spec fn face_at(q: Quad, u: int, v: int) -> UnitFace {
    let d = if dir_positive(q.dir) { q.plane - 1 } else { q.plane as int };
    let (x, y, z) = from_uvd(dir_axis(q.dir), d, u, v);
    UnitFace { x, y, z, dir: q.dir }
}

/// Whether a quad covers the unit face `f`: same direction, and the voxel's
/// boundary plane and cell lie in the quad's rectangle.
pub open spec fn covers(q: Quad, f: UnitFace) -> bool {
    let (d, uu, vv) = to_uvd(dir_axis(f.dir), f.x, f.y, f.z);
    let face_plane = if dir_positive(f.dir) { d + 1 } else { d };
    &&& q.dir == f.dir
    &&& q.plane == face_plane
    &&& q.u <= uu < q.u + q.w
    &&& q.v <= vv < q.v + q.h
}

/// Whether some quad of `qs` covers the unit face `f`.
pub open spec fn covered_by(qs: Seq<Quad>, f: UnitFace) -> bool {
    exists|k: int| 0 <= k < qs.len() && #[trigger] covers(qs[k], f)
}

/// Area of a quad in unit faces.
pub open spec fn quad_area(q: Quad) -> int {
    q.w * q.h
}

/// Total area of a list of quads.
pub open spec fn total_area(qs: Seq<Quad>) -> int
    decreases qs.len(),
{
    if qs.len() == 0 {
        0
    } else {
        total_area(qs.drop_last()) + quad_area(qs.last())
    }
}

} // verus!
