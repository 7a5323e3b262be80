use vstd::prelude::*;

use crate::faces::FaceDir;

verus! {

/// Rotation of a texture on a quad, in quarter turns.
#[derive(Clone, Copy, Debug, PartialEq, Eq, Structural)]
pub enum UvRot {
    R0,
    R90,
    R180,
    R270,
}

/// Which edges of a tile's UV rectangle a vertex takes: `hi_u` picks the
/// right edge over the left, `hi_v` the far edge over the near one.
#[derive(Clone, Copy, Debug, PartialEq, Eq, Structural)]
pub struct UvCorner {
    pub hi_u: bool,
    pub hi_v: bool,
}

/// A UV corner given by its two edge choices.
pub open spec fn corner(hi_u: bool, hi_v: bool) -> UvCorner {
    UvCorner { hi_u, hi_v }
}

/// UV corners of the four vertices of a quad under a rotation. Without
/// rotation they go (u0,v0), (u1,v0), (u1,v1), (u0,v1); each quarter turn
/// starts the cycle one corner earlier.
pub open spec fn rotated_corners(rot: UvRot) -> Seq<UvCorner> {
    match rot {
        UvRot::R0 => seq![corner(false, false), corner(true, false), corner(true, true), corner(false, true)],
        UvRot::R90 => seq![corner(false, true), corner(false, false), corner(true, false), corner(true, true)],
        UvRot::R180 => seq![corner(true, true), corner(false, true), corner(false, false), corner(true, false)],
        UvRot::R270 => seq![corner(true, false), corner(true, true), corner(false, true), corner(false, false)],
    }
}

/// UV corners of the four vertices of a quad under a rotation.
pub fn uv_corners(rot: UvRot) -> (r: [UvCorner; 4])
    ensures
        r@ == rotated_corners(rot),
{
    let c00 = UvCorner { hi_u: false, hi_v: false };
    let c10 = UvCorner { hi_u: true, hi_v: false };
    let c11 = UvCorner { hi_u: true, hi_v: true };
    let c01 = UvCorner { hi_u: false, hi_v: true };
    let r = match rot {
        UvRot::R0 => [c00, c10, c11, c01],
        UvRot::R90 => [c01, c00, c10, c11],
        UvRot::R180 => [c11, c01, c00, c10],
        UvRot::R270 => [c10, c11, c01, c00],
    };
    assert(r@ =~= rotated_corners(rot));
    r
}

/// Texture rotation of a unit face from the per-voxel mesher: sides are
/// turned half way, top and bottom are not turned.
pub open spec fn unit_face_rot(dir: FaceDir) -> UvRot {
    match dir {
        FaceDir::PosY | FaceDir::NegY => UvRot::R0,
        _ => UvRot::R180,
    }
}

/// Texture rotation of a merged face from the greedy mesher.
pub open spec fn merged_face_rot(dir: FaceDir) -> UvRot {
    match dir {
        FaceDir::PosZ | FaceDir::PosY | FaceDir::NegX => UvRot::R90,
        _ => UvRot::R180,
    }
}

} // verus!
