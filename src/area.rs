use vstd::prelude::*;
use vstd::set_lib::lemma_set_disjoint_lens;

use crate::config::BlocksConfig;
use crate::chunk::{Block, ChunkPos};
use crate::faces::ConfigError;
use crate::greedy::{boundary_clear, greedy_mesh_ok, lemma_naive_greedy_same_faces};
use crate::meshing::naive_mesh;
use crate::quad::{Quad, UnitFace, covered_by, covers, dir_axis, dir_positive, face_at, to_uvd, total_area};
use crate::world::VoxelWorld;

verus! {

/// Whether `f` looks the way `q` does and lies on `q`'s plane.
pub open spec fn on_plane(q: Quad, f: UnitFace) -> bool {
    let (d, _u, _v) = to_uvd(dir_axis(f.dir), f.x, f.y, f.z);
    &&& f.dir == q.dir
    &&& q.plane == if dir_positive(f.dir) { d + 1 } else { d }
}

/// Plane cell `(u, v)` of a unit face.
pub open spec fn cell_of(f: UnitFace) -> (int, int) {
    let (_d, u, v) = to_uvd(dir_axis(f.dir), f.x, f.y, f.z);
    (u, v)
}

/// The unit faces of row `v` of `q`, cells `q.u .. q.u + n`.
pub open spec fn row_faces(q: Quad, v: int, n: nat) -> Set<UnitFace>
    decreases n,
{
    if n == 0 {
        Set::empty()
    } else {
        row_faces(q, v, (n - 1) as nat).insert(face_at(q, q.u + n - 1, v))
    }
}

/// The unit faces of the first `m` rows of `q`.
pub open spec fn rect_faces(q: Quad, m: nat) -> Set<UnitFace>
    decreases m,
{
    if m == 0 {
        Set::empty()
    } else {
        rect_faces(q, (m - 1) as nat) + row_faces(q, q.v + m - 1, q.w as nat)
    }
}

/// The unit faces covered by a list of quads.
pub open spec fn quads_faces(qs: Seq<Quad>) -> Set<UnitFace>
    decreases qs.len(),
{
    if qs.len() == 0 {
        Set::empty()
    } else {
        quads_faces(qs.drop_last()) + rect_faces(qs.last(), qs.last().h as nat)
    }
}

proof fn lemma_face_at(q: Quad, u: int, v: int)
    ensures
        on_plane(q, face_at(q, u, v)),
        cell_of(face_at(q, u, v)) == (u, v),
{
}

proof fn lemma_row_faces(q: Quad, v: int, n: nat)
    ensures
        row_faces(q, v, n).finite(),
        row_faces(q, v, n).len() == n,
        forall|f: UnitFace| #[trigger] row_faces(q, v, n).contains(f) <==> (on_plane(q, f) && cell_of(f).1 == v && q.u <= cell_of(f).0 < q.u + n),
    decreases n,
{
    if n > 0 {
        let n1 = (n - 1) as nat;
        lemma_row_faces(q, v, n1);
        let g = face_at(q, q.u + n1, v);
        lemma_face_at(q, q.u + n1, v);
        assert(!row_faces(q, v, n1).contains(g));
        assert forall|f: UnitFace| #[trigger] row_faces(q, v, n).contains(f) <==> (on_plane(q, f) && cell_of(f).1 == v && q.u <= cell_of(f).0 < q.u + n) by {
            if on_plane(q, f) && cell_of(f).1 == v && cell_of(f).0 == q.u + n1 {
                assert(f == g);
            }
        }
    }
}

proof fn lemma_rect_faces(q: Quad, m: nat)
    requires
        q.w >= 0,
    ensures
        rect_faces(q, m).finite(),
        rect_faces(q, m).len() == m * q.w,
        forall|f: UnitFace| #[trigger] rect_faces(q, m).contains(f) <==> (on_plane(q, f) && q.v <= cell_of(f).1 < q.v + m && q.u <= cell_of(f).0 < q.u + q.w),
    decreases m,
{
    if m > 0 {
        let m1 = (m - 1) as nat;
        lemma_rect_faces(q, m1);
        let row = row_faces(q, q.v + m1, q.w as nat);
        lemma_row_faces(q, q.v + m1, q.w as nat);
        assert(rect_faces(q, m1).disjoint(row));
        lemma_set_disjoint_lens(rect_faces(q, m1), row);
        assert(m1 * q.w + q.w == m * q.w) by (nonlinear_arith)
            requires
                m1 + 1 == m,
        ;
    }
}

/// The unit faces of a quad are exactly those it covers, `w * h` of them.
pub proof fn lemma_quad_faces(q: Quad)
    requires
        q.w >= 0,
        q.h >= 0,
    ensures
        rect_faces(q, q.h as nat).finite(),
        rect_faces(q, q.h as nat).len() == q.w * q.h,
        forall|f: UnitFace| #[trigger] rect_faces(q, q.h as nat).contains(f) <==> covers(q, f),
{
    lemma_rect_faces(q, q.h as nat);
    assert(q.h * q.w == q.w * q.h) by (nonlinear_arith);
}

/// The unit faces a list of quads covers: when no unit face is covered
/// twice, there are as many as the total area of the quads.
pub proof fn lemma_quads_faces(qs: Seq<Quad>)
    requires
        forall|k: int| 0 <= k < qs.len() ==> (#[trigger] qs[k]).w >= 0 && qs[k].h >= 0,
        forall|k1: int, k2: int, f: UnitFace| 0 <= k1 < qs.len() && 0 <= k2 < qs.len()
            && #[trigger] covers(qs[k1], f) && #[trigger] covers(qs[k2], f) ==> k1 == k2,
    ensures
        quads_faces(qs).finite(),
        quads_faces(qs).len() == total_area(qs),
        forall|f: UnitFace| #[trigger] quads_faces(qs).contains(f) <==> covered_by(qs, f),
    decreases qs.len(),
{
    if qs.len() > 0 {
        let init = qs.drop_last();
        let q = qs.last();
        let n = qs.len() - 1;
        assert forall|k: int| 0 <= k < init.len() implies #[trigger] init[k] == qs[k] by {}
        assert forall|k1: int, k2: int, f: UnitFace| 0 <= k1 < init.len() && 0 <= k2 < init.len()
            && #[trigger] covers(init[k1], f) && #[trigger] covers(init[k2], f) implies k1 == k2 by {
            assert(init[k1] == qs[k1] && init[k2] == qs[k2]);
        }
        assert forall|k: int| 0 <= k < init.len() implies (#[trigger] init[k]).w >= 0 && init[k].h >= 0 by {
            assert(init[k] == qs[k]);
        }
        lemma_quads_faces(init);
        assert(qs[n] == q);
        lemma_quad_faces(q);
        let r = rect_faces(q, q.h as nat);
        assert(quads_faces(init).disjoint(r)) by {
            assert forall|f: UnitFace| quads_faces(init).contains(f) implies !r.contains(f) by {
                let k = choose|k: int| 0 <= k < init.len() && #[trigger] covers(init[k], f);
                assert(init[k] == qs[k]);
                if r.contains(f) {
                    assert(covers(qs[n], f));
                }
            }
        }
        lemma_set_disjoint_lens(quads_faces(init), r);
        assert forall|f: UnitFace| #[trigger] quads_faces(qs).contains(f) <==> covered_by(qs, f) by {
            if covered_by(qs, f) {
                let k = choose|k: int| 0 <= k < qs.len() && #[trigger] covers(qs[k], f);
                if k < n {
                    assert(init[k] == qs[k]);
                    assert(covered_by(init, f));
                }
            }
            if covered_by(init, f) {
                let k = choose|k: int| 0 <= k < init.len() && #[trigger] covers(init[k], f);
                assert(init[k] == qs[k]);
            }
            if r.contains(f) {
                assert(covers(qs[n], f));
            }
        }
    }
}

/// When the neighbour chunks hide none of a chunk's boundary faces, the
/// per-voxel mesh and the greedy mesh have the same total area, though the
/// greedy mesh may use fewer quads.
pub proof fn lemma_naive_greedy_same_area(cfg: &BlocksConfig, world: &VoxelWorld, pos: ChunkPos, data: Seq<Block>, naive: Seq<Quad>, greedy: Seq<Quad>)
    requires
        naive_mesh(cfg, world, pos, data) == Ok::<Seq<Quad>, ConfigError>(naive),
        greedy_mesh_ok(cfg, world, pos, data, greedy),
        boundary_clear(world, pos, data),
    ensures
        total_area(naive) == total_area(greedy),
        total_area(naive) == naive.len(),
{
    lemma_naive_greedy_same_faces(cfg, world, pos, data, naive, greedy);
    lemma_quads_faces(naive);
    assert forall|k: int| 0 <= k < greedy.len() implies (#[trigger] greedy[k]).w >= 0 && greedy[k].h >= 0 by {
    }
    lemma_quads_faces(greedy);
    assert(quads_faces(naive) =~= quads_faces(greedy));
    lemma_unit_area(naive);
}

proof fn lemma_unit_area(qs: Seq<Quad>)
    requires
        forall|k: int| 0 <= k < qs.len() ==> (#[trigger] qs[k]).w == 1 && qs[k].h == 1,
    ensures
        total_area(qs) == qs.len(),
    decreases qs.len(),
{
    if qs.len() > 0 {
        let init = qs.drop_last();
        assert forall|k: int| 0 <= k < init.len() implies (#[trigger] init[k]).w == 1 && init[k].h == 1 by {
            assert(init[k] == qs[k]);
        }
        lemma_unit_area(init);
        assert(qs[qs.len() - 1] == qs.last());
    }
}

} // verus!
