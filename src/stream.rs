use vstd::prelude::*;

use crate::chunk::{Block, ChunkData, ChunkPos, CHUNK_VOLUME};
use crate::store::ChunkSaveStore;
use std::collections::VecDeque;

use crate::world::{LiveChunk, VoxelWorld, face_adjacent};

verus! {

/// Streaming settings: the Chebyshev radius (x and z) of chunks kept loaded
/// around the viewpoint, the larger unload radius that adds hysteresis, the
/// band of chunk layers that is streamed, and how many loads one tick may
/// request.
#[derive(Clone, Copy, Debug)]
pub struct ChunkStreamConfig {
    pub view_radius: i32,
    pub unload_radius: i32,
    pub y_min: i32,
    pub y_max: i32,
    pub load_budget: usize,
}

/// Absolute difference of two integers.
pub open spec fn abs_diff(a: int, b: int) -> int {
    if a >= b { a - b } else { b - a }
}

/// Whether `p` is wanted around `center`: within the view radius on x and z
/// (Chebyshev) and within the streamed band of layers.
pub open spec fn in_view(cfg: ChunkStreamConfig, center: ChunkPos, p: ChunkPos) -> bool {
    &&& abs_diff(p.x as int, center.x as int) <= cfg.view_radius
    &&& abs_diff(p.z as int, center.z as int) <= cfg.view_radius
    &&& cfg.y_min <= p.y <= cfg.y_max
}

/// Vertical unload distance: the unload radius, but at least 2.
pub open spec fn y_unload_radius(cfg: ChunkStreamConfig) -> int {
    if cfg.unload_radius >= 2 { cfg.unload_radius as int } else { 2 }
}

/// Whether a live chunk at `p` is beyond the unload radius of `center` on
/// some axis (the y axis using the vertical unload distance).
pub open spec fn too_far(cfg: ChunkStreamConfig, center: ChunkPos, p: ChunkPos) -> bool {
    ||| abs_diff(p.x as int, center.x as int) > cfg.unload_radius
    ||| abs_diff(p.z as int, center.z as int) > cfg.unload_radius
    ||| abs_diff(p.y as int, center.y as int) > y_unload_radius(cfg)
}

/// Per-axis distance between two chunk positions, each as a non-negative
/// 64-bit value.
pub fn chebyshev_dist(a: ChunkPos, b: ChunkPos) -> (r: (i64, i64, i64))
    ensures
        r.0 == abs_diff(a.x as int, b.x as int),
        r.1 == abs_diff(a.y as int, b.y as int),
        r.2 == abs_diff(a.z as int, b.z as int),
{
    let dx: i64 = a.x as i64 - b.x as i64;
    let dy: i64 = a.y as i64 - b.y as i64;
    let dz: i64 = a.z as i64 - b.z as i64;
    (if dx < 0 { -dx } else { dx }, if dy < 0 { -dy } else { dy }, if dz < 0 { -dz } else { dz })
}

/// Whether a live chunk at `p` is beyond the unload radius of `center`.
pub fn is_too_far(cfg: &ChunkStreamConfig, center: ChunkPos, p: ChunkPos) -> (r: bool)
    ensures
        r == too_far(*cfg, center, p),
{
    let (dx, dy, dz) = chebyshev_dist(p, center);
    let ry: i64 = if cfg.unload_radius >= 2 { cfg.unload_radius as i64 } else { 2 };
    dx > cfg.unload_radius as i64 || dz > cfg.unload_radius as i64 || dy > ry
}

/// Whether a live chunk at `p` is evicted in a tick centred on `center`.
pub open spec fn evicted(cfg: ChunkStreamConfig, center: ChunkPos, w: &VoxelWorld, p: ChunkPos) -> bool {
    w.has(p) && too_far(cfg, center, p)
}

/// What a tick's eviction step did: the live chunks beyond the unload
/// radius are gone and are listed in `unloaded`; the others keep their grids
/// and flags, gaining the stale-mesh mark when they share a face with an
/// evicted chunk; the grids of evicted modified chunks are in the cache.
pub open spec fn evict_post(cfg: ChunkStreamConfig, center: ChunkPos, w0: &VoxelWorld, st0: &ChunkSaveStore, w1: &VoxelWorld, st1: &ChunkSaveStore, unloaded: Seq<ChunkPos>) -> bool {
    &&& forall|p: ChunkPos| #[trigger] w1.has(p) <==> (w0.has(p) && !too_far(cfg, center, p))
    &&& forall|p: ChunkPos| #[trigger] w1.has(p) ==> {
        let c = w1.chunk(p);
        let o = w0.chunk(p);
        &&& c.pos == p
        &&& c.data == o.data
        &&& c.modified == o.modified
        &&& c.dirty == (o.dirty || exists|e: ChunkPos| evicted(cfg, center, w0, e) && face_adjacent(p, e))
    }
    &&& forall|p: ChunkPos| #[trigger] unloaded.contains(p) <==> evicted(cfg, center, w0, p)
    &&& forall|p: ChunkPos| #[trigger] st1@.contains_key(p) <==> (st0@.contains_key(p) || (evicted(cfg, center, w0, p) && w0.chunk(p).modified))
    &&& forall|p: ChunkPos| #[trigger] st1@.contains_key(p) ==> st1@[p] == if evicted(cfg, center, w0, p) && w0.chunk(p).modified {
        w0.chunk(p).data.blocks@
    } else {
        st0@[p]
    }
}

/// Removes every chunk beyond the unload radius of `center` from the world.
/// A removed chunk that was modified has its grid saved in the cache first.
/// Every remaining chunk that shares a face with a removed one is marked
/// dirty. Returns the removed positions.
pub fn evict_far(cfg: &ChunkStreamConfig, center: ChunkPos, world: &mut VoxelWorld, store: &mut ChunkSaveStore) -> (unloaded: Vec<ChunkPos>)
    requires
        old(world).wf(),
        old(store).wf(),
    ensures
        final(world).wf(),
        final(store).wf(),
        evict_post(*cfg, center, old(world), old(store), final(world), final(store), unloaded@),
{
    let ghost s = world.chunks@;
    let ghost w0 = *world;
    let ghost st0 = *store;
    let n = world.chunks.len();
    let mut kept = VoxelWorld::new();
    let mut unloaded: Vec<ChunkPos> = Vec::new();
    let mut i: usize = 0;
    while i < n
        invariant
            0 <= i <= n,
            n == s.len(),
            w0.chunks@ == s,
            w0.wf(),
            world.chunks@ == s.subrange(0, n - i),
            kept.wf(),
            store.wf(),
            forall|p: ChunkPos| #[trigger] kept.has(p) <==> (exists|j: int| n - i <= j < n && s[j].pos == p) && !too_far(*cfg, center, p),
            forall|p: ChunkPos| #[trigger] kept.has(p) ==> kept.chunk(p) == w0.chunk(p),
            forall|p: ChunkPos| #[trigger] unloaded@.contains(p) <==> (exists|j: int| n - i <= j < n && s[j].pos == p) && too_far(*cfg, center, p),
            forall|p: ChunkPos| #[trigger] store@.contains_key(p) <==> (st0@.contains_key(p) || ((exists|j: int| n - i <= j < n && s[j].pos == p) && too_far(*cfg, center, p) && w0.chunk(p).modified)),
            forall|p: ChunkPos| #[trigger] store@.contains_key(p) ==> store@[p] == if (exists|j: int| n - i <= j < n && s[j].pos == p) && too_far(*cfg, center, p) && w0.chunk(p).modified {
                w0.chunk(p).data.blocks@
            } else {
                st0@[p]
            },
        decreases n - i,
    {
        let c = match world.chunks.pop() {
            Some(c) => c,
            None => unreached(),
        };
        let ghost j0 = n - i - 1;
        proof {
            assert(c == s[j0]);
            w0.lemma_slot(j0);
            assert forall|j: int| n - i <= j < n implies s[j].pos != c.pos by {}
        }
        let far = is_too_far(cfg, center, c.pos);
        let ghost kept_before = kept;
        let ghost un_before = unloaded@;
        let ghost st_before = *store;
        if far {
            if c.modified {
                store.save_chunk(c.pos, &c.data);
            }
            unloaded.push(c.pos);
        } else {
            proof {
                assert(!kept.has(c.pos));
            }
            kept.insert(c);
            proof {
                let m = kept.chunks@.len() - 1;
                kept.lemma_slot(m);
                assert forall|p: ChunkPos| #[trigger] kept.has(p) implies kept.chunk(p) == w0.chunk(p) by {
                    if p != c.pos {
                        assert(kept_before.has(p));
                        let k = kept_before.slot(p);
                        kept_before.lemma_slot(k);
                        assert(kept.chunks@[k] == kept_before.chunks@[k]);
                        kept.lemma_slot(k);
                    }
                }
                assert forall|p: ChunkPos| #[trigger] kept.has(p) <==> (exists|j: int| n - (i + 1) <= j < n && s[j].pos == p) && !too_far(*cfg, center, p) by {
                    if kept.has(p) && p != c.pos {
                        let k = choose|k: int| 0 <= k < kept.chunks@.len() && kept.chunks@[k].pos == p;
                        assert(kept_before.chunks@[k].pos == p);
                        assert(kept_before.has(p));
                    }
                    if (exists|j: int| n - (i + 1) <= j < n && s[j].pos == p) && !too_far(*cfg, center, p) && p != c.pos {
                        assert(kept_before.has(p));
                        let k = choose|k: int| 0 <= k < kept_before.chunks@.len() && kept_before.chunks@[k].pos == p;
                        assert(kept.chunks@[k].pos == p);
                    }
                }
            }
        }
        proof {
            assert forall|p: ChunkPos| #[trigger] unloaded@.contains(p) <==> (exists|j: int| n - (i + 1) <= j < n && s[j].pos == p) && too_far(*cfg, center, p) by {
                if far {
                    assert(unloaded@ == un_before.push(c.pos));
                    if unloaded@.contains(p) && p != c.pos {
                        let k = choose|k: int| 0 <= k < unloaded@.len() && unloaded@[k] == p;
                        assert(un_before[k] == p);
                    }
                    if un_before.contains(p) {
                        let k = choose|k: int| 0 <= k < un_before.len() && un_before[k] == p;
                        assert(unloaded@[k] == p);
                    }
                    if p == c.pos {
                        assert(unloaded@[un_before.len() as int] == p);
                    }
                }
            }
            if !far {
                assert(kept.has(c.pos));
            }
            assert(world.chunks@ =~= s.subrange(0, n - (i + 1)));
        }
        i = i + 1;
    }
    let ghost unl = unloaded@;
    proof {
        assert forall|p: ChunkPos| (exists|j: int| 0 <= j < n && s[j].pos == p) <==> #[trigger] w0.has(p) by {}
        assert forall|p: ChunkPos| #[trigger] unl.contains(p) <==> evicted(*cfg, center, &w0, p) by {
            assert(w0.has(p) <==> (exists|j: int| 0 <= j < n && s[j].pos == p));
        }
        assert forall|p: ChunkPos| #[trigger] kept.has(p) <==> (w0.has(p) && !too_far(*cfg, center, p)) by {
            assert(w0.has(p) <==> (exists|j: int| 0 <= j < n && s[j].pos == p));
        }
        assert forall|p: ChunkPos| #[trigger] store@.contains_key(p) <==> (st0@.contains_key(p) || (evicted(*cfg, center, &w0, p) && w0.chunk(p).modified)) by {
            assert(w0.has(p) <==> (exists|j: int| 0 <= j < n && s[j].pos == p));
        }
        assert forall|p: ChunkPos| #[trigger] store@.contains_key(p) implies store@[p] == if evicted(*cfg, center, &w0, p) && w0.chunk(p).modified {
            w0.chunk(p).data.blocks@
        } else {
            st0@[p]
        } by {
            assert(w0.has(p) <==> (exists|j: int| 0 <= j < n && s[j].pos == p));
        }
    }
    let ghost st1 = *store;
    world.chunks = kept.chunks;
    let ghost w1 = *world;
    proof {
        assert forall|p: ChunkPos| #[trigger] w1.has(p) <==> kept.has(p) by {}
        assert forall|p: ChunkPos| #[trigger] w1.has(p) implies w1.chunk(p) == w0.chunk(p) by {
            assert(kept.has(p));
        }
    }
    let m = unloaded.len();
    let mut t: usize = 0;
    while t < m
        invariant
            0 <= t <= m,
            m == unl.len(),
            unloaded@ == unl,
            w1.wf(),
            *store == st1,
            forall|p: ChunkPos| #[trigger] unl.contains(p) <==> evicted(*cfg, center, &w0, p),
            forall|p: ChunkPos| #[trigger] w1.has(p) <==> (w0.has(p) && !too_far(*cfg, center, p)),
            forall|p: ChunkPos| #[trigger] w1.has(p) ==> w1.chunk(p) == w0.chunk(p),
            store.wf(),
            forall|p: ChunkPos| #[trigger] st1@.contains_key(p) <==> (st0@.contains_key(p) || (evicted(*cfg, center, &w0, p) && w0.chunk(p).modified)),
            forall|p: ChunkPos| #[trigger] st1@.contains_key(p) ==> st1@[p] == if evicted(*cfg, center, &w0, p) && w0.chunk(p).modified {
                w0.chunk(p).data.blocks@
            } else {
                st0@[p]
            },
            world.wf(),
            world.chunks@.len() == w1.chunks@.len(),
            forall|k: int| 0 <= k < world.chunks@.len() ==> {
                let c = #[trigger] world.chunks@[k];
                let o = w1.chunks@[k];
                &&& c.pos == o.pos
                &&& c.data == o.data
                &&& c.modified == o.modified
                &&& c.dirty == (o.dirty || exists|e: int| 0 <= e < t && face_adjacent(o.pos, unl[e]))
            },
        decreases m - t,
    {
        let ghost wb = *world;
        world.mark_neighbors_dirty(unloaded[t]);
        proof {
            assert forall|k: int| 0 <= k < world.chunks@.len() implies {
                let c = #[trigger] world.chunks@[k];
                let o = w1.chunks@[k];
                &&& c.pos == o.pos
                &&& c.data == o.data
                &&& c.modified == o.modified
                &&& c.dirty == (o.dirty || exists|e: int| 0 <= e < t + 1 && face_adjacent(o.pos, unl[e]))
            } by {
                let c = world.chunks@[k];
                let o = w1.chunks@[k];
                assert(wb.chunks@[k].dirty == (o.dirty || exists|e: int| 0 <= e < t && face_adjacent(o.pos, unl[e])));
                if exists|e: int| 0 <= e < t + 1 && face_adjacent(o.pos, unl[e]) {
                    let e = choose|e: int| 0 <= e < t + 1 && face_adjacent(o.pos, unl[e]);
                    if e < t {
                        assert(exists|e: int| 0 <= e < t && face_adjacent(o.pos, unl[e]));
                    }
                }
            }
        }
        t = t + 1;
    }
    proof {
        assert forall|p: ChunkPos| #[trigger] world.has(p) <==> w1.has(p) by {
            if world.has(p) {
                let k = choose|k: int| 0 <= k < world.chunks@.len() && world.chunks@[k].pos == p;
                assert(w1.chunks@[k].pos == p);
            }
            if w1.has(p) {
                let k = choose|k: int| 0 <= k < w1.chunks@.len() && w1.chunks@[k].pos == p;
                assert(world.chunks@[k].pos == p);
            }
        }
        assert forall|p: ChunkPos| #[trigger] world.has(p) implies {
            let c = world.chunk(p);
            let o = w0.chunk(p);
            &&& c.pos == p
            &&& c.data == o.data
            &&& c.modified == o.modified
            &&& c.dirty == (o.dirty || exists|e: ChunkPos| evicted(*cfg, center, &w0, e) && face_adjacent(p, e))
        } by {
            let k = w1.slot(p);
            w1.lemma_slot(k);
            world.lemma_slot(k);
            let o = w1.chunks@[k];
            if exists|e: int| 0 <= e < m && face_adjacent(o.pos, unl[e]) {
                let e = choose|e: int| 0 <= e < m && face_adjacent(o.pos, unl[e]);
                assert(unl.contains(unl[e]));
                assert(evicted(*cfg, center, &w0, unl[e]));
            }
            if exists|e: ChunkPos| evicted(*cfg, center, &w0, e) && face_adjacent(p, e) {
                let e = choose|e: ChunkPos| evicted(*cfg, center, &w0, e) && face_adjacent(p, e);
                assert(unl.contains(e));
                let x = choose|x: int| 0 <= x < unl.len() && unl[x] == e;
                assert(face_adjacent(o.pos, unl[x]));
            }
        }
    }
    proof {
        assert(evict_post(*cfg, center, &w0, &st0, world, store, unloaded@));
    }
    unloaded
}


/// The load queue: chunk positions waiting to be loaded, oldest first, each
/// at most once.
pub struct ChunkLoadQueue {
    pub fifo: VecDeque<ChunkPos>,
}

impl ChunkLoadQueue {
    /// No position is queued twice.
    pub open spec fn wf(&self) -> bool {
        self.fifo@.no_duplicates()
    }

    /// An empty queue.
    pub fn new() -> (r: ChunkLoadQueue)
        ensures
            r.wf(),
            r.fifo@ == Seq::<ChunkPos>::empty(),
    {
        ChunkLoadQueue { fifo: VecDeque::new() }
    }

    /// Whether `p` is queued.
    pub fn contains(&self, p: ChunkPos) -> (r: bool)
        ensures
            r == self.fifo@.contains(p),
    {
        broadcast use vstd::std_specs::vecdeque::group_vec_dequeue_axioms;
        let n = self.fifo.len();
        let mut i: usize = 0;
        while i < n
            invariant
                0 <= i <= n,
                n == self.fifo@.len(),
                forall|j: int| 0 <= j < i ==> self.fifo@[j] != p,
            decreases n - i,
        {
            if self.fifo[i] == p {
                return true;
            }
            i = i + 1;
        }
        false
    }

    /// Appends `p` unless it is already queued; says whether it was added.
    pub fn enqueue(&mut self, p: ChunkPos) -> (added: bool)
        requires
            old(self).wf(),
        ensures
            final(self).wf(),
            added == !old(self).fifo@.contains(p),
            final(self).fifo@ == if added { old(self).fifo@.push(p) } else { old(self).fifo@ },
    {
        if self.contains(p) {
            false
        } else {
            self.fifo.push_back(p);
            proof {
                let s = self.fifo@;
                let o = old(self).fifo@;
                assert forall|a: int, b: int| 0 <= a < s.len() && 0 <= b < s.len() && a != b implies s[a] != s[b] by {
                    if a == o.len() as int {
                        assert(o[b] == s[b]);
                        assert(o.contains(s[b]));
                    } else if b == o.len() as int {
                        assert(o[a] == s[a]);
                        assert(o.contains(s[a]));
                    }
                }
            }
            true
        }
    }
}

/// Coordinate range `[c - r, c + r]` of the view window fits in 32 bits.
pub open spec fn window_fits(c: i32, r: i32) -> bool {
    i32::MIN <= c - r && c + r <= i32::MAX
}

/// All chunk positions wanted around `center`: the view window on x and z
/// and the streamed band of layers, listed x outer, then z, then y.
pub fn wanted_chunks(center: ChunkPos, r: i32, y_min: i32, y_max: i32) -> (v: Vec<ChunkPos>)
    requires
        r >= 0,
        window_fits(center.x, r),
        window_fits(center.z, r),
    ensures
        forall|p: ChunkPos| #[trigger] v@.contains(p) <==> (abs_diff(p.x as int, center.x as int) <= r
            && abs_diff(p.z as int, center.z as int) <= r && y_min <= p.y <= y_max),
{
    let mut v: Vec<ChunkPos> = Vec::new();
    let mut x: i64 = center.x as i64 - r as i64;
    let x_end: i64 = center.x as i64 + r as i64;
    let z_start: i64 = center.z as i64 - r as i64;
    let z_end: i64 = center.z as i64 + r as i64;
    while x <= x_end
        invariant
            center.x - r <= x <= x_end + 1,
            x_end == center.x + r,
            z_start == center.z - r,
            z_end == center.z + r,
            r >= 0,
            window_fits(center.x, r),
            window_fits(center.z, r),
            forall|p: ChunkPos| #[trigger] v@.contains(p) <==> (center.x - r <= p.x < x && z_start <= p.z <= z_end && y_min <= p.y <= y_max),
        decreases x_end + 1 - x,
    {
        let mut z: i64 = z_start;
        while z <= z_end
            invariant
                center.x - r <= x <= x_end,
                z_start <= z <= z_end + 1,
                x_end == center.x + r,
                z_start == center.z - r,
                z_end == center.z + r,
                r >= 0,
                window_fits(center.x, r),
                window_fits(center.z, r),
                forall|p: ChunkPos| #[trigger] v@.contains(p) <==> (
                    (center.x - r <= p.x < x && z_start <= p.z <= z_end && y_min <= p.y <= y_max)
                    || (p.x == x && z_start <= p.z < z && y_min <= p.y <= y_max)),
            decreases z_end + 1 - z,
        {
            let mut y: i64 = y_min as i64;
            while y <= y_max as i64
                invariant
                    center.x - r <= x <= x_end,
                    z_start <= z <= z_end,
                    y_min <= y,
                    y == y_min || y <= y_max + 1,
                    x_end == center.x + r,
                    z_start == center.z - r,
                    z_end == center.z + r,
                    r >= 0,
                    window_fits(center.x, r),
                    window_fits(center.z, r),
                    forall|p: ChunkPos| #[trigger] v@.contains(p) <==> (
                        (center.x - r <= p.x < x && z_start <= p.z <= z_end && y_min <= p.y <= y_max)
                        || (p.x == x && z_start <= p.z < z && y_min <= p.y <= y_max)
                        || (p.x == x && p.z == z && y_min <= p.y < y)),
                decreases y_max + 1 - y,
            {
                let p = ChunkPos { x: x as i32, y: y as i32, z: z as i32 };
                let ghost before = v@;
                v.push(p);
                proof {
                    assert forall|q: ChunkPos| #[trigger] v@.contains(q) <==> (before.contains(q) || q == p) by {
                        if v@.contains(q) {
                            let k = choose|k: int| 0 <= k < v@.len() && v@[k] == q;
                            if k < before.len() {
                                assert(before[k] == q);
                            }
                        }
                        if before.contains(q) {
                            let k = choose|k: int| 0 <= k < before.len() && before[k] == q;
                            assert(v@[k] == q);
                        }
                        if q == p {
                            assert(v@[before.len() as int] == q);
                        }
                    }
                }
                y = y + 1;
            }
            z = z + 1;
        }
        x = x + 1;
    }
    v
}

/// Queues every wanted position around `center` that has no live chunk and
/// is not queued yet, in the order `wanted_chunks` lists them.
pub fn enqueue_missing(cfg: &ChunkStreamConfig, center: ChunkPos, world: &VoxelWorld, queue: &mut ChunkLoadQueue)
    requires
        world.wf(),
        old(queue).wf(),
        cfg.view_radius >= 0,
        window_fits(center.x, cfg.view_radius),
        window_fits(center.z, cfg.view_radius),
    ensures
        final(queue).wf(),
        final(queue).fifo@.len() >= old(queue).fifo@.len(),
        final(queue).fifo@.subrange(0, old(queue).fifo@.len() as int) == old(queue).fifo@,
        forall|p: ChunkPos| #[trigger] final(queue).fifo@.contains(p) <==> (old(queue).fifo@.contains(p) || (in_view(*cfg, center, p) && !world.has(p))),
{
    let wanted = wanted_chunks(center, cfg.view_radius, cfg.y_min, cfg.y_max);
    let ghost q0 = queue.fifo@;
    let n = wanted.len();
    let mut i: usize = 0;
    while i < n
        invariant
            0 <= i <= n,
            n == wanted@.len(),
            world.wf(),
            queue.wf(),
            queue.fifo@.len() >= q0.len(),
            queue.fifo@.subrange(0, q0.len() as int) == q0,
            forall|p: ChunkPos| #[trigger] wanted@.contains(p) <==> in_view(*cfg, center, p),
            forall|p: ChunkPos| #[trigger] queue.fifo@.contains(p) <==> (q0.contains(p) || (exists|j: int| 0 <= j < i && wanted@[j] == p && !world.has(p))),
        decreases n - i,
    {
        let p = wanted[i];
        let ghost before = queue.fifo@;
        if !world.contains_key(p) {
            queue.enqueue(p);
        }
        proof {
            assert forall|k: int| 0 <= k < q0.len() implies #[trigger] queue.fifo@.subrange(0, q0.len() as int)[k] == q0[k] by {
                assert(before.subrange(0, q0.len() as int)[k] == q0[k]);
            }
            assert(queue.fifo@.subrange(0, q0.len() as int) =~= q0);
            assert forall|q: ChunkPos| #[trigger] queue.fifo@.contains(q) <==> (q0.contains(q) || (exists|j: int| 0 <= j < i + 1 && wanted@[j] == q && !world.has(q))) by {
                if queue.fifo@.contains(q) && !before.contains(q) {
                    let k = choose|k: int| 0 <= k < queue.fifo@.len() && queue.fifo@[k] == q;
                    assert(q == p);
                }
                if before.contains(q) {
                    let k = choose|k: int| 0 <= k < before.len() && before[k] == q;
                    assert(queue.fifo@[k] == q);
                }
                if exists|j: int| 0 <= j < i + 1 && wanted@[j] == q && !world.has(q) {
                    let j = choose|j: int| 0 <= j < i + 1 && wanted@[j] == q && !world.has(q);
                    if j == i && !before.contains(q) {
                        assert(queue.fifo@[before.len() as int] == q);
                    }
                }
            }
        }
        i = i + 1;
    }
    proof {
        assert forall|p: ChunkPos| #[trigger] queue.fifo@.contains(p) <==> (q0.contains(p) || (in_view(*cfg, center, p) && !world.has(p))) by {
            if in_view(*cfg, center, p) && !world.has(p) {
                assert(wanted@.contains(p));
                let j = choose|j: int| 0 <= j < wanted@.len() && wanted@[j] == p;
                assert(exists|j: int| 0 <= j < n && wanted@[j] == p && !world.has(p));
            }
            if exists|j: int| 0 <= j < n && wanted@[j] == p && !world.has(p) {
                let j = choose|j: int| 0 <= j < n && wanted@[j] == p && !world.has(p);
                assert(wanted@.contains(p));
            }
        }
    }
}

/// Takes up to `budget` positions from the front of the queue, in order.
pub fn drain_queue(queue: &mut ChunkLoadQueue, budget: usize) -> (taken: Vec<ChunkPos>)
    requires
        old(queue).wf(),
    ensures
        final(queue).wf(),
        taken@.len() == if budget < old(queue).fifo@.len() { budget as int } else { old(queue).fifo@.len() as int },
        taken@ == old(queue).fifo@.subrange(0, taken@.len() as int),
        final(queue).fifo@ == old(queue).fifo@.subrange(taken@.len() as int, old(queue).fifo@.len() as int),
{
    let ghost q0 = queue.fifo@;
    let mut taken: Vec<ChunkPos> = Vec::new();
    let mut i: usize = 0;
    while i < budget
        invariant
            0 <= i <= budget,
            i <= q0.len(),
            taken@ == q0.subrange(0, i as int),
            queue.fifo@ == q0.subrange(i as int, q0.len() as int),
            q0.no_duplicates(),
        ensures
            taken@ == q0.subrange(0, i as int),
            queue.fifo@ == q0.subrange(i as int, q0.len() as int),
            i <= q0.len(),
            i == if budget < q0.len() { budget as int } else { q0.len() as int },
        decreases budget - i,
    {
        match queue.fifo.pop_front() {
            Some(p) => {
                taken.push(p);
                i = i + 1;
                assert(taken@ =~= q0.subrange(0, i as int));
                assert(queue.fifo@ =~= q0.subrange(i as int, q0.len() as int));
            },
            None => {
                break;
            },
        }
    }
    proof {
        let s = queue.fifo@;
        assert forall|a: int, b: int| 0 <= a < s.len() && 0 <= b < s.len() && a != b implies s[a] != s[b] by {
            assert(s[a] == q0[a + i]);
            assert(s[b] == q0[b + i]);
        }
    }
    taken
}


/// Work a tick hands to its caller: chunks that were unloaded (to be torn
/// down) and positions whose load is requested, oldest first.
pub struct StreamTick {
    pub unloaded: Vec<ChunkPos>,
    pub load_requests: Vec<ChunkPos>,
}

/// One streaming tick around the viewpoint chunk `center`: wanted positions
/// without a live chunk are queued (each at most once), chunks beyond the
/// unload radius are evicted (saving modified grids and dirtying their face
/// neighbours), and at most `load_budget` positions leave the front of the
/// queue as load requests.
pub fn chunk_stream_tick_system(cfg: &ChunkStreamConfig, center: ChunkPos, world: &mut VoxelWorld, queue: &mut ChunkLoadQueue, store: &mut ChunkSaveStore) -> (r: StreamTick)
    requires
        old(world).wf(),
        old(queue).wf(),
        old(store).wf(),
        cfg.view_radius >= 0,
        window_fits(center.x, cfg.view_radius),
        window_fits(center.z, cfg.view_radius),
    ensures
        final(world).wf(),
        final(queue).wf(),
        final(store).wf(),
        evict_post(*cfg, center, old(world), old(store), final(world), final(store), r.unloaded@),
        ({
            let q1 = r.load_requests@ + final(queue).fifo@;
            &&& q1.no_duplicates()
            &&& q1.len() >= old(queue).fifo@.len()
            &&& q1.subrange(0, old(queue).fifo@.len() as int) == old(queue).fifo@
            &&& forall|p: ChunkPos| #[trigger] q1.contains(p) <==> (old(queue).fifo@.contains(p) || (in_view(*cfg, center, p) && !old(world).has(p)))
            &&& r.load_requests@.len() == if cfg.load_budget < q1.len() { cfg.load_budget as int } else { q1.len() as int }
        }),
{
    enqueue_missing(cfg, center, world, queue);
    let ghost q1 = queue.fifo@;
    let unloaded = evict_far(cfg, center, world, store);
    let load_requests = drain_queue(queue, cfg.load_budget);
    proof {
        assert(load_requests@ + queue.fifo@ =~= q1);
    }
    StreamTick { unloaded, load_requests }
}


/// Block the placeholder generator puts at local height `y` of chunk `pos`:
/// the layer at chunk height 0 is dirt with a grass top, all else is air.
pub open spec fn generated_block(pos: ChunkPos, y: int) -> Block {
    if pos.y == 0 {
        if y == 15 { Block::Grass } else { Block::Dirt }
    } else {
        Block::Air
    }
}

/// The grid the placeholder generator produces for chunk `pos`.
pub open spec fn generated_blocks(pos: ChunkPos) -> Seq<Block> {
    Seq::new(CHUNK_VOLUME as nat, |i: int| generated_block(pos, (i / 16) % 16))
}

/// Placeholder terrain: a flat ground layer in the chunks at height 0.
pub fn generate_chunk_data(pos: ChunkPos) -> (r: ChunkData)
    ensures
        r.wf(),
        r.blocks@ == generated_blocks(pos),
{
    let mut blocks: Vec<Block> = Vec::new();
    let mut i: usize = 0;
    while i < CHUNK_VOLUME
        invariant
            0 <= i <= CHUNK_VOLUME,
            blocks@ == generated_blocks(pos).subrange(0, i as int),
        decreases CHUNK_VOLUME - i,
    {
        let y = (i / 16) % 16;
        let b = if pos.y == 0 {
            if y == 15 { Block::Grass } else { Block::Dirt }
        } else {
            Block::Air
        };
        blocks.push(b);
        i = i + 1;
        assert(blocks@ =~= generated_blocks(pos).subrange(0, i as int));
    }
    assert(blocks@ =~= generated_blocks(pos));
    ChunkData { blocks }
}

/// What loading position `p` did: `loaded` tells whether it was absent; if
/// so it now holds a dirty, unmodified chunk whose grid comes from the save
/// cache when that has an entry, else from the generator, and exactly the
/// live chunks sharing a face with `p` gained the stale-mesh mark. A present
/// position is left alone.
pub open spec fn load_post(w0: &VoxelWorld, st: &ChunkSaveStore, p: ChunkPos, w1: &VoxelWorld, loaded: bool) -> bool {
    &&& loaded == !w0.has(p)
    &&& forall|q: ChunkPos| #[trigger] w1.has(q) <==> (w0.has(q) || q == p)
    &&& loaded ==> {
        let c = w1.chunk(p);
        &&& c.pos == p
        &&& c.dirty
        &&& !c.modified
        &&& c.data.blocks@ == if st@.contains_key(p) { st@[p] } else { generated_blocks(p) }
    }
    &&& forall|q: ChunkPos| #[trigger] w0.has(q) ==> {
        let c = w1.chunk(q);
        let o = w0.chunk(q);
        &&& c.pos == q
        &&& c.data == o.data
        &&& c.modified == o.modified
        &&& c.dirty == (o.dirty || (loaded && face_adjacent(q, p)))
    }
}

/// Loads the chunk at `p` unless one is live there: its grid is taken from
/// the save cache if present, else generated; it is inserted dirty, and its
/// live face neighbours are marked dirty.
pub fn load_chunk_at(world: &mut VoxelWorld, store: &ChunkSaveStore, p: ChunkPos) -> (loaded: bool)
    requires
        old(world).wf(),
        store.wf(),
    ensures
        final(world).wf(),
        load_post(old(world), store, p, final(world), loaded),
{
    if world.contains_key(p) {
        proof {
            assert forall|q: ChunkPos| #[trigger] old(world).has(q) implies world.chunk(q).pos == q by {
                let k = world.slot(q);
                world.lemma_slot(k);
            }
        }
        return false;
    }
    let data = match store.load_chunk(p) {
        Some(d) => d,
        None => generate_chunk_data(p),
    };
    let ghost w0 = *world;
    world.mark_neighbors_dirty(p);
    let ghost w1 = *world;
    proof {
        assert forall|q: ChunkPos| #[trigger] w1.has(q) <==> w0.has(q) by {
            if w1.has(q) {
                let k = choose|k: int| 0 <= k < w1.chunks@.len() && w1.chunks@[k].pos == q;
                assert(w0.chunks@[k].pos == q);
            }
            if w0.has(q) {
                let k = choose|k: int| 0 <= k < w0.chunks@.len() && w0.chunks@[k].pos == q;
                assert(w1.chunks@[k].pos == q);
            }
        }
        assert(!w1.has(p));
        assert(data.blocks@.len() == CHUNK_VOLUME);
    }
    world.insert(LiveChunk { pos: p, data, dirty: true, modified: false });
    proof {
        let n = w1.chunks@.len() as int;
        world.lemma_slot(n);
        assert forall|q: ChunkPos| #[trigger] world.has(q) <==> (w0.has(q) || q == p) by {
            if world.has(q) && q != p {
                let k = choose|k: int| 0 <= k < world.chunks@.len() && world.chunks@[k].pos == q;
                assert(k < n);
                assert(w1.chunks@[k].pos == q);
            }
            if w1.has(q) {
                let k = choose|k: int| 0 <= k < w1.chunks@.len() && w1.chunks@[k].pos == q;
                assert(world.chunks@[k].pos == q);
            }
        }
        assert forall|q: ChunkPos| #[trigger] w0.has(q) implies {
            let c = world.chunk(q);
            let o = w0.chunk(q);
            &&& c.pos == q
            &&& c.data == o.data
            &&& c.modified == o.modified
            &&& c.dirty == (o.dirty || face_adjacent(q, p))
        } by {
            let k = w0.slot(q);
            w0.lemma_slot(k);
            assert(world.chunks@[k] == w1.chunks@[k]);
            world.lemma_slot(k);
        }
    }
    true
}

/// Loads each requested position that has no live chunk, in order (see
/// `load_chunk_at`). Returns the positions that were loaded.
pub fn handle_chunk_load_requests_system(world: &mut VoxelWorld, store: &ChunkSaveStore, requests: &Vec<ChunkPos>) -> (loaded: Vec<ChunkPos>)
    requires
        old(world).wf(),
        store.wf(),
    ensures
        final(world).wf(),
        forall|q: ChunkPos| #[trigger] final(world).has(q) <==> (old(world).has(q) || requests@.contains(q)),
        forall|q: ChunkPos| #[trigger] loaded@.contains(q) <==> (!old(world).has(q) && requests@.contains(q)),
        forall|q: ChunkPos| #[trigger] old(world).has(q) ==> {
            let c = final(world).chunk(q);
            let o = old(world).chunk(q);
            &&& c.data == o.data
            &&& c.modified == o.modified
            &&& c.dirty == (o.dirty || exists|l: ChunkPos| loaded@.contains(l) && face_adjacent(q, l))
        },
        forall|q: ChunkPos| #[trigger] loaded@.contains(q) ==> {
            let c = final(world).chunk(q);
            &&& c.dirty
            &&& !c.modified
            &&& c.data.blocks@ == if store@.contains_key(q) { store@[q] } else { generated_blocks(q) }
        },
{
    let ghost w0 = *world;
    let mut loaded: Vec<ChunkPos> = Vec::new();
    let n = requests.len();
    let mut i: usize = 0;
    while i < n
        invariant
            0 <= i <= n,
            n == requests@.len(),
            world.wf(),
            store.wf(),
            forall|q: ChunkPos| #[trigger] world.has(q) <==> (w0.has(q) || requests@.subrange(0, i as int).contains(q)),
            forall|q: ChunkPos| #[trigger] loaded@.contains(q) <==> (!w0.has(q) && requests@.subrange(0, i as int).contains(q)),
            forall|q: ChunkPos| #[trigger] w0.has(q) ==> {
                let c = world.chunk(q);
                let o = w0.chunk(q);
                &&& c.data == o.data
                &&& c.modified == o.modified
                &&& c.dirty == (o.dirty || exists|l: ChunkPos| loaded@.contains(l) && face_adjacent(q, l))
            },
            forall|q: ChunkPos| #[trigger] loaded@.contains(q) ==> {
                let c = world.chunk(q);
                &&& c.dirty
                &&& !c.modified
                &&& c.data.blocks@ == if store@.contains_key(q) { store@[q] } else { generated_blocks(q) }
            },
        decreases n - i,
    {
        let p = requests[i];
        let ghost wb = *world;
        let ghost lb = loaded@;
        let ghost pre = requests@.subrange(0, i as int);
        let ghost post = requests@.subrange(0, i + 1);
        proof {
            assert(post =~= pre.push(p));
            assert forall|q: ChunkPos| #[trigger] post.contains(q) <==> (pre.contains(q) || q == p) by {
                if post.contains(q) && q != p {
                    let k = choose|k: int| 0 <= k < post.len() && post[k] == q;
                    assert(pre[k] == q);
                }
                if pre.contains(q) {
                    let k = choose|k: int| 0 <= k < pre.len() && pre[k] == q;
                    assert(post[k] == q);
                }
                if q == p {
                    assert(post[i as int] == q);
                }
            }
        }
        let did = load_chunk_at(world, store, p);
        if did {
            loaded.push(p);
        }
        proof {
            assert forall|q: ChunkPos| #[trigger] loaded@.contains(q) <==> (lb.contains(q) || (did && q == p)) by {
                if did {
                    assert(loaded@ == lb.push(p));
                    if loaded@.contains(q) && q != p {
                        let k = choose|k: int| 0 <= k < loaded@.len() && loaded@[k] == q;
                        assert(lb[k] == q);
                    }
                    if lb.contains(q) {
                        let k = choose|k: int| 0 <= k < lb.len() && lb[k] == q;
                        assert(loaded@[k] == q);
                    }
                    if q == p {
                        assert(loaded@[lb.len() as int] == q);
                    }
                }
            }
            assert forall|q: ChunkPos| #[trigger] w0.has(q) implies {
                let c = world.chunk(q);
                let o = w0.chunk(q);
                &&& c.data == o.data
                &&& c.modified == o.modified
                &&& c.dirty == (o.dirty || exists|l: ChunkPos| loaded@.contains(l) && face_adjacent(q, l))
            } by {
                assert(wb.has(q));
                if exists|l: ChunkPos| loaded@.contains(l) && face_adjacent(q, l) {
                    let l = choose|l: ChunkPos| loaded@.contains(l) && face_adjacent(q, l);
                    if l != p || !did {
                        assert(lb.contains(l));
                    }
                }
                if exists|l: ChunkPos| lb.contains(l) && face_adjacent(q, l) {
                    let l = choose|l: ChunkPos| lb.contains(l) && face_adjacent(q, l);
                    assert(loaded@.contains(l));
                }
            }
            assert forall|q: ChunkPos| #[trigger] loaded@.contains(q) implies {
                let c = world.chunk(q);
                &&& c.dirty
                &&& !c.modified
                &&& c.data.blocks@ == if store@.contains_key(q) { store@[q] } else { generated_blocks(q) }
            } by {
                if q != p || !did {
                    assert(lb.contains(q));
                    assert(wb.has(q));
                }
            }
        }
        i = i + 1;
    }
    proof {
        assert(requests@.subrange(0, n as int) =~= requests@);
    }
    loaded
}

/// A modified chunk that is evicted and later loaded again comes back with
/// exactly the grid it had when it was evicted: the save cache is honoured
/// over the generator.
pub proof fn lemma_evict_then_reload(cfg: ChunkStreamConfig, center: ChunkPos, w0: &VoxelWorld, st0: &ChunkSaveStore, w1: &VoxelWorld, st1: &ChunkSaveStore, unloaded: Seq<ChunkPos>, p: ChunkPos, w2: &VoxelWorld, loaded: bool)
    requires
        evict_post(cfg, center, w0, st0, w1, st1, unloaded),
        load_post(w1, st1, p, w2, loaded),
        w0.has(p),
        w0.chunk(p).modified,
        too_far(cfg, center, p),
    ensures
        loaded,
        w2.has(p),
        w2.chunk(p).data.blocks@ == w0.chunk(p).data.blocks@,
{
    assert(!w1.has(p));
    assert(evicted(cfg, center, w0, p));
    assert(st1@.contains_key(p));
}


/// What unloading position `p` did: `unloaded` tells whether a chunk was
/// live there; if so it is gone, its grid is in the cache when it was
/// modified, and exactly the live chunks sharing a face with `p` gained the
/// stale-mesh mark. An absent position is left alone.
pub open spec fn unload_post(w0: &VoxelWorld, st0: &ChunkSaveStore, p: ChunkPos, w1: &VoxelWorld, st1: &ChunkSaveStore, unloaded: bool) -> bool {
    &&& unloaded == w0.has(p)
    &&& forall|q: ChunkPos| #[trigger] w1.has(q) <==> (w0.has(q) && q != p)
    &&& forall|q: ChunkPos| #[trigger] w1.has(q) ==> {
        let c = w1.chunk(q);
        let o = w0.chunk(q);
        &&& c.pos == q
        &&& c.data == o.data
        &&& c.modified == o.modified
        &&& c.dirty == (o.dirty || (unloaded && face_adjacent(q, p)))
    }
    &&& st1@ == if unloaded && w0.chunk(p).modified { st0@.insert(p, w0.chunk(p).data.blocks@) } else { st0@ }
}

/// Unloads the chunk at `p`, if one is live there: a modified grid is saved
/// in the cache first, and its live face neighbours are marked dirty.
pub fn unload_chunk_at(world: &mut VoxelWorld, store: &mut ChunkSaveStore, p: ChunkPos) -> (unloaded: bool)
    requires
        old(world).wf(),
        old(store).wf(),
    ensures
        final(world).wf(),
        final(store).wf(),
        unload_post(old(world), old(store), p, final(world), final(store), unloaded),
{
    let ghost w0 = *world;
    let c = match world.remove(p) {
        Some(c) => c,
        None => {
            proof {
                assert forall|q: ChunkPos| #[trigger] w0.has(q) implies w0.chunk(q).pos == q by {
                    let k = w0.slot(q);
                    w0.lemma_slot(k);
                }
            }
            return false;
        },
    };
    if c.modified {
        store.save_chunk(p, &c.data);
    }
    let ghost w1 = *world;
    world.mark_neighbors_dirty(p);
    proof {
        let j = w0.slot(p);
        let s0 = w0.chunks@;
        assert forall|k: int| 0 <= k < w1.chunks@.len() implies #[trigger] w1.chunks@[k] == s0[if k < j { k } else { k + 1 }] by {}
        assert forall|q: ChunkPos| #[trigger] world.has(q) <==> (w0.has(q) && q != p) by {
            if world.has(q) {
                let k = choose|k: int| 0 <= k < world.chunks@.len() && world.chunks@[k].pos == q;
                let k0 = if k < j { k } else { k + 1 };
                assert(s0[k0].pos == q);
                w0.lemma_slot(k0);
            }
            if w0.has(q) && q != p {
                let k0 = choose|k: int| 0 <= k < s0.len() && s0[k].pos == q;
                assert(k0 != j);
                let k = if k0 < j { k0 } else { k0 - 1 };
                assert(world.chunks@[k].pos == q);
            }
        }
        assert forall|q: ChunkPos| #[trigger] world.has(q) implies {
            let c = world.chunk(q);
            let o = w0.chunk(q);
            &&& c.pos == q
            &&& c.data == o.data
            &&& c.modified == o.modified
            &&& c.dirty == (o.dirty || face_adjacent(q, p))
        } by {
            let k = world.slot(q);
            world.lemma_slot(k);
            let k0 = if k < j { k } else { k + 1 };
            w0.lemma_slot(k0);
        }
    }
    true
}

/// Unloads each requested position that has a live chunk, in order (see
/// `unload_chunk_at`). Returns the positions that were unloaded.
pub fn handle_chunk_unload_requests_system(world: &mut VoxelWorld, store: &mut ChunkSaveStore, requests: &Vec<ChunkPos>) -> (unloaded: Vec<ChunkPos>)
    requires
        old(world).wf(),
        old(store).wf(),
    ensures
        final(world).wf(),
        final(store).wf(),
        forall|q: ChunkPos| #[trigger] final(world).has(q) <==> (old(world).has(q) && !requests@.contains(q)),
        forall|q: ChunkPos| #[trigger] unloaded@.contains(q) <==> (old(world).has(q) && requests@.contains(q)),
        forall|q: ChunkPos| #[trigger] final(world).has(q) ==> {
            let c = final(world).chunk(q);
            let o = old(world).chunk(q);
            &&& c.data == o.data
            &&& c.modified == o.modified
            &&& c.dirty == (o.dirty || exists|u: ChunkPos| unloaded@.contains(u) && face_adjacent(q, u))
        },
        forall|q: ChunkPos| #[trigger] final(store)@.contains_key(q) <==> (old(store)@.contains_key(q) || (unloaded@.contains(q) && old(world).chunk(q).modified)),
        forall|q: ChunkPos| #[trigger] final(store)@.contains_key(q) ==> final(store)@[q] == if unloaded@.contains(q) && old(world).chunk(q).modified {
            old(world).chunk(q).data.blocks@
        } else {
            old(store)@[q]
        },
{
    let ghost w0 = *world;
    let ghost s0 = *store;
    let mut unloaded: Vec<ChunkPos> = Vec::new();
    let n = requests.len();
    let mut i: usize = 0;
    while i < n
        invariant
            0 <= i <= n,
            n == requests@.len(),
            world.wf(),
            store.wf(),
            forall|q: ChunkPos| #[trigger] world.has(q) <==> (w0.has(q) && !requests@.subrange(0, i as int).contains(q)),
            forall|q: ChunkPos| #[trigger] unloaded@.contains(q) <==> (w0.has(q) && requests@.subrange(0, i as int).contains(q)),
            forall|q: ChunkPos| #[trigger] world.has(q) ==> {
                let c = world.chunk(q);
                let o = w0.chunk(q);
                &&& c.data == o.data
                &&& c.modified == o.modified
                &&& c.dirty == (o.dirty || exists|u: ChunkPos| unloaded@.contains(u) && face_adjacent(q, u))
            },
            forall|q: ChunkPos| #[trigger] store@.contains_key(q) <==> (s0@.contains_key(q) || (unloaded@.contains(q) && w0.chunk(q).modified)),
            forall|q: ChunkPos| #[trigger] store@.contains_key(q) ==> store@[q] == if unloaded@.contains(q) && w0.chunk(q).modified {
                w0.chunk(q).data.blocks@
            } else {
                s0@[q]
            },
        decreases n - i,
    {
        let p = requests[i];
        let ghost wb = *world;
        let ghost lb = unloaded@;
        let ghost pre = requests@.subrange(0, i as int);
        let ghost post = requests@.subrange(0, i + 1);
        proof {
            assert forall|q: ChunkPos| #[trigger] post.contains(q) <==> (pre.contains(q) || q == p) by {
                if post.contains(q) && q != p {
                    let k = choose|k: int| 0 <= k < post.len() && post[k] == q;
                    assert(pre[k] == q);
                }
                if pre.contains(q) {
                    let k = choose|k: int| 0 <= k < pre.len() && pre[k] == q;
                    assert(post[k] == q);
                }
                if q == p {
                    assert(post[i as int] == q);
                }
            }
        }
        let did = unload_chunk_at(world, store, p);
        if did {
            unloaded.push(p);
        }
        proof {
            assert forall|q: ChunkPos| #[trigger] unloaded@.contains(q) <==> (lb.contains(q) || (did && q == p)) by {
                if did {
                    assert(unloaded@ == lb.push(p));
                    if unloaded@.contains(q) && q != p {
                        let k = choose|k: int| 0 <= k < unloaded@.len() && unloaded@[k] == q;
                        assert(lb[k] == q);
                    }
                    if lb.contains(q) {
                        let k = choose|k: int| 0 <= k < lb.len() && lb[k] == q;
                        assert(unloaded@[k] == q);
                    }
                    if q == p {
                        assert(unloaded@[lb.len() as int] == q);
                    }
                }
            }
            assert forall|q: ChunkPos| #[trigger] world.has(q) implies {
                let c = world.chunk(q);
                let o = w0.chunk(q);
                &&& c.data == o.data
                &&& c.modified == o.modified
                &&& c.dirty == (o.dirty || exists|u: ChunkPos| unloaded@.contains(u) && face_adjacent(q, u))
            } by {
                assert(wb.has(q));
                if exists|u: ChunkPos| unloaded@.contains(u) && face_adjacent(q, u) {
                    let u = choose|u: ChunkPos| unloaded@.contains(u) && face_adjacent(q, u);
                    if u != p || !did {
                        assert(lb.contains(u));
                    }
                }
                if exists|u: ChunkPos| lb.contains(u) && face_adjacent(q, u) {
                    let u = choose|u: ChunkPos| lb.contains(u) && face_adjacent(q, u);
                    assert(unloaded@.contains(u));
                }
            }
            assert forall|q: ChunkPos| #[trigger] store@.contains_key(q) <==> (s0@.contains_key(q) || (unloaded@.contains(q) && w0.chunk(q).modified)) by {
                if did && q == p {
                    assert(unloaded@.contains(q));
                } else {
                    assert(unloaded@.contains(q) == lb.contains(q));
                }
            }
            assert forall|q: ChunkPos| #[trigger] store@.contains_key(q) implies store@[q] == if unloaded@.contains(q) && w0.chunk(q).modified {
                w0.chunk(q).data.blocks@
            } else {
                s0@[q]
            } by {
                if did && q == p {
                    assert(unloaded@.contains(q));
                    assert(!lb.contains(q));
                } else {
                    assert(unloaded@.contains(q) == lb.contains(q));
                }
            }
        }
        i = i + 1;
    }
    proof {
        assert(requests@.subrange(0, n as int) =~= requests@);
    }
    unloaded
}

/// Block of the start-up test scene at flat grid position `i`: a grass floor
/// on layer 0 and a grass pillar on layers 1 to 4 over the centre column.
pub open spec fn test_scene_block(i: int) -> Block {
    let x = i % 16;
    let y = (i / 16) % 16;
    let z = i / 256;
    if y == 0 || (x == 8 && z == 8 && 1 <= y < 5) {
        Block::Grass
    } else {
        Block::Air
    }
}

/// Flat grid position of a local coordinate triple.
pub fn block_index(x: i32, y: i32, z: i32) -> (r: usize)
    requires
        crate::chunk::in_chunk(x as int, y as int, z as int),
    ensures
        r == crate::chunk::flat_index(x as int, y as int, z as int),
{
    ChunkData::idx(x, y, z)
}

/// Blocks of the start-up test scene.
pub fn make_test_blocks() -> (r: Vec<Block>)
    ensures
        r@.len() == CHUNK_VOLUME,
        forall|i: int| 0 <= i < CHUNK_VOLUME ==> #[trigger] r@[i] == test_scene_block(i),
{
    let mut blocks: Vec<Block> = Vec::new();
    let mut i: usize = 0;
    while i < CHUNK_VOLUME
        invariant
            0 <= i <= CHUNK_VOLUME,
            blocks@.len() == i,
            forall|j: int| 0 <= j < i ==> #[trigger] blocks@[j] == test_scene_block(j),
        decreases CHUNK_VOLUME - i,
    {
        let x = i % 16;
        let y = (i / 16) % 16;
        let z = i / 256;
        let b = if y == 0 || (x == 8 && z == 8 && 1 <= y && y < 5) { Block::Grass } else { Block::Air };
        blocks.push(b);
        i = i + 1;
    }
    blocks
}

} // verus!
