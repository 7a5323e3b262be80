use vstd::prelude::*;

use crate::chunk::{Block, ChunkData, ChunkPos, grid_block};

verus! {

/// A chunk that is live in the world: its grid, whether its mesh is stale,
/// and whether its grid was edited since it was loaded.
pub struct LiveChunk {
    pub pos: ChunkPos,
    pub data: ChunkData,
    pub dirty: bool,
    pub modified: bool,
}

/// The world store: the one authority on which chunks exist and what their
/// grids hold. Each position is held at most once.
pub struct VoxelWorld {
    pub chunks: Vec<LiveChunk>,
}

/// Whether two chunk positions share a face.
pub open spec fn face_adjacent(a: ChunkPos, b: ChunkPos) -> bool {
    let dx = a.x - b.x;
    let dy = a.y - b.y;
    let dz = a.z - b.z;
    ||| (dx == 1 || dx == -1) && dy == 0 && dz == 0
    ||| dx == 0 && (dy == 1 || dy == -1) && dz == 0
    ||| dx == 0 && dy == 0 && (dz == 1 || dz == -1)
}

/// Whether two chunk positions share a face.
pub fn is_face_adjacent(a: ChunkPos, b: ChunkPos) -> (r: bool)
    ensures
        r == face_adjacent(a, b),
{
    let dx: i64 = a.x as i64 - b.x as i64;
    let dy: i64 = a.y as i64 - b.y as i64;
    let dz: i64 = a.z as i64 - b.z as i64;
    ((dx == 1 || dx == -1) && dy == 0 && dz == 0) || (dx == 0 && (dy == 1 || dy == -1) && dz
        == 0) || (dx == 0 && dy == 0 && (dz == 1 || dz == -1))
}

impl VoxelWorld {
    /// Positions are unique and every grid is well formed.
    pub open spec fn wf(&self) -> bool {
        &&& forall|i: int, j: int|
            0 <= i < self.chunks@.len() && 0 <= j < self.chunks@.len() && i != j
                ==> self.chunks@[i].pos != self.chunks@[j].pos
        &&& forall|i: int| 0 <= i < self.chunks@.len() ==> (#[trigger] self.chunks@[i]).data.wf()
    }

    /// Whether a chunk exists at `p`.
    pub open spec fn has(&self, p: ChunkPos) -> bool {
        exists|i: int| 0 <= i < self.chunks@.len() && self.chunks@[i].pos == p
    }

    /// Slot that holds the chunk at `p` (meaningful when it exists).
    pub open spec fn slot(&self, p: ChunkPos) -> int {
        choose|i: int| 0 <= i < self.chunks@.len() && self.chunks@[i].pos == p
    }

    /// The chunk at `p` (meaningful when it exists).
    pub open spec fn chunk(&self, p: ChunkPos) -> LiveChunk {
        self.chunks@[self.slot(p)]
    }

    /// Whether a chunk exists at the chunk coordinates `(x, y, z)`.
    pub open spec fn has_at(&self, x: int, y: int, z: int) -> bool {
        exists|i: int|
            0 <= i < self.chunks@.len() && self.chunks@[i].pos.x == x && self.chunks@[i].pos.y == y
                && self.chunks@[i].pos.z == z
    }

    /// Block at voxel `(x, y, z)` given relative to the origin of chunk
    /// `base`; air where no chunk exists.
    pub open spec fn block_rel(&self, base: ChunkPos, x: int, y: int, z: int) -> Block {
        let cx = base.x + x / 16;
        let cy = base.y + y / 16;
        let cz = base.z + z / 16;
        if self.has_at(cx, cy, cz) {
            let p = ChunkPos { x: cx as i32, y: cy as i32, z: cz as i32 };
            grid_block(self.chunk(p).data.blocks@, x % 16, y % 16, z % 16)
        } else {
            Block::Air
        }
    }

    /// The set of positions at which chunks exist.
    pub open spec fn present(&self) -> Set<ChunkPos> {
        Set::new(|p: ChunkPos| self.has(p))
    }

    /// The set of positions whose chunks need a new mesh.
    pub open spec fn dirty_set(&self) -> Set<ChunkPos> {
        Set::new(|p: ChunkPos| self.has(p) && self.chunk(p).dirty)
    }

    pub proof fn lemma_slot(&self, i: int)
        requires
            self.wf(),
            0 <= i < self.chunks@.len(),
        ensures
            self.has(self.chunks@[i].pos),
            self.slot(self.chunks@[i].pos) == i,
            self.chunk(self.chunks@[i].pos) == self.chunks@[i],
    {
        let p = self.chunks@[i].pos;
        assert(self.has(p));
    }

    /// An empty world.
    pub fn new() -> (r: VoxelWorld)
        ensures
            r.wf(),
            r.chunks@.len() == 0,
    {
        VoxelWorld { chunks: Vec::new() }
    }

    /// Slot that holds the chunk at `p`, if any.
    pub fn find(&self, p: ChunkPos) -> (r: Option<usize>)
        requires
            self.wf(),
        ensures
            match r {
                Some(i) => i < self.chunks@.len() && self.chunks@[i as int].pos == p && i == self.slot(p)
                    && self.has(p),
                None => !self.has(p),
            },
    {
        let n = self.chunks.len();
        let mut i: usize = 0;
        while i < n
            invariant
                0 <= i <= n,
                n == self.chunks@.len(),
                self.wf(),
                forall|j: int| 0 <= j < i ==> self.chunks@[j].pos != p,
            decreases n - i,
        {
            if self.chunks[i].pos == p {
                proof {
                    self.lemma_slot(i as int);
                }
                return Some(i);
            }
            i = i + 1;
        }
        None
    }

    /// Whether a chunk exists at `p`.
    pub fn contains_key(&self, p: ChunkPos) -> (r: bool)
        requires
            self.wf(),
        ensures
            r == self.has(p),
    {
        self.find(p).is_some()
    }

    /// Adds a chunk at a position where none exists yet.
    pub fn insert(&mut self, c: LiveChunk)
        requires
            old(self).wf(),
            !old(self).has(c.pos),
            c.data.wf(),
        ensures
            final(self).wf(),
            final(self).chunks@ == old(self).chunks@.push(c),
    {
        self.chunks.push(c);
    }

    /// Takes the chunk at `p` out of the world, if one exists. The other
    /// chunks keep their order.
    pub fn remove(&mut self, p: ChunkPos) -> (r: Option<LiveChunk>)
        requires
            old(self).wf(),
        ensures
            final(self).wf(),
            match r {
                Some(c) => old(self).has(p) && c == old(self).chunk(p) && final(self).chunks@
                    == old(self).chunks@.remove(old(self).slot(p)),
                None => !old(self).has(p) && final(self).chunks@ == old(self).chunks@,
            },
    {
        match self.find(p) {
            Some(i) => {
                let c = self.chunks.remove(i);
                proof {
                    let s = old(self).chunks@;
                    assert forall|a: int, b: int|
                        0 <= a < self.chunks@.len() && 0 <= b < self.chunks@.len() && a != b
                            implies self.chunks@[a].pos != self.chunks@[b].pos by {
                        let a2 = if a < i { a } else { a + 1 };
                        let b2 = if b < i { b } else { b + 1 };
                        assert(self.chunks@[a] == s[a2]);
                        assert(self.chunks@[b] == s[b2]);
                    }
                    assert forall|a: int| 0 <= a < self.chunks@.len() implies (
                    #[trigger] self.chunks@[a]).data.wf() by {
                        let a2 = if a < i { a } else { a + 1 };
                        assert(self.chunks@[a] == s[a2]);
                    }
                }
                Some(c)
            },
            None => None,
        }
    }

    /// Sets the stale-mesh mark of every existing chunk that shares a face
    /// with `pos`, and of no other chunk.
    pub fn mark_neighbors_dirty(&mut self, pos: ChunkPos)
        requires
            old(self).wf(),
        ensures
            final(self).wf(),
            final(self).chunks@.len() == old(self).chunks@.len(),
            forall|i: int|
                0 <= i < final(self).chunks@.len() ==> {
                    let c = #[trigger] final(self).chunks@[i];
                    let o = old(self).chunks@[i];
                    &&& c.pos == o.pos
                    &&& c.data == o.data
                    &&& c.modified == o.modified
                    &&& c.dirty == (o.dirty || face_adjacent(o.pos, pos))
                },
    {
        let n = self.chunks.len();
        let mut i: usize = 0;
        while i < n
            invariant
                0 <= i <= n,
                n == self.chunks@.len(),
                n == old(self).chunks@.len(),
                forall|j: int|
                    0 <= j < n ==> {
                        let c = #[trigger] self.chunks@[j];
                        let o = old(self).chunks@[j];
                        &&& c.pos == o.pos
                        &&& c.data == o.data
                        &&& c.modified == o.modified
                        &&& c.dirty == if j < i {
                            o.dirty || face_adjacent(o.pos, pos)
                        } else {
                            o.dirty
                        }
                    },
            decreases n - i,
        {
            if is_face_adjacent(self.chunks[i].pos, pos) {
                self.chunks[i].dirty = true;
            }
            i = i + 1;
        }
        proof {
            let s = self.chunks@;
            let o = old(self).chunks@;
            assert forall|a: int, b: int|
                0 <= a < s.len() && 0 <= b < s.len() && a != b implies s[a].pos != s[b].pos by {
                assert(s[a].pos == o[a].pos);
                assert(s[b].pos == o[b].pos);
            }
            assert forall|a: int| 0 <= a < s.len() implies (#[trigger] s[a]).data.wf() by {
                assert(s[a].data == o[a].data);
            }
        }
    }
}

/// Block at voxel `(x, y, z)` given relative to the origin of chunk
/// `base`: the target chunk and local coordinate are found by Euclidean
/// division by the chunk size; a missing chunk reads as air.
pub fn get_block_world(world: &VoxelWorld, base: ChunkPos, x: i32, y: i32, z: i32) -> (r: Block)
    requires
        world.wf(),
    ensures
        r == world.block_rel(base, x as int, y as int, z as int),
{
    let (ox, lx) = split_axis(x);
    let (oy, ly) = split_axis(y);
    let (oz, lz) = split_axis(z);
    let cx: i64 = base.x as i64 + ox as i64;
    let cy: i64 = base.y as i64 + oy as i64;
    let cz: i64 = base.z as i64 + oz as i64;
    if cx < i32::MIN as i64 || cx > i32::MAX as i64 || cy < i32::MIN as i64 || cy
        > i32::MAX as i64 || cz < i32::MIN as i64 || cz > i32::MAX as i64 {
        proof {
            assert(!world.has_at(cx as int, cy as int, cz as int));
        }
        return Block::Air;
    }
    let p = ChunkPos { x: cx as i32, y: cy as i32, z: cz as i32 };
    match world.find(p) {
        Some(i) => {
            proof {
                assert(world.has_at(cx as int, cy as int, cz as int));
            }
            world.chunks[i].data.get_local(lx, ly, lz)
        },
        None => {
            proof {
                if world.has_at(cx as int, cy as int, cz as int) {
                    let j = choose|j: int|
                        0 <= j < world.chunks@.len() && world.chunks@[j].pos.x == cx
                            && world.chunks@[j].pos.y == cy && world.chunks@[j].pos.z == cz;
                    assert(world.chunks@[j].pos == p);
                }
            }
            Block::Air
        },
    }
}

/// Splits a voxel coordinate into a chunk offset and a local coordinate by
/// Euclidean division by the chunk size.
fn split_axis(v: i32) -> (r: (i32, i32))
    ensures
        r.0 as int == v as int / 16,
        r.1 as int == v as int % 16,
{
    let q: i32 = match v.checked_div_euclid(16) {
        Some(q) => q,
        None => 0,
    };
    let m: i32 = match v.checked_rem_euclid(16) {
        Some(m) => m,
        None => 0,
    };
    (q, m)
}

} // verus!
