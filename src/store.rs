use vstd::prelude::*;

use crate::chunk::{Block, ChunkData, ChunkPos, CHUNK_VOLUME};

verus! {

/// In-memory save cache: the grids of chunks that were evicted while
/// modified, keyed by chunk position. Entries never expire.
pub struct ChunkSaveStore {
    pub saved: Vec<(ChunkPos, Vec<Block>)>,
}

/// Copies a grid's blocks.
pub fn copy_blocks(blocks: &Vec<Block>) -> (r: Vec<Block>)
    ensures
        r@ == blocks@,
{
    let mut r: Vec<Block> = Vec::new();
    let n = blocks.len();
    let mut i: usize = 0;
    while i < n
        invariant
            0 <= i <= n,
            n == blocks@.len(),
            r@ == blocks@.subrange(0, i as int),
        decreases n - i,
    {
        r.push(blocks[i]);
        i = i + 1;
        assert(r@ =~= blocks@.subrange(0, i as int));
    }
    assert(r@ =~= blocks@);
    r
}

impl ChunkSaveStore {
    /// Each position is saved at most once, and every saved grid has one
    /// block per voxel.
    pub open spec fn wf(&self) -> bool {
        &&& forall|i: int, j: int|
            0 <= i < self.saved@.len() && 0 <= j < self.saved@.len() && i != j
                ==> self.saved@[i].0 != self.saved@[j].0
        &&& forall|i: int| 0 <= i < self.saved@.len() ==> (#[trigger] self.saved@[i]).1@.len() == CHUNK_VOLUME
    }

    /// Whether a grid is saved for `p`.
    pub open spec fn has(&self, p: ChunkPos) -> bool {
        exists|i: int| 0 <= i < self.saved@.len() && self.saved@[i].0 == p
    }

    /// The saved grids, by position.
    pub open spec fn view(&self) -> Map<ChunkPos, Seq<Block>> {
        Map::new(
            |p: ChunkPos| self.has(p),
            |p: ChunkPos|
                self.saved@[choose|i: int| 0 <= i < self.saved@.len() && self.saved@[i].0 == p].1@,
        )
    }

    /// An empty cache.
    pub fn new() -> (r: ChunkSaveStore)
        ensures
            r.wf(),
            r@ == Map::<ChunkPos, Seq<Block>>::empty(),
    {
        let r = ChunkSaveStore { saved: Vec::new() };
        assert(r@ =~= Map::<ChunkPos, Seq<Block>>::empty());
        r
    }

    fn find(&self, p: ChunkPos) -> (r: Option<usize>)
        requires
            self.wf(),
        ensures
            match r {
                Some(i) => i < self.saved@.len() && self.saved@[i as int].0 == p && self.has(p)
                    && self@[p] == self.saved@[i as int].1@,
                None => !self.has(p),
            },
    {
        let n = self.saved.len();
        let mut i: usize = 0;
        while i < n
            invariant
                0 <= i <= n,
                n == self.saved@.len(),
                self.wf(),
                forall|j: int| 0 <= j < i ==> self.saved@[j].0 != p,
            decreases n - i,
        {
            if self.saved[i].0 == p {
                proof {
                    assert(self.has(p));
                    let k = choose|k: int| 0 <= k < self.saved@.len() && self.saved@[k].0 == p;
                    assert(k == i);
                }
                return Some(i);
            }
            i = i + 1;
        }
        None
    }

    /// A fresh grid holding the blocks saved for `pos`, if any.
    pub fn load_chunk(&self, pos: ChunkPos) -> (r: Option<ChunkData>)
        requires
            self.wf(),
        ensures
            match r {
                Some(d) => self@.contains_key(pos) && d.blocks@ == self@[pos] && d.wf(),
                None => !self@.contains_key(pos),
            },
    {
        match self.find(pos) {
            Some(i) => Some(ChunkData { blocks: copy_blocks(&self.saved[i].1) }),
            None => None,
        }
    }

    /// Saves a copy of a grid's blocks under `pos`, replacing an earlier entry.
    pub fn save_chunk(&mut self, pos: ChunkPos, data: &ChunkData)
        requires
            old(self).wf(),
            data.wf(),
        ensures
            final(self).wf(),
            final(self)@ == old(self)@.insert(pos, data.blocks@),
    {
        let blocks = copy_blocks(&data.blocks);
        match self.find(pos) {
            Some(i) => {
                self.saved[i].1 = blocks;
                proof {
                    let o = old(self).saved@;
                    let s = self.saved@;
                    assert forall|a: int| 0 <= a < s.len() implies s[a].0 == o[a].0 by {}
                    assert forall|q: ChunkPos| self.has(q) <==> old(self).has(q) by {
                        if self.has(q) {
                            let k = choose|k: int| 0 <= k < s.len() && s[k].0 == q;
                            assert(o[k].0 == q);
                        }
                        if old(self).has(q) {
                            let k = choose|k: int| 0 <= k < o.len() && o[k].0 == q;
                            assert(s[k].0 == q);
                        }
                    }
                    assert forall|q: ChunkPos| self.has(q) implies #[trigger] self@[q] == (
                    if q == pos {
                        data.blocks@
                    } else {
                        old(self)@[q]
                    }) by {
                        let k = choose|k: int| 0 <= k < s.len() && s[k].0 == q;
                        let k2 = choose|k: int| 0 <= k < o.len() && o[k].0 == q;
                        assert(o[k].0 == q);
                        assert(k == k2);
                        if q == pos {
                            assert(k == i);
                        }
                    }
                    assert(self@ =~= old(self)@.insert(pos, data.blocks@));
                }
            },
            None => {
                self.saved.push((pos, blocks));
                proof {
                    let o = old(self).saved@;
                    let s = self.saved@;
                    let n = o.len() as int;
                    assert forall|q: ChunkPos| self.has(q) <==> (old(self).has(q) || q == pos) by {
                        if self.has(q) {
                            let k = choose|k: int| 0 <= k < s.len() && s[k].0 == q;
                            if k < n {
                                assert(o[k].0 == q);
                            }
                        }
                        if old(self).has(q) {
                            let k = choose|k: int| 0 <= k < o.len() && o[k].0 == q;
                            assert(s[k].0 == q);
                        }
                        if q == pos {
                            assert(s[n].0 == q);
                        }
                    }
                    assert forall|q: ChunkPos| self.has(q) implies #[trigger] self@[q] == (
                    if q == pos {
                        data.blocks@
                    } else {
                        old(self)@[q]
                    }) by {
                        let k = choose|k: int| 0 <= k < s.len() && s[k].0 == q;
                        if q == pos {
                            assert(k == n);
                        } else {
                            let k2 = choose|k: int| 0 <= k < o.len() && o[k].0 == q;
                            assert(s[k2].0 == q);
                            assert(k == k2);
                        }
                    }
                    assert(self@ =~= old(self)@.insert(pos, data.blocks@));
                }
            },
        }
    }
}

} // verus!
