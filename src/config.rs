use vstd::prelude::*;

verus! {

/// Tile coordinates of one atlas cell, as (column, row).
pub type Tile = (u32, u32);

/// Description of the texture atlas.
pub struct AtlasInfo {
    pub size: (u32, u32),
    pub tile_size: (u32, u32),
    pub texture: String,
}

/// Description of the skybox texture.
pub struct SkyboxInfo {
    pub texture: String,
}

/// Atlas cells of one block kind: `all` applies to every face and wins over
/// the per-face entries.
#[derive(Clone, Copy, Debug)]
pub struct BlockDef {
    pub all: Option<Tile>,
    pub top: Option<Tile>,
    pub bottom: Option<Tile>,
    pub side: Option<Tile>,
}

/// The block/tile configuration: atlas, skybox, and the atlas cells of each
/// block kind keyed by its name. The first entry with a given name counts.
pub struct BlocksConfig {
    pub atlas: AtlasInfo,
    pub skybox: SkyboxInfo,
    pub blocks: Vec<(String, BlockDef)>,
}

/// The first definition named `name` among `defs`.
pub open spec fn find_def(defs: Seq<(String, BlockDef)>, name: Seq<char>) -> Option<BlockDef>
    decreases defs.len(),
{
    if defs.len() == 0 {
        None
    } else if defs[0].0@ == name {
        Some(defs[0].1)
    } else {
        find_def(defs.subrange(1, defs.len() as int), name)
    }
}

impl BlocksConfig {
    /// The definition registered under `name`, if any.
    pub open spec fn def_named(&self, name: Seq<char>) -> Option<BlockDef> {
        find_def(self.blocks@, name)
    }

    /// The definition registered under `name`, if any.
    pub fn find_block_def(&self, name: &String) -> (r: Option<BlockDef>)
        ensures
            r == self.def_named(name@),
    {
        let n = self.blocks.len();
        let mut i: usize = 0;
        assert(self.blocks@.subrange(0, n as int) =~= self.blocks@);
        while i < n
            invariant
                0 <= i <= n,
                n == self.blocks@.len(),
                find_def(self.blocks@, name@) == find_def(
                    self.blocks@.subrange(i as int, n as int),
                    name@,
                ),
            decreases n - i,
        {
            let ghost rest = self.blocks@.subrange(i as int, n as int);
            assert(rest.subrange(1, rest.len() as int) =~= self.blocks@.subrange(
                i + 1,
                n as int,
            ));
            if self.blocks[i].0 == *name {
                return Some(self.blocks[i].1);
            }
            i = i + 1;
        }
        None
    }
}

} // verus!
