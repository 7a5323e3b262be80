use vstd::prelude::*;

use crate::chunk::{Block, Point3};
use crate::config::{BlockDef, BlocksConfig, Tile};

verus! {

/// One of the six axis-aligned directions a voxel face can look to.
#[derive(Clone, Copy, Debug, PartialEq, Eq, Structural)]
pub enum FaceDir {
    PosX,
    NegX,
    PosY,
    NegY,
    PosZ,
    NegZ,
}

/// Which of a block's texture slots a face uses.
#[derive(Clone, Copy, Debug, PartialEq, Eq, Structural)]
pub enum BlockFace {
    Top,
    Bottom,
    Side,
}

/// A fault of the block/tile configuration found while meshing.
#[derive(Clone, Copy, Debug, PartialEq, Eq, Structural)]
pub enum ConfigError {
    /// No definition is registered under the block's name.
    MissingBlock(Block),
    /// The block's definition has neither `all` nor the needed face entry.
    MissingFace(Block, BlockFace),
}

/// Texture slot used by a face direction: up is top, down is bottom, the rest
/// are sides.
pub open spec fn face_kind_of(dir: FaceDir) -> BlockFace {
    match dir {
        FaceDir::PosY => BlockFace::Top,
        FaceDir::NegY => BlockFace::Bottom,
        _ => BlockFace::Side,
    }
}

/// Texture slot used by a face direction.
pub fn face_kind(dir: FaceDir) -> (r: BlockFace)
    ensures
        r == face_kind_of(dir),
{
    match dir {
        FaceDir::PosY => BlockFace::Top,
        FaceDir::NegY => BlockFace::Bottom,
        _ => BlockFace::Side,
    }
}

/// Kind a block is drawn as: grass under a non-air block is drawn as dirt,
/// and dirt with air above is drawn as grass.
pub open spec fn effective_kind(block: Block, above_is_air: bool) -> Block {
    match block {
        Block::Grass => if above_is_air { Block::Grass } else { Block::Dirt },
        Block::Dirt => if above_is_air { Block::Grass } else { Block::Dirt },
        other => other,
    }
}

/// Kind a block is drawn as, given whether the block above it is air.
pub fn effective_block_kind(block: Block, above_is_air: bool) -> (r: Block)
    ensures
        r == effective_kind(block, above_is_air),
{
    match block {
        Block::Grass => if above_is_air { Block::Grass } else { Block::Dirt },
        Block::Dirt => if above_is_air { Block::Grass } else { Block::Dirt },
        other => other,
    }
}

/// Name under which a block kind is looked up in the configuration.
pub open spec fn block_name(block: Block) -> Seq<char> {
    match block {
        Block::Grass => "grass"@,
        Block::Dirt => "dirt"@,
        Block::Stone => "stone"@,
        Block::Air => "air"@,
    }
}

/// Atlas cell of a block definition for one texture slot.
pub open spec fn def_tile(block: Block, def: BlockDef, face: BlockFace) -> Result<Tile, ConfigError> {
    if def.all.is_some() {
        Ok(def.all.unwrap())
    } else {
        let slot = match face {
            BlockFace::Top => def.top,
            BlockFace::Bottom => def.bottom,
            BlockFace::Side => def.side,
        };
        match slot {
            Some(t) => Ok(t),
            None => Err(ConfigError::MissingFace(block, face)),
        }
    }
}

/// Atlas cell configured for a block kind and texture slot.
pub open spec fn tile_of(cfg: &BlocksConfig, block: Block, face: BlockFace) -> Result<Tile, ConfigError> {
    match cfg.def_named(block_name(block)) {
        None => Err(ConfigError::MissingBlock(block)),
        Some(def) => def_tile(block, def, face),
    }
}

/// Atlas cell configured for a block kind and texture slot; a missing block
/// or face entry is a configuration error.
pub fn tile_for(cfg: &BlocksConfig, block: Block, face: BlockFace) -> (r: Result<Tile, ConfigError>)
    ensures
        r == tile_of(cfg, block, face),
{
    let key: String = match block {
        Block::Grass => "grass".to_owned(),
        Block::Dirt => "dirt".to_owned(),
        Block::Stone => "stone".to_owned(),
        Block::Air => "air".to_owned(),
    };
    let def = match cfg.find_block_def(&key) {
        Some(d) => d,
        None => {
            return Err(ConfigError::MissingBlock(block));
        },
    };
    if let Some(all) = def.all {
        return Ok(all);
    }
    let slot = match face {
        BlockFace::Top => def.top,
        BlockFace::Bottom => def.bottom,
        BlockFace::Side => def.side,
    };
    match slot {
        Some(t) => Ok(t),
        None => Err(ConfigError::MissingFace(block, face)),
    }
}

/// Direction tag stored in the top byte of a face identity.
pub open spec fn dir_tag(dir: FaceDir) -> u32 {
    match dir {
        FaceDir::PosX => 1,
        FaceDir::NegX => 2,
        FaceDir::PosY => 3,
        FaceDir::NegY => 4,
        FaceDir::PosZ => 5,
        FaceDir::NegZ => 6,
    }
}

/// Packs an atlas cell and a direction into one identity value: the low 16
/// bits of the column, the low 16 bits of the row shifted up by 16, and the
/// direction tag xor-ed into the top byte.
pub open spec fn pack_face_id(tile: Tile, dir: FaceDir) -> u32 {
    ((tile.0 & 0xFFFFu32) | ((tile.1 & 0xFFFFu32) << 16u32)) ^ (dir_tag(dir) << 24u32)
}

/// Identity of a face of an (effective) block kind looking in `dir`. Faces
/// are merged only when their identities are equal.
pub open spec fn face_identity(cfg: &BlocksConfig, block: Block, dir: FaceDir) -> Result<u32, ConfigError> {
    match tile_of(cfg, block, face_kind_of(dir)) {
        Ok(t) => Ok(pack_face_id(t, dir)),
        Err(e) => Err(e),
    }
}

/// Identity of a face of an (effective) block kind looking in `dir`.
pub fn face_id(cfg: &BlocksConfig, block: Block, dir: FaceDir) -> (r: Result<u32, ConfigError>)
    ensures
        r == face_identity(cfg, block, dir),
{
    let face = face_kind(dir);
    let tile = match tile_for(cfg, block, face) {
        Ok(t) => t,
        Err(e) => {
            return Err(e);
        },
    };
    let t: u32 = (tile.0 & 0xFFFF) | ((tile.1 & 0xFFFF) << 16u32);
    let d: u32 = match dir {
        FaceDir::PosX => 1,
        FaceDir::NegX => 2,
        FaceDir::PosY => 3,
        FaceDir::NegY => 4,
        FaceDir::PosZ => 5,
        FaceDir::NegZ => 6,
    };
    Ok(t ^ (d << 24u32))
}

/// Unit offset of a direction.
pub open spec fn dir_offset(dir: FaceDir) -> (int, int, int) {
    match dir {
        FaceDir::PosX => (1, 0, 0),
        FaceDir::NegX => (-1, 0, 0),
        FaceDir::PosY => (0, 1, 0),
        FaceDir::NegY => (0, -1, 0),
        FaceDir::PosZ => (0, 0, 1),
        FaceDir::NegZ => (0, 0, -1),
    }
}

/// Outward normal of a face looking in `dir`.
pub fn face_normal(dir: FaceDir) -> (r: Point3)
    ensures
        (r.x as int, r.y as int, r.z as int) == dir_offset(dir),
{
    match dir {
        FaceDir::PosX => Point3 { x: 1, y: 0, z: 0 },
        FaceDir::NegX => Point3 { x: -1, y: 0, z: 0 },
        FaceDir::PosY => Point3 { x: 0, y: 1, z: 0 },
        FaceDir::NegY => Point3 { x: 0, y: -1, z: 0 },
        FaceDir::PosZ => Point3 { x: 0, y: 0, z: 1 },
        FaceDir::NegZ => Point3 { x: 0, y: 0, z: -1 },
    }
}

} // verus!
