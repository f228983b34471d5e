//! Voxel materials and the seeded procedural generator: content is a pure
//! function of the seed and the region key, so generation is deterministic.

use vstd::prelude::*;
use crate::region::Region;

verus! {

/// The per-voxel payload of a region.
#[derive(Clone, Copy, PartialEq, Eq, Structural, Debug, Hash)]
pub enum Material {
    Empty,
    Dirt,
    Stone,
    Bedrock,
}

impl Material {
    /// Whether this is the default material, which yields no registry entry
    /// when loaded for a local owner.
    pub open spec fn spec_is_empty(self) -> bool {
        self is Empty
    }

    pub fn is_empty(self) -> (r: bool)
        ensures
            r == self.spec_is_empty(),
    {
        match self {
            Material::Empty => true,
            _ => false,
        }
    }
}

/// Ground altitude over the cell column of `r`, offset so that all
/// intermediate values are non-negative. Pure in the seed and the key.
pub open spec fn spec_ground(seed: u64, r: Region) -> int {
    0x8000_0000 + ((r.pos.x + 0x8000_0000) * 31 + (r.pos.z + 0x8000_0000) * 17 + (seed as int) % 61
        + r.lod) % 64
}

/// Deterministic procedural content for a region: a pure function of the
/// seed and the region key, with no hidden state.
pub open spec fn spec_procedural(seed: u64, r: Region) -> Material {
    if r.pos.y < -256 {
        Material::Bedrock
    } else {
        let alt = r.pos.y + 0x8000_0000;
        let g = spec_ground(seed, r);
        if alt < g {
            if alt + 8 >= g {
                Material::Dirt
            } else {
                Material::Stone
            }
        } else {
            Material::Empty
        }
    }
}

/// Computes the procedural content of a region.
pub fn procedural(seed: u64, r: Region) -> (m: Material)
    ensures
        m == spec_procedural(seed, r),
{
    if r.pos.y < -256 {
        Material::Bedrock
    } else {
        let ux: u64 = (r.pos.x as i64 + 0x8000_0000) as u64;
        let uz: u64 = (r.pos.z as i64 + 0x8000_0000) as u64;
        let alt: u64 = (r.pos.y as i64 + 0x8000_0000) as u64;
        let g: u64 = 0x8000_0000 + (ux * 31 + uz * 17 + seed % 61 + r.lod as u64) % 64;
        if alt < g {
            if alt + 8 >= g {
                Material::Dirt
            } else {
                Material::Stone
            }
        } else {
            Material::Empty
        }
    }
}

} // verus!
