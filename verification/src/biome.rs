//! Biome identifiers.

use vstd::prelude::*;

verus! {

/// The biomes a column of the world can belong to.
#[derive(Debug, Clone, Copy, PartialEq, Eq, Hash, Structural)]
pub enum BiomeId {
    Ocean,
    DeepOcean,
    Plains,
    Forest,
    BirchForest,
    RainForest,
    Desert,
    Savanna,
    Swamp,
    Hills,
    Mountains,
    IcePlains,
    IceMountains,
    Tundra,
}

} // verus!
