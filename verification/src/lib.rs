//! World simulation rules of a voxel sandbox: block state encodings, interactive blocks,
//! redstone, lighting, inventories, status effects and world persistence framing.

pub mod chunk;
pub mod bits;
pub mod interactive_blocks;
pub mod redstone_blocks;
pub mod mechanical_blocks;
pub mod interaction;
pub mod redstone;
pub mod inventory;
pub mod potion;
pub mod lighting;
pub mod respawn_anchor;
pub mod weather;
pub mod light_sources;
pub mod biome;
pub mod trees;
pub mod pathfinding;
pub mod persist;
pub mod mob;
pub mod portals;
pub mod structures;
pub mod structure_template;
pub mod rng;
pub mod mineshaft;
pub mod sugar_cane;
pub mod ruin;
pub mod noise;
pub mod storage;
pub mod village;
pub mod time;
pub mod projectile;
