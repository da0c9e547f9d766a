//! Block ids of interactive blocks (doors, gates, beds, ...).

use vstd::prelude::*;

verus! {

use crate::chunk::BlockId;

pub const GLASS: BlockId = 25;
pub const OAK_DOOR_LOWER: BlockId = 26;
pub const OAK_DOOR_UPPER: BlockId = 27;
pub const IRON_DOOR_LOWER: BlockId = 28;
pub const IRON_DOOR_UPPER: BlockId = 29;
pub const LADDER: BlockId = 30;
pub const OAK_FENCE: BlockId = 31;
pub const OAK_FENCE_GATE: BlockId = 32;
pub const STONE_SLAB: BlockId = 33;
pub const OAK_SLAB: BlockId = 34;
pub const STONE_STAIRS: BlockId = 35;
pub const OAK_STAIRS: BlockId = 36;
pub const GLASS_PANE: BlockId = 37;
pub const BED_HEAD: BlockId = 65;
pub const BED_FOOT: BlockId = 66;
pub const CHEST: BlockId = 67;
pub const TRAPDOOR: BlockId = 68;
pub const TORCH: BlockId = 69;
pub const COBBLESTONE_WALL: BlockId = 114;
pub const IRON_BARS: BlockId = 115;
pub const STONE_BRICK_SLAB: BlockId = 117;
pub const STONE_BRICK_STAIRS: BlockId = 118;
pub const STONE_BRICK_WALL: BlockId = 119;

} // verus!
