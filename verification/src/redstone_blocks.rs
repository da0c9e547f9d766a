//! Block ids of redstone components.

use vstd::prelude::*;

verus! {

use crate::chunk::BlockId;

pub const LEVER: BlockId = 38;
pub const STONE_BUTTON: BlockId = 39;
pub const OAK_BUTTON: BlockId = 40;
pub const STONE_PRESSURE_PLATE: BlockId = 41;
pub const OAK_PRESSURE_PLATE: BlockId = 42;
pub const REDSTONE_WIRE: BlockId = 43;
pub const REDSTONE_TORCH: BlockId = 44;
pub const REDSTONE_LAMP: BlockId = 45;
pub const REDSTONE_LAMP_LIT: BlockId = 46;
pub const REDSTONE_REPEATER: BlockId = 123;
pub const REDSTONE_COMPARATOR: BlockId = 124;
pub const REDSTONE_OBSERVER: BlockId = 126;

} // verus!
