//! Block ids of pistons and container machines.

use vstd::prelude::*;

verus! {

use crate::chunk::BlockId;

pub const PISTON: BlockId = 127;
pub const PISTON_HEAD: BlockId = 128;
pub const DISPENSER: BlockId = 129;
pub const DROPPER: BlockId = 130;
pub const HOPPER: BlockId = 131;

} // verus!
