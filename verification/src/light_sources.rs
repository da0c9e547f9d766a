//! Block light emitted by blocks: registry base values, overridden by block state for
//! redstone torches and respawn anchors.

use crate::chunk::{BlockId, BlockState, BLOCK_RESPAWN_ANCHOR};
use crate::lighting::BlockOpacityProvider;
use crate::redstone::{is_active, spec_is_active};
use crate::redstone_blocks;
use crate::respawn_anchor::{respawn_anchor_charges, respawn_anchor_light_level, spec_anchor_light, spec_charges};
use vstd::prelude::*;

verus! {

/// Emission decided by the block state alone: an active redstone torch gives 7 (an inactive
/// one 0), a respawn anchor follows its charges; `None` for other blocks.
pub open spec fn spec_emission_override(block_id: BlockId, state: BlockState) -> Option<u8> {
    if block_id == redstone_blocks::REDSTONE_TORCH {
        Some(if spec_is_active(state) { 7u8 } else { 0u8 })
    } else if block_id == BLOCK_RESPAWN_ANCHOR {
        Some(spec_anchor_light(spec_charges(state)))
    } else {
        None
    }
}

fn block_light_emission_override(block_id: BlockId, state: BlockState) -> (res: Option<u8>)
    ensures
        res == spec_emission_override(block_id, state),
{
    if block_id == redstone_blocks::REDSTONE_TORCH {
        Some(if is_active(state) { 7 } else { 0 })
    } else if block_id == BLOCK_RESPAWN_ANCHOR {
        Some(respawn_anchor_light_level(respawn_anchor_charges(state)))
    } else {
        None
    }
}

/// Block light a block emits: the state-dependent value for redstone torches and respawn
/// anchors, otherwise the registry's base emission.
pub fn block_light_emission<R: BlockOpacityProvider>(block_id: BlockId, state: BlockState, registry: &R) -> (res: u8)
    ensures
        spec_emission_override(block_id, state) matches Some(v) ==> res == v,
        spec_emission_override(block_id, state) is None ==> res == registry.base_emission_of(block_id),
{
    match block_light_emission_override(block_id, state) {
        Some(v) => v,
        None => registry.base_block_light_emission(block_id),
    }
}

/// Whether a block emits block light.
pub fn emits_block_light<R: BlockOpacityProvider>(block_id: BlockId, state: BlockState, registry: &R) -> (res: bool)
    ensures
        spec_emission_override(block_id, state) matches Some(v) ==> res == (v > 0),
        spec_emission_override(block_id, state) is None ==> res == (registry.base_emission_of(block_id) > 0),
{
    block_light_emission(block_id, state, registry) > 0
}

} // verus!
