use mdminecraft_world::chunk::{BlockId, BLOCK_AIR, BLOCK_RESPAWN_ANCHOR};
use mdminecraft_world::lighting::BlockOpacityProvider;
use mdminecraft_world::light_sources::{block_light_emission};
use mdminecraft_world::redstone::{set_active};
use mdminecraft_world::respawn_anchor::{respawn_anchor_light_level, set_respawn_anchor_charges};
use mdminecraft_world::redstone_blocks;

struct BaseEmissiveRegistry;

impl BlockOpacityProvider for BaseEmissiveRegistry {
    fn opaque_of(&self, block_id: BlockId) -> bool {
        block_id != BLOCK_AIR
    }

    fn is_opaque(&self, block_id: BlockId) -> bool {
        block_id != BLOCK_AIR
    }

    fn light_opacity(&self, block_id: BlockId) -> u8 {
        if block_id == BLOCK_AIR {
            0
        } else {
            15
        }
    }

    fn base_emission_of(&self, _block_id: BlockId) -> u8 {
        15
    }

    fn base_block_light_emission(&self, _block_id: BlockId) -> u8 {
        // Simulate a legacy config/pack that marked everything `emissive: true`.
        15
    }
}

#[test]
fn stateful_overrides_ignore_base_emission() {
    let registry = BaseEmissiveRegistry;

    // Redstone torch off should emit 0 even if registry says it emits light.
    let off = block_light_emission(redstone_blocks::REDSTONE_TORCH, 0, &registry);
    assert_eq!(off, 0);

    let on_state = set_active(0, true);
    let on = block_light_emission(redstone_blocks::REDSTONE_TORCH, on_state, &registry);
    assert_eq!(on, 7);

    // Respawn anchor should follow its charge-derived emission even if base is non-zero.
    for charges in 0..=4 {
        let state = set_respawn_anchor_charges(0, charges);
        let expected = respawn_anchor_light_level(charges);
        let emission = block_light_emission(BLOCK_RESPAWN_ANCHOR, state, &registry);
        assert_eq!(emission, expected);
    }
}

#[test]
fn blocks_without_override_emit_the_registry_base() {
    let registry = BaseEmissiveRegistry;
    assert_eq!(block_light_emission(BLOCK_AIR, 0, &registry), 15);
    assert_eq!(block_light_emission(redstone_blocks::LEVER, 0, &registry), 15);
}
