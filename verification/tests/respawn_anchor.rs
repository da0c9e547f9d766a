use mdminecraft_world::respawn_anchor::{RESPAWN_ANCHOR_MAX_CHARGES, respawn_anchor_charges, respawn_anchor_light_level, set_respawn_anchor_charges};

#[test]
fn charges_roundtrip_and_clamp() {
    let state = 0u16;
    assert_eq!(respawn_anchor_charges(state), 0);

    let state = set_respawn_anchor_charges(state, 3);
    assert_eq!(respawn_anchor_charges(state), 3);

    let state = set_respawn_anchor_charges(state, 99);
    assert_eq!(respawn_anchor_charges(state), RESPAWN_ANCHOR_MAX_CHARGES);
}

#[test]
fn light_level_matches_vanillaish_steps() {
    assert_eq!(respawn_anchor_light_level(0), 0);
    assert_eq!(respawn_anchor_light_level(1), 3);
    assert_eq!(respawn_anchor_light_level(2), 7);
    assert_eq!(respawn_anchor_light_level(3), 11);
    assert_eq!(respawn_anchor_light_level(4), 15);
    assert_eq!(respawn_anchor_light_level(99), 15);
}
