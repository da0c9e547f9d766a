use mdminecraft_world::chunk::{Chunk, ChunkMap, ChunkPos, Voxel, BLOCK_AIR};
use mdminecraft_world::interaction::{Facing, is_door_open, is_fence_gate_open, is_redstone_powered, is_trapdoor_open, set_door_open};
use mdminecraft_world::redstone::{MAX_POWER, RedstoneComponent, RedstonePos, RedstoneSimulator, comparator_output_power, get_power_level, is_active, observer_observed_hash, repeater_delay_ticks, repeater_facing, set_active, set_comparator_facing, set_comparator_output_power, set_comparator_subtract_mode, set_observer_facing, set_piston_facing, set_power_level, set_repeater_delay_ticks, set_repeater_facing};
use mdminecraft_world::interactive_blocks;
use mdminecraft_world::redstone_blocks;
use mdminecraft_world::mechanical_blocks;

fn create_test_chunk() -> Chunk {
    Chunk::new(ChunkPos::new(0, 0))
}

#[test]
fn test_power_level_encoding() {
    let state = set_power_level(0, 10);
    assert_eq!(get_power_level(state), 10);

    let state = set_power_level(state, 15);
    assert_eq!(get_power_level(state), 15);

    // Test max clamp
    let state = set_power_level(0, 20);
    assert_eq!(get_power_level(state), 15);
}

#[test]
fn test_active_flag() {
    let state = set_active(0, true);
    assert!(is_active(state));

    let state = set_active(state, false);
    assert!(!is_active(state));

    // Test combination with power level
    let state = set_active(set_power_level(0, 12), true);
    assert!(is_active(state));
    assert_eq!(get_power_level(state), 12);
}

#[test]
fn test_redstone_component_detection() {
    assert_eq!(
        RedstoneComponent::from_block_id(redstone_blocks::LEVER),
        Some(RedstoneComponent::Lever)
    );
    assert_eq!(
        RedstoneComponent::from_block_id(redstone_blocks::REDSTONE_WIRE),
        Some(RedstoneComponent::Wire)
    );
    assert_eq!(
        RedstoneComponent::from_block_id(redstone_blocks::REDSTONE_LAMP),
        Some(RedstoneComponent::Lamp)
    );
    assert_eq!(
        RedstoneComponent::from_block_id(redstone_blocks::REDSTONE_REPEATER),
        Some(RedstoneComponent::Repeater)
    );
    assert_eq!(
        RedstoneComponent::from_block_id(redstone_blocks::REDSTONE_COMPARATOR),
        Some(RedstoneComponent::Comparator)
    );
    assert_eq!(
        RedstoneComponent::from_block_id(redstone_blocks::REDSTONE_OBSERVER),
        Some(RedstoneComponent::Observer)
    );
    assert_eq!(RedstoneComponent::from_block_id(0), None); // Air
}

#[test]
fn test_power_source_detection() {
    assert!(RedstoneComponent::Lever.is_power_source());
    assert!(RedstoneComponent::Button.is_power_source());
    assert!(RedstoneComponent::PressurePlate.is_power_source());
    assert!(RedstoneComponent::Torch.is_power_source());
    assert!(!RedstoneComponent::Wire.is_power_source());
    assert!(!RedstoneComponent::Lamp.is_power_source());
    assert!(!RedstoneComponent::Repeater.is_power_source());
    assert!(!RedstoneComponent::Comparator.is_power_source());
    assert!(!RedstoneComponent::Observer.is_power_source());
}

#[test]
fn test_redstone_pos_to_chunk_local() {
    // Positive coordinates
    let pos = RedstonePos::new(17, 64, 5);
    let (chunk_pos, lx, ly, lz) = pos.to_chunk_local();
    assert_eq!(chunk_pos, ChunkPos::new(1, 0));
    assert_eq!(lx, 1);
    assert_eq!(ly, 64);
    assert_eq!(lz, 5);

    // Negative coordinates
    let pos = RedstonePos::new(-5, 32, -20);
    let (chunk_pos, lx, ly, lz) = pos.to_chunk_local();
    assert_eq!(chunk_pos, ChunkPos::new(-1, -2));
    assert_eq!(lx, 11);
    assert_eq!(ly, 32);
    assert_eq!(lz, 12);
}

#[test]
fn test_conducts_and_can_be_powered() {
    assert!(RedstoneComponent::Wire.conducts_power());
    assert!(RedstoneComponent::Repeater.conducts_power());
    assert!(RedstoneComponent::Comparator.conducts_power());
    assert!(RedstoneComponent::Observer.conducts_power());
    assert!(!RedstoneComponent::Lever.conducts_power());
    assert!(!RedstoneComponent::Lamp.conducts_power());

    assert!(RedstoneComponent::Lamp.can_be_powered());
    assert!(RedstoneComponent::Wire.can_be_powered());
    assert!(RedstoneComponent::Repeater.can_be_powered());
    assert!(RedstoneComponent::Comparator.can_be_powered());
    assert!(!RedstoneComponent::Observer.can_be_powered());
    assert!(!RedstoneComponent::Lever.can_be_powered());
    assert!(!RedstoneComponent::Button.can_be_powered());
}

#[test]
fn test_simulator_new() {
    let sim = RedstoneSimulator::new();
    assert_eq!(sim.pending_count(), 0);
}

#[test]
fn test_schedule_update() {
    let mut sim = RedstoneSimulator::new();
    let pos = RedstonePos::new(5, 64, 5);

    sim.schedule_update(pos);
    assert_eq!(sim.pending_count(), 1);

    // Scheduling same position doesn't duplicate
    sim.schedule_update(pos);
    assert_eq!(sim.pending_count(), 1);

    // Different position adds to pending
    sim.schedule_update(RedstonePos::new(6, 64, 5));
    assert_eq!(sim.pending_count(), 2);
}

#[test]
fn test_toggle_lever() {
    let mut sim = RedstoneSimulator::new();
    let mut chunks = ChunkMap::new();
    let mut chunk = create_test_chunk();

    // Place a lever
    chunk.set_voxel(
        5,
        64,
        5,
        Voxel {
            id: redstone_blocks::LEVER,
            state: 0,
            light_sky: 0,
            light_block: 0,
        },
    );
    chunks.insert(ChunkPos::new(0, 0), chunk);

    let pos = RedstonePos::new(5, 64, 5);

    // Toggle lever on
    sim.toggle_lever(pos, &mut chunks);

    let chunk = chunks.get(&ChunkPos::new(0, 0)).unwrap();
    let voxel = chunk.voxel(5, 64, 5);
    assert!(is_active(voxel.state));
    assert_eq!(get_power_level(voxel.state), MAX_POWER);

    // Neighbors should be scheduled for update
    assert!(sim.pending_count() > 0);

    // Toggle lever off
    sim.toggle_lever(pos, &mut chunks);

    let chunk = chunks.get(&ChunkPos::new(0, 0)).unwrap();
    let voxel = chunk.voxel(5, 64, 5);
    assert!(!is_active(voxel.state));
    assert_eq!(get_power_level(voxel.state), 0);
}

#[test]
fn test_toggle_lever_wrong_block() {
    let mut sim = RedstoneSimulator::new();
    let mut chunks = ChunkMap::new();
    let mut chunk = create_test_chunk();

    // Place stone instead of lever
    chunk.set_voxel(
        5,
        64,
        5,
        Voxel {
            id: 1, // Stone
            state: 0,
            light_sky: 0,
            light_block: 0,
        },
    );
    chunks.insert(ChunkPos::new(0, 0), chunk);

    let pos = RedstonePos::new(5, 64, 5);

    // Toggle should do nothing
    sim.toggle_lever(pos, &mut chunks);

    let chunk = chunks.get(&ChunkPos::new(0, 0)).unwrap();
    let voxel = chunk.voxel(5, 64, 5);
    assert_eq!(voxel.id, 1);
    assert_eq!(sim.pending_count(), 0);
}

#[test]
fn test_activate_button() {
    let mut sim = RedstoneSimulator::new();
    let mut chunks = ChunkMap::new();
    let mut chunk = create_test_chunk();

    // Place a stone button
    chunk.set_voxel(
        5,
        64,
        5,
        Voxel {
            id: redstone_blocks::STONE_BUTTON,
            state: 0,
            light_sky: 0,
            light_block: 0,
        },
    );
    chunks.insert(ChunkPos::new(0, 0), chunk);

    let pos = RedstonePos::new(5, 64, 5);

    // Activate button
    sim.activate_button(pos, &mut chunks);

    let chunk = chunks.get(&ChunkPos::new(0, 0)).unwrap();
    let voxel = chunk.voxel(5, 64, 5);
    assert!(is_active(voxel.state));
    assert_eq!(get_power_level(voxel.state), MAX_POWER);

    // Activating again should do nothing (already active)
    sim.activate_button(pos, &mut chunks);
    let chunk = chunks.get(&ChunkPos::new(0, 0)).unwrap();
    let voxel = chunk.voxel(5, 64, 5);
    assert!(is_active(voxel.state));
}

#[test]
fn test_button_deactivation_on_tick() {
    let mut sim = RedstoneSimulator::new();
    let mut chunks = ChunkMap::new();
    let mut chunk = create_test_chunk();

    // Place a stone button
    chunk.set_voxel(
        5,
        64,
        5,
        Voxel {
            id: redstone_blocks::STONE_BUTTON,
            state: 0,
            light_sky: 0,
            light_block: 0,
        },
    );
    chunks.insert(ChunkPos::new(0, 0), chunk);

    let pos = RedstonePos::new(5, 64, 5);
    sim.activate_button(pos, &mut chunks);

    // Tick 21 times (button deactivates after 20 ticks)
    for _ in 0..21 {
        sim.tick(&mut chunks);
    }

    let chunk = chunks.get(&ChunkPos::new(0, 0)).unwrap();
    let voxel = chunk.voxel(5, 64, 5);
    assert!(!is_active(voxel.state));
    assert_eq!(get_power_level(voxel.state), 0);
}

#[test]
fn test_update_pressure_plate() {
    let mut sim = RedstoneSimulator::new();
    let mut chunks = ChunkMap::new();
    let mut chunk = create_test_chunk();

    // Place a stone pressure plate
    chunk.set_voxel(
        5,
        64,
        5,
        Voxel {
            id: redstone_blocks::STONE_PRESSURE_PLATE,
            state: 0,
            light_sky: 0,
            light_block: 0,
        },
    );
    chunks.insert(ChunkPos::new(0, 0), chunk);

    let pos = RedstonePos::new(5, 64, 5);

    // Entity steps on plate
    sim.update_pressure_plate(pos, true, &mut chunks);

    let chunk = chunks.get(&ChunkPos::new(0, 0)).unwrap();
    let voxel = chunk.voxel(5, 64, 5);
    assert!(is_active(voxel.state));
    assert_eq!(get_power_level(voxel.state), MAX_POWER);

    // Entity steps off plate
    sim.update_pressure_plate(pos, false, &mut chunks);

    let chunk = chunks.get(&ChunkPos::new(0, 0)).unwrap();
    let voxel = chunk.voxel(5, 64, 5);
    assert!(!is_active(voxel.state));
    assert_eq!(get_power_level(voxel.state), 0);
}

#[test]
fn test_redstone_wire_power_propagation() {
    let mut sim = RedstoneSimulator::new();
    let mut chunks = ChunkMap::new();
    let mut chunk = create_test_chunk();

    // Place lever and wire next to each other
    chunk.set_voxel(
        5,
        64,
        5,
        Voxel {
            id: redstone_blocks::LEVER,
            state: set_active(set_power_level(0, MAX_POWER), true),
            light_sky: 0,
            light_block: 0,
        },
    );
    chunk.set_voxel(
        6,
        64,
        5,
        Voxel {
            id: redstone_blocks::REDSTONE_WIRE,
            state: 0,
            light_sky: 0,
            light_block: 0,
        },
    );
    chunk.set_voxel(
        7,
        64,
        5,
        Voxel {
            id: redstone_blocks::REDSTONE_WIRE,
            state: 0,
            light_sky: 0,
            light_block: 0,
        },
    );
    chunks.insert(ChunkPos::new(0, 0), chunk);

    // Schedule updates for wire positions
    sim.schedule_update(RedstonePos::new(6, 64, 5));
    sim.schedule_update(RedstonePos::new(7, 64, 5));

    // Process updates
    sim.tick(&mut chunks);

    let chunk = chunks.get(&ChunkPos::new(0, 0)).unwrap();

    // First wire should have power 14 (15 - 1)
    let wire1 = chunk.voxel(6, 64, 5);
    assert_eq!(get_power_level(wire1.state), 14);

    // Second wire should have power 13 (14 - 1)
    let wire2 = chunk.voxel(7, 64, 5);
    assert_eq!(get_power_level(wire2.state), 13);
}

#[test]
fn test_redstone_lamp() {
    let mut sim = RedstoneSimulator::new();
    let mut chunks = ChunkMap::new();
    let mut chunk = create_test_chunk();

    // Place lever and lamp next to each other
    chunk.set_voxel(
        5,
        64,
        5,
        Voxel {
            id: redstone_blocks::LEVER,
            state: set_active(set_power_level(0, MAX_POWER), true),
            light_sky: 0,
            light_block: 0,
        },
    );
    chunk.set_voxel(
        6,
        64,
        5,
        Voxel {
            id: redstone_blocks::REDSTONE_LAMP,
            state: 0,
            light_sky: 0,
            light_block: 0,
        },
    );
    chunks.insert(ChunkPos::new(0, 0), chunk);

    // Schedule lamp update
    sim.schedule_update(RedstonePos::new(6, 64, 5));
    sim.tick(&mut chunks);

    let chunk = chunks.get(&ChunkPos::new(0, 0)).unwrap();
    let lamp = chunk.voxel(6, 64, 5);

    // Lamp should be lit
    assert_eq!(lamp.id, redstone_blocks::REDSTONE_LAMP_LIT);
    assert_eq!(lamp.light_block, 15);
}

#[test]
fn test_redstone_powers_iron_door() {
    let mut sim = RedstoneSimulator::new();
    let mut chunks = ChunkMap::new();
    let mut chunk = create_test_chunk();

    chunk.set_voxel(
        5,
        64,
        5,
        Voxel {
            id: redstone_blocks::LEVER,
            state: 0,
            light_sky: 0,
            light_block: 0,
        },
    );
    chunk.set_voxel(
        6,
        64,
        5,
        Voxel {
            id: interactive_blocks::IRON_DOOR_LOWER,
            state: 0,
            light_sky: 0,
            light_block: 0,
        },
    );
    chunk.set_voxel(
        6,
        65,
        5,
        Voxel {
            id: interactive_blocks::IRON_DOOR_UPPER,
            state: 0,
            light_sky: 0,
            light_block: 0,
        },
    );
    chunks.insert(ChunkPos::new(0, 0), chunk);

    let lever_pos = RedstonePos::new(5, 64, 5);

    sim.toggle_lever(lever_pos, &mut chunks);
    sim.tick(&mut chunks);

    let chunk = chunks.get(&ChunkPos::new(0, 0)).unwrap();
    let lower = chunk.voxel(6, 64, 5);
    let upper = chunk.voxel(6, 65, 5);
    assert!(is_door_open(lower.state));
    assert!(is_door_open(upper.state));
    assert!(is_redstone_powered(lower.state));
    assert!(is_redstone_powered(upper.state));

    sim.toggle_lever(lever_pos, &mut chunks);
    sim.tick(&mut chunks);

    let chunk = chunks.get(&ChunkPos::new(0, 0)).unwrap();
    let lower = chunk.voxel(6, 64, 5);
    let upper = chunk.voxel(6, 65, 5);
    assert!(!is_door_open(lower.state));
    assert!(!is_door_open(upper.state));
    assert!(!is_redstone_powered(lower.state));
    assert!(!is_redstone_powered(upper.state));
}

#[test]
fn test_redstone_does_not_override_manual_door_open_when_unpowered() {
    let mut sim = RedstoneSimulator::new();
    let mut chunks = ChunkMap::new();
    let mut chunk = create_test_chunk();

    let open_unpowered = set_door_open(0, true);

    chunk.set_voxel(
        5,
        64,
        5,
        Voxel {
            id: interactive_blocks::OAK_DOOR_LOWER,
            state: open_unpowered,
            light_sky: 0,
            light_block: 0,
        },
    );
    chunk.set_voxel(
        5,
        65,
        5,
        Voxel {
            id: interactive_blocks::OAK_DOOR_UPPER,
            state: open_unpowered,
            light_sky: 0,
            light_block: 0,
        },
    );
    chunks.insert(ChunkPos::new(0, 0), chunk);

    sim.schedule_update(RedstonePos::new(5, 64, 5));
    sim.tick(&mut chunks);

    let chunk = chunks.get(&ChunkPos::new(0, 0)).unwrap();
    let lower = chunk.voxel(5, 64, 5);
    let upper = chunk.voxel(5, 65, 5);
    assert!(is_door_open(lower.state));
    assert!(is_door_open(upper.state));
    assert!(!is_redstone_powered(lower.state));
    assert!(!is_redstone_powered(upper.state));
}

#[test]
fn test_redstone_powers_trapdoor_and_fence_gate() {
    let mut sim = RedstoneSimulator::new();
    let mut chunks = ChunkMap::new();
    let mut chunk = create_test_chunk();

    chunk.set_voxel(
        5,
        64,
        5,
        Voxel {
            id: redstone_blocks::LEVER,
            state: 0,
            light_sky: 0,
            light_block: 0,
        },
    );
    chunk.set_voxel(
        6,
        64,
        5,
        Voxel {
            id: interactive_blocks::TRAPDOOR,
            state: 0,
            light_sky: 0,
            light_block: 0,
        },
    );
    chunk.set_voxel(
        5,
        64,
        6,
        Voxel {
            id: interactive_blocks::OAK_FENCE_GATE,
            state: 0,
            light_sky: 0,
            light_block: 0,
        },
    );
    chunks.insert(ChunkPos::new(0, 0), chunk);

    let lever_pos = RedstonePos::new(5, 64, 5);

    sim.toggle_lever(lever_pos, &mut chunks);
    sim.tick(&mut chunks);

    let chunk = chunks.get(&ChunkPos::new(0, 0)).unwrap();
    let trapdoor = chunk.voxel(6, 64, 5);
    let gate = chunk.voxel(5, 64, 6);
    assert!(is_trapdoor_open(trapdoor.state));
    assert!(is_fence_gate_open(gate.state));
    assert!(is_redstone_powered(trapdoor.state));
    assert!(is_redstone_powered(gate.state));

    sim.toggle_lever(lever_pos, &mut chunks);
    sim.tick(&mut chunks);

    let chunk = chunks.get(&ChunkPos::new(0, 0)).unwrap();
    let trapdoor = chunk.voxel(6, 64, 5);
    let gate = chunk.voxel(5, 64, 6);
    assert!(!is_trapdoor_open(trapdoor.state));
    assert!(!is_fence_gate_open(gate.state));
    assert!(!is_redstone_powered(trapdoor.state));
    assert!(!is_redstone_powered(gate.state));
}

#[test]
fn test_redstone_torch_inversion() {
    let mut sim = RedstoneSimulator::new();
    let mut chunks = ChunkMap::new();
    let mut chunk = create_test_chunk();

    // Place wire below and torch above
    chunk.set_voxel(
        5,
        63,
        5,
        Voxel {
            id: redstone_blocks::REDSTONE_WIRE,
            state: set_power_level(0, MAX_POWER), // Powered wire
            light_sky: 0,
            light_block: 0,
        },
    );
    chunk.set_voxel(
        5,
        64,
        5,
        Voxel {
            id: redstone_blocks::REDSTONE_TORCH,
            state: set_active(set_power_level(0, MAX_POWER), true), // Initially on
            light_sky: 0,
            light_block: 7,
        },
    );
    chunks.insert(ChunkPos::new(0, 0), chunk);

    // Schedule torch update
    sim.schedule_update(RedstonePos::new(5, 64, 5));
    sim.tick(&mut chunks);

    let chunk = chunks.get(&ChunkPos::new(0, 0)).unwrap();
    let torch = chunk.voxel(5, 64, 5);

    // Torch should be off (inverted)
    assert!(!is_active(torch.state));
    assert_eq!(get_power_level(torch.state), 0);
    assert_eq!(torch.light_block, 0);
}

#[test]
fn redstone_test_take_dirty_chunks() {
    let mut sim = RedstoneSimulator::new();
    let mut chunks = ChunkMap::new();
    let mut chunk = create_test_chunk();

    chunk.set_voxel(
        5,
        64,
        5,
        Voxel {
            id: redstone_blocks::LEVER,
            state: 0,
            light_sky: 0,
            light_block: 0,
        },
    );
    chunks.insert(ChunkPos::new(0, 0), chunk);

    sim.toggle_lever(RedstonePos::new(5, 64, 5), &mut chunks);

    let dirty = sim.take_dirty_chunks();
    assert!(dirty.contains(&ChunkPos::new(0, 0)));

    // Second call should return empty set
    let dirty2 = sim.take_dirty_chunks();
    assert!(dirty2.is_empty());
}

#[test]
fn test_out_of_bounds_updates() {
    let mut sim = RedstoneSimulator::new();
    let mut chunks = ChunkMap::new();
    chunks.insert(ChunkPos::new(0, 0), create_test_chunk());

    // Try to toggle lever at invalid Y
    sim.toggle_lever(RedstonePos::new(5, -1, 5), &mut chunks);
    sim.toggle_lever(RedstonePos::new(5, 256, 5), &mut chunks);

    // Should not crash, just do nothing
    assert_eq!(sim.pending_count(), 0);
}

#[test]
fn test_oak_button() {
    let mut sim = RedstoneSimulator::new();
    let mut chunks = ChunkMap::new();
    let mut chunk = create_test_chunk();

    // Place an oak button
    chunk.set_voxel(
        5,
        64,
        5,
        Voxel {
            id: redstone_blocks::OAK_BUTTON,
            state: 0,
            light_sky: 0,
            light_block: 0,
        },
    );
    chunks.insert(ChunkPos::new(0, 0), chunk);

    let pos = RedstonePos::new(5, 64, 5);
    sim.activate_button(pos, &mut chunks);

    let chunk = chunks.get(&ChunkPos::new(0, 0)).unwrap();
    let voxel = chunk.voxel(5, 64, 5);
    assert!(is_active(voxel.state));
}

#[test]
fn test_oak_pressure_plate() {
    let mut sim = RedstoneSimulator::new();
    let mut chunks = ChunkMap::new();
    let mut chunk = create_test_chunk();

    chunk.set_voxel(
        5,
        64,
        5,
        Voxel {
            id: redstone_blocks::OAK_PRESSURE_PLATE,
            state: 0,
            light_sky: 0,
            light_block: 0,
        },
    );
    chunks.insert(ChunkPos::new(0, 0), chunk);

    let pos = RedstonePos::new(5, 64, 5);
    sim.update_pressure_plate(pos, true, &mut chunks);

    let chunk = chunks.get(&ChunkPos::new(0, 0)).unwrap();
    let voxel = chunk.voxel(5, 64, 5);
    assert!(is_active(voxel.state));
}

#[test]
fn test_get_emitted_power_all_components() {
    let sim = RedstoneSimulator::new();
    let from = RedstonePos::new(0, 0, 0);
    let to = RedstonePos::new(1, 0, 0);

    // Active lever
    let lever_on = Voxel {
        id: redstone_blocks::LEVER,
        state: set_active(0, true),
        light_sky: 0,
        light_block: 0,
    };
    assert_eq!(sim.get_emitted_power_towards(from, lever_on, to), MAX_POWER);

    // Inactive lever
    let lever_off = Voxel {
        id: redstone_blocks::LEVER,
        state: set_active(0, false),
        light_sky: 0,
        light_block: 0,
    };
    assert_eq!(sim.get_emitted_power_towards(from, lever_off, to), 0);

    // Wire with power level 10
    let wire = Voxel {
        id: redstone_blocks::REDSTONE_WIRE,
        state: set_power_level(0, 10),
        light_sky: 0,
        light_block: 0,
    };
    assert_eq!(sim.get_emitted_power_towards(from, wire, to), 10);

    // Non-redstone block
    let stone = Voxel {
        id: 1,
        state: 0,
        light_sky: 0,
        light_block: 0,
    };
    assert_eq!(sim.get_emitted_power_towards(from, stone, to), 0);

    // Active repeater emits only out its front.
    let mut repeater_state = 0;
    repeater_state = set_repeater_facing(repeater_state, Facing::East);
    repeater_state = set_repeater_delay_ticks(repeater_state, 1);
    repeater_state = set_active(repeater_state, true);
    let repeater = Voxel {
        id: redstone_blocks::REDSTONE_REPEATER,
        state: repeater_state,
        light_sky: 0,
        light_block: 0,
    };
    assert_eq!(
        sim.get_emitted_power_towards(
            RedstonePos::new(0, 0, 0),
            repeater,
            RedstonePos::new(1, 0, 0)
        ),
        MAX_POWER
    );
    assert_eq!(
        sim.get_emitted_power_towards(
            RedstonePos::new(0, 0, 0),
            repeater,
            RedstonePos::new(-1, 0, 0)
        ),
        0
    );

    // Comparator emits only out its front, at its stored output strength.
    let mut comparator_state = 0;
    comparator_state = set_comparator_facing(comparator_state, Facing::East);
    comparator_state = set_comparator_subtract_mode(comparator_state, false);
    comparator_state = set_comparator_output_power(comparator_state, 7);
    let comparator = Voxel {
        id: redstone_blocks::REDSTONE_COMPARATOR,
        state: comparator_state,
        light_sky: 0,
        light_block: 0,
    };
    assert_eq!(
        sim.get_emitted_power_towards(
            RedstonePos::new(0, 0, 0),
            comparator,
            RedstonePos::new(1, 0, 0)
        ),
        7
    );
    assert_eq!(
        sim.get_emitted_power_towards(
            RedstonePos::new(0, 0, 0),
            comparator,
            RedstonePos::new(0, 0, 1)
        ),
        0
    );

    // Observer emits only out its front while active.
    let mut observer_state = 0;
    observer_state = set_observer_facing(observer_state, Facing::East);
    observer_state = set_active(observer_state, true);
    let observer = Voxel {
        id: redstone_blocks::REDSTONE_OBSERVER,
        state: observer_state,
        light_sky: 0,
        light_block: 0,
    };
    assert_eq!(
        sim.get_emitted_power_towards(
            RedstonePos::new(0, 0, 0),
            observer,
            RedstonePos::new(1, 0, 0)
        ),
        MAX_POWER
    );
    assert_eq!(
        sim.get_emitted_power_towards(
            RedstonePos::new(0, 0, 0),
            observer,
            RedstonePos::new(0, 0, 1)
        ),
        0
    );
}

#[test]
fn repeater_delay_ticks_roundtrips() {
    let facing = Facing::North;
    for delay in 1..=4 {
        let mut state = 0;
        state = set_repeater_facing(state, facing);
        state = set_repeater_delay_ticks(state, delay);
        assert_eq!(repeater_facing(state), facing);
        assert_eq!(repeater_delay_ticks(state), delay);
    }
}

#[test]
fn repeater_delays_output_and_is_directional() {
    let mut sim = RedstoneSimulator::new();
    let mut chunks = ChunkMap::new();
    let mut chunk = create_test_chunk();

    let lever_pos = RedstonePos::new(5, 64, 5);
    let repeater_pos = RedstonePos::new(6, 64, 5);
    let lamp_front_pos = RedstonePos::new(7, 64, 5);
    let lamp_side_pos = RedstonePos::new(6, 64, 6);

    chunk.set_voxel(
        lever_pos.x as usize,
        lever_pos.y as usize,
        lever_pos.z as usize,
        Voxel {
            id: redstone_blocks::LEVER,
            state: 0,
            light_sky: 0,
            light_block: 0,
        },
    );

    let mut repeater_state = 0;
    repeater_state = set_repeater_facing(repeater_state, Facing::East);
    repeater_state = set_repeater_delay_ticks(repeater_state, 2);
    chunk.set_voxel(
        repeater_pos.x as usize,
        repeater_pos.y as usize,
        repeater_pos.z as usize,
        Voxel {
            id: redstone_blocks::REDSTONE_REPEATER,
            state: repeater_state,
            light_sky: 0,
            light_block: 0,
        },
    );

    chunk.set_voxel(
        lamp_front_pos.x as usize,
        lamp_front_pos.y as usize,
        lamp_front_pos.z as usize,
        Voxel {
            id: redstone_blocks::REDSTONE_LAMP,
            state: 0,
            light_sky: 0,
            light_block: 0,
        },
    );

    chunk.set_voxel(
        lamp_side_pos.x as usize,
        lamp_side_pos.y as usize,
        lamp_side_pos.z as usize,
        Voxel {
            id: redstone_blocks::REDSTONE_LAMP,
            state: 0,
            light_sky: 0,
            light_block: 0,
        },
    );

    chunks.insert(ChunkPos::new(0, 0), chunk);

    // Power the lever; this schedules neighbor updates (including the repeater).
    sim.toggle_lever(lever_pos, &mut chunks);

    // Tick 1: repeater sees input but output hasn't fired yet.
    sim.tick(&mut chunks);
    {
        let chunk = chunks.get(&ChunkPos::new(0, 0)).unwrap();
        assert!(!is_active(chunk.voxel(6, 64, 5).state));
        assert_eq!(chunk.voxel(7, 64, 5).id, redstone_blocks::REDSTONE_LAMP);
        assert_eq!(chunk.voxel(6, 64, 6).id, redstone_blocks::REDSTONE_LAMP);
    }

    // Tick 2: still waiting.
    sim.tick(&mut chunks);
    {
        let chunk = chunks.get(&ChunkPos::new(0, 0)).unwrap();
        assert!(!is_active(chunk.voxel(6, 64, 5).state));
        assert_eq!(chunk.voxel(7, 64, 5).id, redstone_blocks::REDSTONE_LAMP);
        assert_eq!(chunk.voxel(6, 64, 6).id, redstone_blocks::REDSTONE_LAMP);
    }

    // Tick 3: output applies and powers only the front lamp.
    sim.tick(&mut chunks);
    {
        let chunk = chunks.get(&ChunkPos::new(0, 0)).unwrap();
        assert!(is_active(chunk.voxel(6, 64, 5).state));
        assert_eq!(chunk.voxel(7, 64, 5).id, redstone_blocks::REDSTONE_LAMP_LIT);
        assert_eq!(chunk.voxel(6, 64, 6).id, redstone_blocks::REDSTONE_LAMP);
    }
}

#[test]
fn comparator_compare_and_subtract_output_is_delayed_and_directional() {
    let mut sim = RedstoneSimulator::new();
    let mut chunks = ChunkMap::new();
    let mut chunk = create_test_chunk();

    let rear_lever_pos = RedstonePos::new(5, 64, 5);
    let side_lever_pos = RedstonePos::new(6, 64, 3);
    let side_wire_pos = RedstonePos::new(6, 64, 4);
    let comparator_pos = RedstonePos::new(6, 64, 5);
    let front_lamp_pos = RedstonePos::new(7, 64, 5);
    let side_lamp_pos = RedstonePos::new(6, 64, 6);

    chunk.set_voxel(
        rear_lever_pos.x as usize,
        rear_lever_pos.y as usize,
        rear_lever_pos.z as usize,
        Voxel {
            id: redstone_blocks::LEVER,
            state: 0,
            light_sky: 0,
            light_block: 0,
        },
    );

    chunk.set_voxel(
        side_lever_pos.x as usize,
        side_lever_pos.y as usize,
        side_lever_pos.z as usize,
        Voxel {
            id: redstone_blocks::LEVER,
            state: 0,
            light_sky: 0,
            light_block: 0,
        },
    );

    chunk.set_voxel(
        side_wire_pos.x as usize,
        side_wire_pos.y as usize,
        side_wire_pos.z as usize,
        Voxel {
            id: redstone_blocks::REDSTONE_WIRE,
            state: 0,
            light_sky: 0,
            light_block: 0,
        },
    );

    let mut comparator_state = 0;
    comparator_state = set_comparator_facing(comparator_state, Facing::East);
    comparator_state = set_comparator_subtract_mode(comparator_state, false);
    comparator_state = set_comparator_output_power(comparator_state, 0);
    chunk.set_voxel(
        comparator_pos.x as usize,
        comparator_pos.y as usize,
        comparator_pos.z as usize,
        Voxel {
            id: redstone_blocks::REDSTONE_COMPARATOR,
            state: comparator_state,
            light_sky: 0,
            light_block: 0,
        },
    );

    chunk.set_voxel(
        front_lamp_pos.x as usize,
        front_lamp_pos.y as usize,
        front_lamp_pos.z as usize,
        Voxel {
            id: redstone_blocks::REDSTONE_LAMP,
            state: 0,
            light_sky: 0,
            light_block: 0,
        },
    );

    chunk.set_voxel(
        side_lamp_pos.x as usize,
        side_lamp_pos.y as usize,
        side_lamp_pos.z as usize,
        Voxel {
            id: redstone_blocks::REDSTONE_LAMP,
            state: 0,
            light_sky: 0,
            light_block: 0,
        },
    );

    chunks.insert(ChunkPos::new(0, 0), chunk);

    // Power rear + side levers. Side lever powers the side wire at strength 14.
    sim.toggle_lever(rear_lever_pos, &mut chunks);
    sim.toggle_lever(side_lever_pos, &mut chunks);

    // Tick 1: comparator computes desired output but hasn't applied yet.
    sim.tick(&mut chunks);
    {
        let chunk = chunks.get(&ChunkPos::new(0, 0)).unwrap();
        let comparator = chunk.voxel(6, 64, 5);
        assert_eq!(comparator_output_power(comparator.state), 0);
        assert_eq!(chunk.voxel(7, 64, 5).id, redstone_blocks::REDSTONE_LAMP);
        assert_eq!(chunk.voxel(6, 64, 6).id, redstone_blocks::REDSTONE_LAMP);
    }

    // Tick 2: compare-mode output applies (rear 15 >= side 14) => 15, and only powers front.
    sim.tick(&mut chunks);
    {
        let chunk = chunks.get(&ChunkPos::new(0, 0)).unwrap();
        let comparator = chunk.voxel(6, 64, 5);
        assert_eq!(comparator_output_power(comparator.state), MAX_POWER);
        assert_eq!(chunk.voxel(7, 64, 5).id, redstone_blocks::REDSTONE_LAMP_LIT);
        assert_eq!(chunk.voxel(6, 64, 6).id, redstone_blocks::REDSTONE_LAMP);
    }

    // Toggle to subtract mode.
    {
        let mut chunk = chunks.take_chunk(&ChunkPos::new(0, 0)).unwrap();
        let voxel = chunk.voxel(6, 64, 5);
        let new_state = set_comparator_subtract_mode(voxel.state, true);
        chunk.set_voxel(
            6,
            64,
            5,
            Voxel {
                state: new_state,
                ..voxel
            },
        );
        chunks.insert(ChunkPos::new(0, 0), chunk);
    }
    sim.schedule_update(comparator_pos);

    // Tick 3: delay tick (output still 15).
    sim.tick(&mut chunks);
    {
        let chunk = chunks.get(&ChunkPos::new(0, 0)).unwrap();
        let comparator = chunk.voxel(6, 64, 5);
        assert_eq!(comparator_output_power(comparator.state), MAX_POWER);
    }

    // Tick 4: subtract-mode output applies (15 - 14) => 1.
    sim.tick(&mut chunks);
    {
        let chunk = chunks.get(&ChunkPos::new(0, 0)).unwrap();
        let comparator = chunk.voxel(6, 64, 5);
        assert_eq!(comparator_output_power(comparator.state), 1);
        assert_eq!(chunk.voxel(7, 64, 5).id, redstone_blocks::REDSTONE_LAMP_LIT);
        assert_eq!(chunk.voxel(6, 64, 6).id, redstone_blocks::REDSTONE_LAMP);
    }
}

#[test]
fn observer_pulses_on_observed_change_with_delay_and_direction() {
    let mut sim = RedstoneSimulator::new();
    let mut chunks = ChunkMap::new();
    let mut chunk = create_test_chunk();

    let observed_pos = RedstonePos::new(5, 64, 5);
    let observer_pos = RedstonePos::new(6, 64, 5);
    let front_lamp_pos = RedstonePos::new(7, 64, 5);
    let side_lamp_pos = RedstonePos::new(6, 64, 6);

    chunk.set_voxel(
        observed_pos.x as usize,
        observed_pos.y as usize,
        observed_pos.z as usize,
        Voxel {
            id: 1,
            state: 0,
            light_sky: 0,
            light_block: 0,
        },
    );

    let mut observer_state = 0;
    observer_state = set_observer_facing(observer_state, Facing::East);
    chunk.set_voxel(
        observer_pos.x as usize,
        observer_pos.y as usize,
        observer_pos.z as usize,
        Voxel {
            id: redstone_blocks::REDSTONE_OBSERVER,
            state: observer_state,
            light_sky: 0,
            light_block: 0,
        },
    );

    chunk.set_voxel(
        front_lamp_pos.x as usize,
        front_lamp_pos.y as usize,
        front_lamp_pos.z as usize,
        Voxel {
            id: redstone_blocks::REDSTONE_LAMP,
            state: 0,
            light_sky: 0,
            light_block: 0,
        },
    );

    chunk.set_voxel(
        side_lamp_pos.x as usize,
        side_lamp_pos.y as usize,
        side_lamp_pos.z as usize,
        Voxel {
            id: redstone_blocks::REDSTONE_LAMP,
            state: 0,
            light_sky: 0,
            light_block: 0,
        },
    );

    chunks.insert(ChunkPos::new(0, 0), chunk);

    // First update initializes the stored hash but should not pulse.
    sim.schedule_update(observer_pos);
    sim.tick(&mut chunks);
    {
        let chunk = chunks.get(&ChunkPos::new(0, 0)).unwrap();
        let observer = chunk.voxel(6, 64, 5);
        assert_eq!(observer.id, redstone_blocks::REDSTONE_OBSERVER);
        assert!(!is_active(observer.state));
        assert_ne!(observer_observed_hash(observer.state), 0);
        assert_eq!(chunk.voxel(7, 64, 5).id, redstone_blocks::REDSTONE_LAMP);
        assert_eq!(chunk.voxel(6, 64, 6).id, redstone_blocks::REDSTONE_LAMP);
    }

    // Change the observed block behind the observer.
    {
        let mut chunk = chunks.take_chunk(&ChunkPos::new(0, 0)).unwrap();
        chunk.set_voxel(
            observed_pos.x as usize,
            observed_pos.y as usize,
            observed_pos.z as usize,
            Voxel {
                id: 24, // Cobblestone
                state: 0,
                light_sky: 0,
                light_block: 0,
            },
        );
        chunks.insert(ChunkPos::new(0, 0), chunk);
    }

    // Tick 2: observer notices the change and schedules a pulse (no output yet).
    sim.schedule_update(observer_pos);
    sim.tick(&mut chunks);
    {
        let chunk = chunks.get(&ChunkPos::new(0, 0)).unwrap();
        assert!(!is_active(chunk.voxel(6, 64, 5).state));
        assert_eq!(chunk.voxel(7, 64, 5).id, redstone_blocks::REDSTONE_LAMP);
        assert_eq!(chunk.voxel(6, 64, 6).id, redstone_blocks::REDSTONE_LAMP);
    }

    // Tick 3: pulse turns on and powers only the front lamp.
    sim.tick(&mut chunks);
    {
        let chunk = chunks.get(&ChunkPos::new(0, 0)).unwrap();
        assert!(is_active(chunk.voxel(6, 64, 5).state));
        assert_eq!(chunk.voxel(7, 64, 5).id, redstone_blocks::REDSTONE_LAMP_LIT);
        assert_eq!(chunk.voxel(6, 64, 6).id, redstone_blocks::REDSTONE_LAMP);
    }

    // Tick 4: still on (2-tick pulse).
    sim.tick(&mut chunks);
    {
        let chunk = chunks.get(&ChunkPos::new(0, 0)).unwrap();
        assert!(is_active(chunk.voxel(6, 64, 5).state));
        assert_eq!(chunk.voxel(7, 64, 5).id, redstone_blocks::REDSTONE_LAMP_LIT);
    }

    // Tick 5: pulse turns off.
    sim.tick(&mut chunks);
    {
        let chunk = chunks.get(&ChunkPos::new(0, 0)).unwrap();
        assert!(!is_active(chunk.voxel(6, 64, 5).state));
        assert_eq!(chunk.voxel(7, 64, 5).id, redstone_blocks::REDSTONE_LAMP);
    }
}

#[test]
fn test_missing_chunk_handling() {
    let mut sim = RedstoneSimulator::new();
    let mut chunks = ChunkMap::new();

    // Operations on missing chunks should not panic
    sim.toggle_lever(RedstonePos::new(5, 64, 5), &mut chunks);
    sim.activate_button(RedstonePos::new(5, 64, 5), &mut chunks);
    sim.update_pressure_plate(RedstonePos::new(5, 64, 5), true, &mut chunks);

    assert_eq!(sim.pending_count(), 0);
}

#[test]
fn test_lamp_turns_off_when_unpowered() {
    let mut sim = RedstoneSimulator::new();
    let mut chunks = ChunkMap::new();
    let mut chunk = create_test_chunk();

    // Place a lit lamp with no power source
    chunk.set_voxel(
        5,
        64,
        5,
        Voxel {
            id: redstone_blocks::REDSTONE_LAMP_LIT,
            state: 0,
            light_sky: 0,
            light_block: 15,
        },
    );
    chunks.insert(ChunkPos::new(0, 0), chunk);

    sim.schedule_update(RedstonePos::new(5, 64, 5));
    sim.tick(&mut chunks);

    let chunk = chunks.get(&ChunkPos::new(0, 0)).unwrap();
    let lamp = chunk.voxel(5, 64, 5);

    // Lamp should turn off
    assert_eq!(lamp.id, redstone_blocks::REDSTONE_LAMP);
    assert_eq!(lamp.light_block, 0);
}

#[test]
fn test_default_implementation() {
    let sim = RedstoneSimulator::default();
    assert_eq!(sim.pending_count(), 0);
}

#[test]
fn piston_extends_after_one_tick_and_pushes_line() {
    let mut sim = RedstoneSimulator::new();
    let mut chunks = ChunkMap::new();
    let mut chunk = create_test_chunk();

    let lever_pos = RedstonePos::new(4, 64, 5);
    let piston_pos = RedstonePos::new(5, 64, 5);
    let pushed_pos = RedstonePos::new(6, 64, 5);
    let dest_pos = RedstonePos::new(7, 64, 5);

    // Lever powering piston from the rear.
    chunk.set_voxel(
        lever_pos.x as usize,
        lever_pos.y as usize,
        lever_pos.z as usize,
        Voxel {
            id: redstone_blocks::LEVER,
            state: 0,
            light_sky: 0,
            light_block: 0,
        },
    );

    let mut piston_state = 0;
    piston_state = set_piston_facing(piston_state, Facing::East);
    piston_state = set_active(piston_state, false);
    chunk.set_voxel(
        piston_pos.x as usize,
        piston_pos.y as usize,
        piston_pos.z as usize,
        Voxel {
            id: mechanical_blocks::PISTON,
            state: piston_state,
            light_sky: 0,
            light_block: 0,
        },
    );

    // Block to push.
    chunk.set_voxel(
        pushed_pos.x as usize,
        pushed_pos.y as usize,
        pushed_pos.z as usize,
        Voxel {
            id: 1, // Stone
            state: 0,
            light_sky: 0,
            light_block: 0,
        },
    );

    chunks.insert(ChunkPos::new(0, 0), chunk);

    sim.toggle_lever(lever_pos, &mut chunks);

    // Tick 1: piston schedules extension but has not moved blocks yet.
    sim.tick(&mut chunks);
    {
        let chunk = chunks.get(&ChunkPos::new(0, 0)).unwrap();
        assert!(!is_active(chunk.voxel(5, 64, 5).state));
        assert_eq!(chunk.voxel(6, 64, 5).id, 1);
        assert_eq!(
            chunk.voxel(dest_pos.x as usize, dest_pos.y as usize, dest_pos.z as usize)
                .id,
            BLOCK_AIR
        );
    }

    // Tick 2: extension applies, head appears, and the block is pushed forward.
    sim.tick(&mut chunks);
    {
        let chunk = chunks.get(&ChunkPos::new(0, 0)).unwrap();
        assert!(is_active(chunk.voxel(5, 64, 5).state));
        assert_eq!(chunk.voxel(6, 64, 5).id, mechanical_blocks::PISTON_HEAD);
        assert_eq!(
            chunk.voxel(dest_pos.x as usize, dest_pos.y as usize, dest_pos.z as usize)
                .id,
            1
        );
    }
}

#[test]
fn test_redstone_pos_neighbors() {
    let pos = RedstonePos::new(5, 10, 15);
    let neighbors = pos.neighbors();
    assert_eq!(neighbors.len(), 6);

    // Check that all neighbors are adjacent
    for neighbor in &neighbors {
        let dx = (neighbor.x - pos.x).abs();
        let dy = (neighbor.y - pos.y).abs();
        let dz = (neighbor.z - pos.z).abs();
        assert_eq!(dx + dy + dz, 1);
    }
}
