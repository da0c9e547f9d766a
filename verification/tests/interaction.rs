use mdminecraft_world::chunk::{BLOCK_STONE, BlockState, Chunk, ChunkMap, ChunkPos, Voxel};
use mdminecraft_world::interaction::{BedSystem, Facing, InteractionManager, InteractionResult, SlabPosition, SleepResult, StairsShape, block_supports_waterlogging, is_bed, is_chest, is_door, is_door_lower, is_door_open, is_fence, is_fence_gate, is_fence_gate_open, is_iron_door, is_ladder, is_slab, is_stairs, is_trapdoor, is_trapdoor_open, is_trapdoor_top, is_waterlogged, set_door_open, set_fence_gate_open, set_snow_layers, set_trapdoor_open, set_trapdoor_top, set_waterlogged, snow_layers, stairs_shape_at};
use mdminecraft_world::interactive_blocks;

fn create_test_chunk() -> Chunk {
    Chunk::new(ChunkPos::new(0, 0))
}

#[test]
fn test_facing() {
    // Test state round-trip
    for facing in [Facing::North, Facing::South, Facing::East, Facing::West] {
        let state = facing.to_state();
        assert_eq!(Facing::from_state(state), facing);
    }
}

#[test]
fn test_door_state() {
    let state: BlockState = 0;
    assert!(!is_door_open(state));

    let open_state = set_door_open(state, true);
    assert!(is_door_open(open_state));

    let closed_state = set_door_open(open_state, false);
    assert!(!is_door_open(closed_state));
}

#[test]
fn test_slab_position() {
    let state: BlockState = 0;
    assert_eq!(SlabPosition::from_state(state), SlabPosition::Bottom);

    let top_state = SlabPosition::Top.to_state(state);
    assert_eq!(SlabPosition::from_state(top_state), SlabPosition::Top);

    let bottom_state = SlabPosition::Bottom.to_state(top_state);
    assert_eq!(SlabPosition::from_state(bottom_state), SlabPosition::Bottom);
}

#[test]
fn snow_layers_roundtrip() {
    assert_eq!(snow_layers(0), 1);
    assert_eq!(snow_layers(set_snow_layers(0, 4)), 4);
    assert_eq!(snow_layers(set_snow_layers(0, 0)), 1);
    assert_eq!(snow_layers(set_snow_layers(0, 99)), 8);
}

#[test]
fn test_is_door_functions() {
    assert!(is_door(interactive_blocks::OAK_DOOR_LOWER));
    assert!(is_door(interactive_blocks::OAK_DOOR_UPPER));
    assert!(is_door(interactive_blocks::IRON_DOOR_LOWER));
    assert!(is_door(interactive_blocks::IRON_DOOR_UPPER));
    assert!(!is_door(BLOCK_STONE));

    assert!(is_door_lower(interactive_blocks::OAK_DOOR_LOWER));
    assert!(!is_door_lower(interactive_blocks::OAK_DOOR_UPPER));

    assert!(is_iron_door(interactive_blocks::IRON_DOOR_LOWER));
    assert!(!is_iron_door(interactive_blocks::OAK_DOOR_LOWER));
}

#[test]
fn test_bed_system() {
    let mut bed = BedSystem::new();
    assert_eq!(bed.spawn_point(), None);

    // Can't sleep during day
    let result = bed.try_sleep((10, 64, 10), false, false);
    assert_eq!(result, SleepResult::NotNight);

    // Can't sleep with monsters nearby
    let result = bed.try_sleep((10, 64, 10), true, true);
    assert_eq!(result, SleepResult::MonstersNearby);

    // Successful sleep
    let result = bed.try_sleep((10, 64, 10), true, false);
    assert_eq!(result, SleepResult::Success);
    assert_eq!(bed.spawn_point(), Some((10, 64, 10)));
}

#[test]
fn test_bed_set_spawn_point() {
    let mut bed = BedSystem::new();
    bed.set_spawn_point((50, 100, 50));
    assert_eq!(bed.spawn_point(), Some((50, 100, 50)));
}

#[test]
fn test_bed_default() {
    let bed = BedSystem::default();
    assert_eq!(bed.spawn_point(), None);
}

#[test]
fn test_facing_opposite() {
    assert_eq!(Facing::North.opposite(), Facing::South);
    assert_eq!(Facing::South.opposite(), Facing::North);
    assert_eq!(Facing::East.opposite(), Facing::West);
    assert_eq!(Facing::West.opposite(), Facing::East);
}

#[test]
fn test_facing_offset() {
    assert_eq!(Facing::North.offset(), (0, -1));
    assert_eq!(Facing::South.offset(), (0, 1));
    assert_eq!(Facing::East.offset(), (1, 0));
    assert_eq!(Facing::West.offset(), (-1, 0));
}

#[test]
fn test_trapdoor_state() {
    let state: BlockState = 0;
    assert!(!is_trapdoor_open(state));
    assert!(!is_trapdoor_top(state));

    let open_state = set_trapdoor_open(state, true);
    assert!(is_trapdoor_open(open_state));
    assert!(!is_trapdoor_top(open_state));

    let closed_state = set_trapdoor_open(open_state, false);
    assert!(!is_trapdoor_open(closed_state));

    let top_state = set_trapdoor_top(state, true);
    assert!(is_trapdoor_top(top_state));
    assert!(!is_trapdoor_open(top_state));
}

#[test]
fn test_fence_gate_state() {
    let state: BlockState = 0;
    assert!(!is_fence_gate_open(state));

    let open_state = set_fence_gate_open(state, true);
    assert!(is_fence_gate_open(open_state));

    let closed_state = set_fence_gate_open(open_state, false);
    assert!(!is_fence_gate_open(closed_state));
}

#[test]
fn test_is_trapdoor() {
    assert!(is_trapdoor(interactive_blocks::TRAPDOOR));
    assert!(!is_trapdoor(interactive_blocks::OAK_DOOR_LOWER));
    assert!(!is_trapdoor(BLOCK_STONE));
}

#[test]
fn test_is_ladder() {
    assert!(is_ladder(interactive_blocks::LADDER));
    assert!(!is_ladder(BLOCK_STONE));
    assert!(!is_ladder(interactive_blocks::OAK_FENCE));
}

#[test]
fn test_is_slab() {
    assert!(is_slab(interactive_blocks::STONE_SLAB));
    assert!(is_slab(interactive_blocks::OAK_SLAB));
    assert!(!is_slab(BLOCK_STONE));
    assert!(!is_slab(interactive_blocks::STONE_STAIRS));
}

#[test]
fn waterlogged_state_bit_roundtrips() {
    let state: BlockState = 0x1234;
    assert!(!is_waterlogged(state));

    let waterlogged = set_waterlogged(state, true);
    assert!(is_waterlogged(waterlogged));

    let cleared = set_waterlogged(waterlogged, false);
    assert_eq!(cleared, state);
    assert!(!is_waterlogged(cleared));
}

#[test]
fn block_supports_waterlogging_small_foundation_set() {
    assert!(block_supports_waterlogging(interactive_blocks::STONE_SLAB));
    assert!(block_supports_waterlogging(
        interactive_blocks::STONE_STAIRS
    ));
    assert!(block_supports_waterlogging(interactive_blocks::TRAPDOOR));
    assert!(block_supports_waterlogging(interactive_blocks::OAK_FENCE));
    assert!(block_supports_waterlogging(
        interactive_blocks::OAK_FENCE_GATE
    ));
    assert!(block_supports_waterlogging(interactive_blocks::GLASS_PANE));
    assert!(block_supports_waterlogging(interactive_blocks::IRON_BARS));
    assert!(block_supports_waterlogging(
        interactive_blocks::COBBLESTONE_WALL
    ));
    assert!(block_supports_waterlogging(
        interactive_blocks::STONE_BRICK_WALL
    ));
    assert!(!block_supports_waterlogging(
        interactive_blocks::OAK_DOOR_LOWER
    ));
    assert!(!block_supports_waterlogging(BLOCK_STONE));
}

#[test]
fn test_is_stairs() {
    assert!(is_stairs(interactive_blocks::STONE_STAIRS));
    assert!(is_stairs(interactive_blocks::OAK_STAIRS));
    assert!(!is_stairs(BLOCK_STONE));
    assert!(!is_stairs(interactive_blocks::STONE_SLAB));
}

#[test]
fn stairs_shape_is_straight_by_default() {
    let stair = Voxel {
        id: interactive_blocks::OAK_STAIRS,
        state: Facing::South.to_state(),
        ..Default::default()
    };
    let empty = |_, _, _| None;
    assert_eq!(
        stairs_shape_at(0, 0, 0, stair, &empty),
        StairsShape::Straight
    );
}

#[test]
fn stairs_shape_outer_left_matches_vanilla_front_neighbor_rule() {
    // Facing south, front stair facing east => outer_left.
    let current = Voxel {
        id: interactive_blocks::OAK_STAIRS,
        state: Facing::South.to_state(),
        ..Default::default()
    };
    let front = Voxel {
        id: interactive_blocks::OAK_STAIRS,
        state: Facing::East.to_state(),
        ..Default::default()
    };

    let voxel_at = |x: i32, y: i32, z: i32| match (x, y, z) {
        (0, 0, 1) => Some(front),
        _ => None,
    };
    assert_eq!(
        stairs_shape_at(0, 0, 0, current, &voxel_at),
        StairsShape::OuterLeft
    );
}

#[test]
fn stairs_shape_inner_right_matches_vanilla_back_neighbor_rule() {
    // Facing south, back stair facing west => inner_right.
    let current = Voxel {
        id: interactive_blocks::OAK_STAIRS,
        state: Facing::South.to_state(),
        ..Default::default()
    };
    let back = Voxel {
        id: interactive_blocks::OAK_STAIRS,
        state: Facing::West.to_state(),
        ..Default::default()
    };

    let voxel_at = |x: i32, y: i32, z: i32| match (x, y, z) {
        (0, 0, -1) => Some(back),
        _ => None,
    };
    assert_eq!(
        stairs_shape_at(0, 0, 0, current, &voxel_at),
        StairsShape::InnerRight
    );
}

#[test]
fn stairs_shape_outer_corner_suppressed_by_matching_side_stair() {
    // Outer corner candidate (front stair facing east), but blocked by a matching stair
    // at west (front_facing.opposite).
    let current = Voxel {
        id: interactive_blocks::OAK_STAIRS,
        state: Facing::South.to_state(),
        ..Default::default()
    };
    let front = Voxel {
        id: interactive_blocks::OAK_STAIRS,
        state: Facing::East.to_state(),
        ..Default::default()
    };
    let west_match = Voxel {
        id: interactive_blocks::OAK_STAIRS,
        state: Facing::South.to_state(),
        ..Default::default()
    };

    let voxel_at = |x: i32, y: i32, z: i32| match (x, y, z) {
        (0, 0, 1) => Some(front),
        (-1, 0, 0) => Some(west_match),
        _ => None,
    };
    assert_eq!(
        stairs_shape_at(0, 0, 0, current, &voxel_at),
        StairsShape::Straight
    );
}

#[test]
fn test_is_fence() {
    assert!(is_fence(interactive_blocks::OAK_FENCE));
    assert!(!is_fence(interactive_blocks::OAK_FENCE_GATE));
    assert!(!is_fence(BLOCK_STONE));
}

#[test]
fn test_is_fence_gate() {
    assert!(is_fence_gate(interactive_blocks::OAK_FENCE_GATE));
    assert!(!is_fence_gate(interactive_blocks::OAK_FENCE));
    assert!(!is_fence_gate(BLOCK_STONE));
}

#[test]
fn test_is_bed() {
    assert!(is_bed(interactive_blocks::BED_HEAD));
    assert!(is_bed(interactive_blocks::BED_FOOT));
    assert!(!is_bed(BLOCK_STONE));
}

#[test]
fn test_is_chest() {
    assert!(is_chest(interactive_blocks::CHEST));
    assert!(!is_chest(BLOCK_STONE));
}

#[test]
fn test_interaction_manager_new() {
    let manager = InteractionManager::new();
    assert!(manager.has_no_dirty_chunks());
}

#[test]
fn test_interaction_manager_default() {
    let manager = InteractionManager::default();
    assert!(manager.has_no_dirty_chunks());
}

#[test]
fn test_toggle_door() {
    let mut manager = InteractionManager::new();
    let mut chunks = ChunkMap::new();
    let mut chunk = create_test_chunk();

    // Place oak door
    chunk.set_voxel(
        5,
        64,
        5,
        Voxel {
            id: interactive_blocks::OAK_DOOR_LOWER,
            state: 0,
            light_sky: 15,
            light_block: 0,
        },
    );
    chunk.set_voxel(
        5,
        65,
        5,
        Voxel {
            id: interactive_blocks::OAK_DOOR_UPPER,
            state: 0,
            light_sky: 15,
            light_block: 0,
        },
    );
    chunks.insert(ChunkPos::new(0, 0), chunk);

    // Toggle door
    let result = manager.toggle_door(ChunkPos::new(0, 0), 5, 64, 5, &mut chunks);
    assert!(result);

    let chunk = chunks.get(&ChunkPos::new(0, 0)).unwrap();
    let lower = chunk.voxel(5, 64, 5);
    let upper = chunk.voxel(5, 65, 5);

    // Both halves should be open
    assert!(is_door_open(lower.state));
    assert!(is_door_open(upper.state));
}

#[test]
fn test_toggle_door_from_upper() {
    let mut manager = InteractionManager::new();
    let mut chunks = ChunkMap::new();
    let mut chunk = create_test_chunk();

    // Place oak door
    chunk.set_voxel(
        5,
        64,
        5,
        Voxel {
            id: interactive_blocks::OAK_DOOR_LOWER,
            state: 0,
            light_sky: 15,
            light_block: 0,
        },
    );
    chunk.set_voxel(
        5,
        65,
        5,
        Voxel {
            id: interactive_blocks::OAK_DOOR_UPPER,
            state: 0,
            light_sky: 15,
            light_block: 0,
        },
    );
    chunks.insert(ChunkPos::new(0, 0), chunk);

    // Toggle door from upper half
    let result = manager.toggle_door(ChunkPos::new(0, 0), 5, 65, 5, &mut chunks);
    assert!(result);

    let chunk = chunks.get(&ChunkPos::new(0, 0)).unwrap();
    let lower = chunk.voxel(5, 64, 5);
    let upper = chunk.voxel(5, 65, 5);

    // Both halves should be open
    assert!(is_door_open(lower.state));
    assert!(is_door_open(upper.state));
}

#[test]
fn test_toggle_iron_door_fails() {
    let mut manager = InteractionManager::new();
    let mut chunks = ChunkMap::new();
    let mut chunk = create_test_chunk();

    // Place iron door
    chunk.set_voxel(
        5,
        64,
        5,
        Voxel {
            id: interactive_blocks::IRON_DOOR_LOWER,
            state: 0,
            light_sky: 15,
            light_block: 0,
        },
    );
    chunks.insert(ChunkPos::new(0, 0), chunk);

    // Iron doors can't be toggled manually
    let result = manager.toggle_door(ChunkPos::new(0, 0), 5, 64, 5, &mut chunks);
    assert!(!result);
}

#[test]
fn test_toggle_non_door() {
    let mut manager = InteractionManager::new();
    let mut chunks = ChunkMap::new();
    let mut chunk = create_test_chunk();

    // Place stone
    chunk.set_voxel(
        5,
        64,
        5,
        Voxel {
            id: BLOCK_STONE,
            state: 0,
            light_sky: 0,
            light_block: 0,
        },
    );
    chunks.insert(ChunkPos::new(0, 0), chunk);

    // Should fail
    let result = manager.toggle_door(ChunkPos::new(0, 0), 5, 64, 5, &mut chunks);
    assert!(!result);
}

#[test]
fn test_toggle_fence_gate() {
    let mut manager = InteractionManager::new();
    let mut chunks = ChunkMap::new();
    let mut chunk = create_test_chunk();

    // Place fence gate
    chunk.set_voxel(
        5,
        64,
        5,
        Voxel {
            id: interactive_blocks::OAK_FENCE_GATE,
            state: 0,
            light_sky: 15,
            light_block: 0,
        },
    );
    chunks.insert(ChunkPos::new(0, 0), chunk);

    // Toggle gate
    let result = manager.toggle_fence_gate(ChunkPos::new(0, 0), 5, 64, 5, &mut chunks);
    assert!(result);

    let chunk = chunks.get(&ChunkPos::new(0, 0)).unwrap();
    let gate = chunk.voxel(5, 64, 5);
    assert!(is_fence_gate_open(gate.state));

    // Toggle again to close
    let result = manager.toggle_fence_gate(ChunkPos::new(0, 0), 5, 64, 5, &mut chunks);
    assert!(result);

    let chunk = chunks.get(&ChunkPos::new(0, 0)).unwrap();
    let gate = chunk.voxel(5, 64, 5);
    assert!(!is_fence_gate_open(gate.state));
}

#[test]
fn test_toggle_non_fence_gate() {
    let mut manager = InteractionManager::new();
    let mut chunks = ChunkMap::new();
    let mut chunk = create_test_chunk();

    chunk.set_voxel(
        5,
        64,
        5,
        Voxel {
            id: BLOCK_STONE,
            state: 0,
            light_sky: 0,
            light_block: 0,
        },
    );
    chunks.insert(ChunkPos::new(0, 0), chunk);

    let result = manager.toggle_fence_gate(ChunkPos::new(0, 0), 5, 64, 5, &mut chunks);
    assert!(!result);
}

#[test]
fn test_toggle_trapdoor() {
    let mut manager = InteractionManager::new();
    let mut chunks = ChunkMap::new();
    let mut chunk = create_test_chunk();

    // Place trapdoor
    chunk.set_voxel(
        5,
        64,
        5,
        Voxel {
            id: interactive_blocks::TRAPDOOR,
            state: 0,
            light_sky: 15,
            light_block: 0,
        },
    );
    chunks.insert(ChunkPos::new(0, 0), chunk);

    // Toggle trapdoor
    let result = manager.toggle_trapdoor(ChunkPos::new(0, 0), 5, 64, 5, &mut chunks);
    assert!(result);

    let chunk = chunks.get(&ChunkPos::new(0, 0)).unwrap();
    let trapdoor = chunk.voxel(5, 64, 5);
    assert!(is_trapdoor_open(trapdoor.state));
}

#[test]
fn test_toggle_non_trapdoor() {
    let mut manager = InteractionManager::new();
    let mut chunks = ChunkMap::new();
    let mut chunk = create_test_chunk();

    chunk.set_voxel(
        5,
        64,
        5,
        Voxel {
            id: BLOCK_STONE,
            state: 0,
            light_sky: 0,
            light_block: 0,
        },
    );
    chunks.insert(ChunkPos::new(0, 0), chunk);

    let result = manager.toggle_trapdoor(ChunkPos::new(0, 0), 5, 64, 5, &mut chunks);
    assert!(!result);
}

#[test]
fn test_interact_with_door() {
    let mut manager = InteractionManager::new();
    let mut chunks = ChunkMap::new();
    let mut chunk = create_test_chunk();

    chunk.set_voxel(
        5,
        64,
        5,
        Voxel {
            id: interactive_blocks::OAK_DOOR_LOWER,
            state: 0,
            light_sky: 15,
            light_block: 0,
        },
    );
    chunk.set_voxel(
        5,
        65,
        5,
        Voxel {
            id: interactive_blocks::OAK_DOOR_UPPER,
            state: 0,
            light_sky: 15,
            light_block: 0,
        },
    );
    chunks.insert(ChunkPos::new(0, 0), chunk);

    let result = manager.interact(ChunkPos::new(0, 0), 5, 64, 5, &mut chunks);
    assert_eq!(result, InteractionResult::DoorToggled);
}

#[test]
fn test_interact_with_fence_gate() {
    let mut manager = InteractionManager::new();
    let mut chunks = ChunkMap::new();
    let mut chunk = create_test_chunk();

    chunk.set_voxel(
        5,
        64,
        5,
        Voxel {
            id: interactive_blocks::OAK_FENCE_GATE,
            state: 0,
            light_sky: 15,
            light_block: 0,
        },
    );
    chunks.insert(ChunkPos::new(0, 0), chunk);

    let result = manager.interact(ChunkPos::new(0, 0), 5, 64, 5, &mut chunks);
    assert_eq!(result, InteractionResult::FenceGateToggled);
}

#[test]
fn test_interact_with_trapdoor() {
    let mut manager = InteractionManager::new();
    let mut chunks = ChunkMap::new();
    let mut chunk = create_test_chunk();

    chunk.set_voxel(
        5,
        64,
        5,
        Voxel {
            id: interactive_blocks::TRAPDOOR,
            state: 0,
            light_sky: 15,
            light_block: 0,
        },
    );
    chunks.insert(ChunkPos::new(0, 0), chunk);

    let result = manager.interact(ChunkPos::new(0, 0), 5, 64, 5, &mut chunks);
    assert_eq!(result, InteractionResult::TrapdoorToggled);
}

#[test]
fn test_interact_with_bed() {
    let mut manager = InteractionManager::new();
    let mut chunks = ChunkMap::new();
    let mut chunk = create_test_chunk();

    chunk.set_voxel(
        5,
        64,
        5,
        Voxel {
            id: interactive_blocks::BED_HEAD,
            state: 0,
            light_sky: 15,
            light_block: 0,
        },
    );
    chunks.insert(ChunkPos::new(0, 0), chunk);

    let result = manager.interact(ChunkPos::new(0, 0), 5, 64, 5, &mut chunks);
    assert_eq!(result, InteractionResult::OpenBedUI);
}

#[test]
fn test_interact_with_chest() {
    let mut manager = InteractionManager::new();
    let mut chunks = ChunkMap::new();
    let mut chunk = create_test_chunk();

    chunk.set_voxel(
        5,
        64,
        5,
        Voxel {
            id: interactive_blocks::CHEST,
            state: 0,
            light_sky: 15,
            light_block: 0,
        },
    );
    chunks.insert(ChunkPos::new(0, 0), chunk);

    let result = manager.interact(ChunkPos::new(0, 0), 5, 64, 5, &mut chunks);
    assert_eq!(result, InteractionResult::OpenChestUI);
}

#[test]
fn test_interact_with_stone() {
    let mut manager = InteractionManager::new();
    let mut chunks = ChunkMap::new();
    let mut chunk = create_test_chunk();

    chunk.set_voxel(
        5,
        64,
        5,
        Voxel {
            id: BLOCK_STONE,
            state: 0,
            light_sky: 0,
            light_block: 0,
        },
    );
    chunks.insert(ChunkPos::new(0, 0), chunk);

    let result = manager.interact(ChunkPos::new(0, 0), 5, 64, 5, &mut chunks);
    assert_eq!(result, InteractionResult::NoAction);
}

#[test]
fn test_interact_missing_chunk() {
    let mut manager = InteractionManager::new();
    let mut chunks = ChunkMap::new();

    let result = manager.interact(ChunkPos::new(0, 0), 5, 64, 5, &mut chunks);
    assert_eq!(result, InteractionResult::NoAction);
}

#[test]
fn interaction_test_take_dirty_chunks() {
    let mut manager = InteractionManager::new();
    let mut chunks = ChunkMap::new();
    let mut chunk = create_test_chunk();

    chunk.set_voxel(
        5,
        64,
        5,
        Voxel {
            id: interactive_blocks::OAK_FENCE_GATE,
            state: 0,
            light_sky: 15,
            light_block: 0,
        },
    );
    chunks.insert(ChunkPos::new(0, 0), chunk);

    manager.toggle_fence_gate(ChunkPos::new(0, 0), 5, 64, 5, &mut chunks);

    let dirty = manager.take_dirty_chunks();
    assert!(dirty.contains(&ChunkPos::new(0, 0)));

    let dirty2 = manager.take_dirty_chunks();
    assert!(dirty2.is_empty());
}

#[test]
fn test_missing_chunk_operations() {
    let mut manager = InteractionManager::new();
    let mut chunks = ChunkMap::new();

    // All operations should return false with missing chunk
    assert!(!manager.toggle_door(ChunkPos::new(0, 0), 5, 64, 5, &mut chunks));
    assert!(!manager.toggle_fence_gate(ChunkPos::new(0, 0), 5, 64, 5, &mut chunks));
    assert!(!manager.toggle_trapdoor(ChunkPos::new(0, 0), 5, 64, 5, &mut chunks));
}

#[test]
fn test_interact_with_iron_door() {
    let mut manager = InteractionManager::new();
    let mut chunks = ChunkMap::new();
    let mut chunk = create_test_chunk();

    chunk.set_voxel(
        5,
        64,
        5,
        Voxel {
            id: interactive_blocks::IRON_DOOR_LOWER,
            state: 0,
            light_sky: 15,
            light_block: 0,
        },
    );
    chunks.insert(ChunkPos::new(0, 0), chunk);

    // Iron door requires redstone, so interact should return None
    let result = manager.interact(ChunkPos::new(0, 0), 5, 64, 5, &mut chunks);
    assert_eq!(result, InteractionResult::NoAction);
}
