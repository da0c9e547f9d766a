use mdminecraft_world::chunk::{
    BLOCK_AIR, BLOCK_BREWING_STAND, BLOCK_ENCHANTING_TABLE, BLOCK_FARMLAND, BLOCK_SNOW,
    BLOCK_STONE, BLOCK_WATER,
};
use mdminecraft_world::interaction::{
    get_collision_type, set_door_open, set_fence_gate_open, set_snow_layers, set_trapdoor_open,
    set_trapdoor_top, stairs_step_footprints, CollisionType, Facing, SlabPosition, StairsFootprint,
    StairsShape,
};
use mdminecraft_world::interactive_blocks;

/// A height in sixteenths of a block, as a fraction of a block.
fn blocks(sixteenths: u8) -> f32 {
    sixteenths as f32 / 16.0
}

#[test]
fn test_collision_types() {
    // Air has no collision
    assert_eq!(get_collision_type(BLOCK_AIR, 0), CollisionType::NoCollision);

    // Stone has full collision
    assert_eq!(get_collision_type(BLOCK_STONE, 0), CollisionType::Full);

    // Ladder is climbable
    assert_eq!(
        get_collision_type(interactive_blocks::LADDER, 0),
        CollisionType::Ladder
    );

    // Fence has special collision
    assert_eq!(
        get_collision_type(interactive_blocks::OAK_FENCE, 0),
        CollisionType::Fence
    );
    assert_eq!(
        get_collision_type(interactive_blocks::COBBLESTONE_WALL, 0),
        CollisionType::Fence
    );
    assert_eq!(
        get_collision_type(interactive_blocks::STONE_BRICK_WALL, 0),
        CollisionType::Fence
    );

    // Slab is partial
    let bottom_slab_collision = get_collision_type(
        interactive_blocks::STONE_SLAB,
        SlabPosition::Bottom.to_state(0),
    );
    match bottom_slab_collision {
        CollisionType::Partial { min_y, max_y } => {
            assert_eq!(blocks(min_y), 0.0);
            assert_eq!(blocks(max_y), 0.5);
        }
        _ => panic!("Expected partial collision for bottom slab"),
    }

    let snow_collision = get_collision_type(BLOCK_SNOW, set_snow_layers(0, 3));
    match snow_collision {
        CollisionType::Partial { min_y, max_y } => {
            assert_eq!(blocks(min_y), 0.0);
            assert!((blocks(max_y) - 0.375).abs() < 0.0001);
        }
        _ => panic!("Expected partial collision for snow"),
    }
}

#[test]
fn test_door_collision_type() {
    // Closed door
    let collision = get_collision_type(interactive_blocks::OAK_DOOR_LOWER, 0);
    match collision {
        CollisionType::Door { open } => assert!(!open),
        _ => panic!("Expected Door collision"),
    }

    // Open door
    let open_state = set_door_open(0, true);
    let collision = get_collision_type(interactive_blocks::OAK_DOOR_LOWER, open_state);
    match collision {
        CollisionType::Door { open } => assert!(open),
        _ => panic!("Expected Door collision"),
    }
}

#[test]
fn test_fence_gate_collision() {
    // Closed fence gate
    let collision = get_collision_type(interactive_blocks::OAK_FENCE_GATE, 0);
    assert_eq!(collision, CollisionType::Fence);

    // Open fence gate
    let open_state = set_fence_gate_open(0, true);
    let collision = get_collision_type(interactive_blocks::OAK_FENCE_GATE, open_state);
    assert_eq!(collision, CollisionType::NoCollision);
}

#[test]
fn test_trapdoor_collision() {
    // Closed trapdoor
    let collision = get_collision_type(interactive_blocks::TRAPDOOR, 0);
    match collision {
        CollisionType::Partial { min_y, max_y } => {
            assert_eq!(blocks(min_y), 0.0);
            assert_eq!(blocks(max_y), 0.1875);
        }
        _ => panic!("Expected Partial collision for closed trapdoor"),
    }

    // Closed trapdoor (top)
    let top_state = set_trapdoor_top(0, true);
    let collision = get_collision_type(interactive_blocks::TRAPDOOR, top_state);
    match collision {
        CollisionType::Partial { min_y, max_y } => {
            assert_eq!(blocks(min_y), 0.8125);
            assert_eq!(blocks(max_y), 1.0);
        }
        _ => panic!("Expected Partial collision for top trapdoor"),
    }

    // Open trapdoor
    let open_state = set_trapdoor_open(0, true);
    let collision = get_collision_type(interactive_blocks::TRAPDOOR, open_state);
    assert_eq!(collision, CollisionType::NoCollision);
}

#[test]
fn test_top_slab_collision() {
    let top_state = SlabPosition::Top.to_state(0);
    let collision = get_collision_type(interactive_blocks::STONE_SLAB, top_state);
    match collision {
        CollisionType::Partial { min_y, max_y } => {
            assert_eq!(blocks(min_y), 0.5);
            assert_eq!(blocks(max_y), 1.0);
        }
        _ => panic!("Expected Partial collision for top slab"),
    }
}

#[test]
fn test_stairs_collision() {
    let collision = get_collision_type(interactive_blocks::OAK_STAIRS, 0);
    match collision {
        CollisionType::Partial { min_y: _, max_y } => {
            assert_eq!(blocks(max_y), 0.5);
        }
        _ => panic!("Expected Partial collision for stairs"),
    }
}

#[test]
fn test_bed_collision() {
    let collision = get_collision_type(interactive_blocks::BED_HEAD, 0);
    match collision {
        CollisionType::Partial { min_y, max_y } => {
            assert_eq!(blocks(min_y), 0.0);
            assert_eq!(blocks(max_y), 0.5625);
        }
        _ => panic!("Expected Partial collision for bed"),
    }
}

#[test]
fn test_chest_collision() {
    let collision = get_collision_type(interactive_blocks::CHEST, 0);
    match collision {
        CollisionType::Partial { min_y, max_y } => {
            assert_eq!(blocks(min_y), 0.0);
            assert_eq!(blocks(max_y), 0.875);
        }
        _ => panic!("Expected Partial collision for chest"),
    }
}

#[test]
fn test_torch_collision() {
    let collision = get_collision_type(interactive_blocks::TORCH, 0);
    assert_eq!(collision, CollisionType::NoCollision);
}

#[test]
fn test_farmland_collision() {
    let collision = get_collision_type(BLOCK_FARMLAND, 0);
    match collision {
        CollisionType::Partial { min_y, max_y } => {
            assert_eq!(blocks(min_y), 0.0);
            assert_eq!(blocks(max_y), 15.0 / 16.0);
        }
        _ => panic!("Expected Partial collision for farmland"),
    }
}

#[test]
fn test_enchanting_table_collision() {
    let collision = get_collision_type(BLOCK_ENCHANTING_TABLE, 0);
    match collision {
        CollisionType::Partial { min_y, max_y } => {
            assert_eq!(blocks(min_y), 0.0);
            assert_eq!(blocks(max_y), 12.0 / 16.0);
        }
        _ => panic!("Expected Partial collision for enchanting table"),
    }
}

#[test]
fn test_brewing_stand_collision() {
    let collision = get_collision_type(BLOCK_BREWING_STAND, 0);
    match collision {
        CollisionType::Partial { min_y, max_y } => {
            assert_eq!(blocks(min_y), 0.0);
            assert_eq!(blocks(max_y), 14.0 / 16.0);
        }
        _ => panic!("Expected Partial collision for brewing stand"),
    }
}

#[test]
fn test_glass_collision() {
    let collision = get_collision_type(interactive_blocks::GLASS, 0);
    assert_eq!(collision, CollisionType::Full);

    let collision = get_collision_type(interactive_blocks::GLASS_PANE, 0);
    assert_eq!(collision, CollisionType::Full);
}

#[test]
fn test_water_collision() {
    let collision = get_collision_type(BLOCK_WATER, 0);
    assert_eq!(collision, CollisionType::NoCollision);
}

#[test]
fn snow_collision_grows_two_sixteenths_per_layer() {
    for layers in 1..=8u8 {
        assert_eq!(
            get_collision_type(BLOCK_SNOW, set_snow_layers(0, layers)),
            CollisionType::Partial { min_y: 0, max_y: 2 * layers }
        );
    }
}

#[test]
fn stairs_footprints_by_shape() {
    let north_half = StairsFootprint { min_x: 0, max_x: 16, min_z: 0, max_z: 8 };
    let (boxes, n) = stairs_step_footprints(Facing::North, StairsShape::Straight);
    assert_eq!(n, 1);
    assert_eq!(boxes[0], north_half);

    // Outer corner: the front half cut down to its left quarter (west for north-facing).
    let (boxes, n) = stairs_step_footprints(Facing::North, StairsShape::OuterLeft);
    assert_eq!(n, 1);
    assert_eq!(boxes[0], StairsFootprint { min_x: 0, max_x: 8, min_z: 0, max_z: 8 });

    // Inner corner: the front half plus the back-right quarter.
    let (boxes, n) = stairs_step_footprints(Facing::North, StairsShape::InnerRight);
    assert_eq!(n, 2);
    assert_eq!(boxes[0], north_half);
    assert_eq!(boxes[1], StairsFootprint { min_x: 8, max_x: 16, min_z: 8, max_z: 16 });
}
