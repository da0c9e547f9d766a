use mdminecraft_world::chunk::{BlockId, BLOCK_AIR, CHUNK_SIZE_X, CHUNK_SIZE_Y, CHUNK_SIZE_Z, Chunk, ChunkMap, ChunkPos, LocalPos};
use mdminecraft_world::lighting::{LightType, MAX_LIGHT_LEVEL, add_block_light, add_block_light_with_neighbors, apply_cross_chunk_updates, init_skylight, BlockOpacityProvider, remove_block_light, stitch_light_seams};

struct MockRegistry;

impl BlockOpacityProvider for MockRegistry {
    fn opaque_of(&self, block_id: BlockId) -> bool {
        block_id != BLOCK_AIR
    }

    fn is_opaque(&self, block_id: BlockId) -> bool {
        block_id != BLOCK_AIR
    }

    fn base_emission_of(&self, _block_id: BlockId) -> u8 {
        0
    }

    fn base_block_light_emission(&self, _block_id: BlockId) -> u8 {
        0
    }
}

#[test]
fn skylight_floods_downward() {
    let pos = ChunkPos::new(0, 0);
    let mut chunk = Chunk::new(pos);
    let registry = MockRegistry;

    let update = init_skylight(&mut chunk, &registry);
    assert!(update.nodes_processed > 0);

    // Check top voxels have max light.
    for x in 0..CHUNK_SIZE_X {
        for z in 0..CHUNK_SIZE_Z {
            let voxel = chunk.voxel(x, CHUNK_SIZE_Y - 1, z);
            assert_eq!(voxel.light_sky, MAX_LIGHT_LEVEL);
        }
    }

    // Check bottom voxels have max light (no obstacles).
    for x in 0..CHUNK_SIZE_X {
        for z in 0..CHUNK_SIZE_Z {
            let voxel = chunk.voxel(x, 0, z);
            assert_eq!(voxel.light_sky, MAX_LIGHT_LEVEL);
        }
    }
}

#[test]
fn block_light_propagates_with_decay() {
    let pos = ChunkPos::new(0, 0);
    let mut chunk = Chunk::new(pos);
    let registry = MockRegistry;

    let torch_pos = LocalPos { x: 8, y: 64, z: 8 };
    let update = add_block_light(&mut chunk, torch_pos, 15, &registry);
    assert!(update.nodes_processed > 0);

    // Check torch position has max light.
    let voxel = chunk.voxel(torch_pos.x, torch_pos.y, torch_pos.z);
    assert_eq!(voxel.light_block, 15);

    // Check adjacent position has light - 1.
    let adjacent = chunk.voxel(torch_pos.x + 1, torch_pos.y, torch_pos.z);
    assert_eq!(adjacent.light_block, 14);
}

#[test]
fn remove_block_light_clears_affected_area() {
    let pos = ChunkPos::new(0, 0);
    let mut chunk = Chunk::new(pos);
    let registry = MockRegistry;

    let torch_pos = LocalPos { x: 8, y: 64, z: 8 };
    add_block_light(&mut chunk, torch_pos, 15, &registry);

    // Verify light is present.
    let voxel_before = chunk.voxel(torch_pos.x, torch_pos.y, torch_pos.z);
    assert_eq!(voxel_before.light_block, 15);

    // Remove light.
    let update = remove_block_light(&mut chunk, torch_pos, &registry);
    assert!(update.nodes_processed > 0);

    // Check torch position is now dark.
    let voxel_after = chunk.voxel(torch_pos.x, torch_pos.y, torch_pos.z);
    assert_eq!(voxel_after.light_block, 0);

    // Check adjacent positions are also dark.
    let adjacent = chunk.voxel(torch_pos.x + 1, torch_pos.y, torch_pos.z);
    assert_eq!(adjacent.light_block, 0);
}

#[test]
fn block_light_crosses_chunk_seams() {
    let mut chunks = ChunkMap::new();
    let pos_a = ChunkPos::new(0, 0);
    let pos_b = ChunkPos::new(1, 0);
    let mut chunk_a = Chunk::new(pos_a);
    let chunk_b = Chunk::new(pos_b);

    // Place a torch-equivalent block light at the east edge of chunk A.
    let torch_pos = LocalPos {
        x: CHUNK_SIZE_X - 1,
        y: 64,
        z: 8,
    };
    let mut torch_voxel = chunk_a.voxel(torch_pos.x, torch_pos.y, torch_pos.z);
    torch_voxel.light_block = MAX_LIGHT_LEVEL;
    chunk_a.set_voxel(torch_pos.x, torch_pos.y, torch_pos.z, torch_voxel);

    chunks.insert(pos_a, chunk_a);
    chunks.insert(pos_b, chunk_b);

    let registry = MockRegistry;

    // Stitch block light across seam.
    let _ = stitch_light_seams(&mut chunks, &registry, pos_a, LightType::BlockLight);

    // West face of chunk B adjacent to torch should receive propagated light (level 14).
    let chunk_b = chunks.get(&pos_b).unwrap();
    let lit = chunk_b.voxel(0, torch_pos.y, torch_pos.z);
    assert_eq!(lit.light_block, MAX_LIGHT_LEVEL - 1);
}

#[test]
fn add_block_light_generates_cross_chunk_updates() {
    let pos = ChunkPos::new(0, 0);
    let mut chunk = Chunk::new(pos);
    let registry = MockRegistry;

    // Place torch at the very edge of the chunk (east boundary).
    let torch_pos = LocalPos {
        x: CHUNK_SIZE_X - 1,
        y: 64,
        z: 8,
    };

    let (update, cross_chunk_updates) =
        add_block_light_with_neighbors(&mut chunk, torch_pos, MAX_LIGHT_LEVEL, &registry);

    assert!(update.nodes_processed > 0);

    // Should have generated at least one cross-chunk update for the east neighbor.
    assert!(
        !cross_chunk_updates.is_empty(),
        "Expected cross-chunk updates for edge torch"
    );

    // Verify at least one update targets the chunk to the east.
    let east_updates: Vec<_> = cross_chunk_updates
        .iter()
        .filter(|u| u.target_chunk == ChunkPos::new(1, 0))
        .collect();

    assert!(
        !east_updates.is_empty(),
        "Expected update for east neighbor chunk"
    );

    // Check the first east update has correct position and level.
    let first_east = east_updates[0];
    assert_eq!(first_east.target_pos.x, 0); // Should be west edge of east chunk
    assert_eq!(first_east.target_pos.y, torch_pos.y);
    assert_eq!(first_east.light_type, LightType::BlockLight);
    assert_eq!(first_east.level, MAX_LIGHT_LEVEL - 1); // Decayed by 1
}

#[test]
fn apply_cross_chunk_updates_propagates_light() {
    let mut chunks = ChunkMap::new();
    let pos_a = ChunkPos::new(0, 0);
    let pos_b = ChunkPos::new(1, 0);
    let mut chunk_a = Chunk::new(pos_a);
    let chunk_b = Chunk::new(pos_b);
    let registry = MockRegistry;

    // Add torch at east edge of chunk A.
    let torch_pos = LocalPos {
        x: CHUNK_SIZE_X - 1,
        y: 64,
        z: 8,
    };

    let (_, cross_chunk_updates) =
        add_block_light_with_neighbors(&mut chunk_a, torch_pos, MAX_LIGHT_LEVEL, &registry);

    chunks.insert(pos_a, chunk_a);
    chunks.insert(pos_b, chunk_b);

    // Apply the cross-chunk updates.
    let updated = apply_cross_chunk_updates(&mut chunks, &registry, cross_chunk_updates);

    assert!(updated > 0, "Expected some voxels to be updated");

    // Verify chunk B received light at its west edge.
    let chunk_b = chunks.get(&pos_b).unwrap();
    let lit_voxel = chunk_b.voxel(0, torch_pos.y, torch_pos.z);
    assert!(
        lit_voxel.light_block > 0,
        "Expected chunk B to receive light"
    );
}

#[test]
fn cross_chunk_update_respects_opacity() {
    let mut chunks = ChunkMap::new();
    let pos_a = ChunkPos::new(0, 0);
    let pos_b = ChunkPos::new(1, 0);
    let mut chunk_a = Chunk::new(pos_a);
    let mut chunk_b = Chunk::new(pos_b);
    let registry = MockRegistry;

    // Add torch at east edge of chunk A.
    let torch_pos = LocalPos {
        x: CHUNK_SIZE_X - 1,
        y: 64,
        z: 8,
    };

    // Place an opaque block in chunk B at the position that would receive light.
    let mut blocking_voxel = chunk_b.voxel(0, torch_pos.y, torch_pos.z);
    blocking_voxel.id = 1; // Opaque block (not air)
    chunk_b.set_voxel(0, torch_pos.y, torch_pos.z, blocking_voxel);

    let (_, cross_chunk_updates) =
        add_block_light_with_neighbors(&mut chunk_a, torch_pos, MAX_LIGHT_LEVEL, &registry);

    chunks.insert(pos_a, chunk_a);
    chunks.insert(pos_b, chunk_b);

    // Apply the cross-chunk updates.
    apply_cross_chunk_updates(&mut chunks, &registry, cross_chunk_updates);

    // Verify chunk B did NOT receive light (blocked by opaque block).
    let chunk_b = chunks.get(&pos_b).unwrap();
    let blocked_voxel = chunk_b.voxel(0, torch_pos.y, torch_pos.z);
    assert_eq!(
        blocked_voxel.light_block, 0,
        "Opaque block should not receive light"
    );
}

#[test]
fn removing_one_torch_refloods_from_the_other() {
    let mut chunk = Chunk::new(ChunkPos::new(0, 0));
    let registry = MockRegistry;
    let a = LocalPos { x: 4, y: 64, z: 8 };
    let b = LocalPos { x: 10, y: 64, z: 8 };
    add_block_light(&mut chunk, a, 15, &registry);
    add_block_light(&mut chunk, b, 15, &registry);
    assert_eq!(chunk.voxel(7, 64, 8).light_block, 12);

    let update = remove_block_light(&mut chunk, a, &registry);
    assert!(update.nodes_processed > 0);
    // The cells that got dimmer step by step from the removed torch are cleared, then the
    // light of the other torch flows back into them.
    assert_eq!(chunk.voxel(10, 64, 8).light_block, 15);
    assert_eq!(chunk.voxel(8, 64, 8).light_block, 13);
    assert_eq!(chunk.voxel(7, 64, 8).light_block, 12);
    assert_eq!(chunk.voxel(4, 64, 8).light_block, 9);
    assert_eq!(chunk.voxel(1, 64, 8).light_block, 6);
}

#[test]
fn removing_a_torch_between_two_keeps_the_light_of_the_other() {
    let mut chunk = Chunk::new(ChunkPos::new(0, 0));
    let registry = MockRegistry;
    add_block_light(&mut chunk, LocalPos { x: 8, y: 64, z: 8 }, 15, &registry);
    add_block_light(&mut chunk, LocalPos { x: 12, y: 64, z: 8 }, 15, &registry);
    assert_eq!(chunk.voxel(10, 64, 8).light_block, 13);
    assert_eq!(chunk.voxel(11, 64, 8).light_block, 14);

    remove_block_light(&mut chunk, LocalPos { x: 8, y: 64, z: 8 }, &registry);
    assert_eq!(chunk.voxel(11, 64, 8).light_block, 14);
    assert_eq!(chunk.voxel(10, 64, 8).light_block, 13);
    assert_eq!(chunk.voxel(8, 64, 8).light_block, 11);
}

#[test]
fn removing_light_where_there_is_none_does_nothing() {
    let mut chunk = Chunk::new(ChunkPos::new(0, 0));
    let registry = MockRegistry;
    let update = remove_block_light(&mut chunk, LocalPos { x: 1, y: 2, z: 3 }, &registry);
    assert_eq!(update.nodes_processed, 0);
    assert_eq!(chunk.voxel(1, 2, 3).light_block, 0);
}

#[test]
fn light_goes_around_an_opaque_block() {
    let mut chunk = Chunk::new(ChunkPos::new(0, 0));
    let registry = MockRegistry;
    let mut stone = chunk.voxel(9, 64, 8);
    stone.id = 1;
    chunk.set_voxel(9, 64, 8, stone);

    add_block_light(&mut chunk, LocalPos { x: 8, y: 64, z: 8 }, 15, &registry);
    // The block itself stays dark, and the cell behind it is lit along the shortest way
    // around it: four steps, not two.
    assert_eq!(chunk.voxel(9, 64, 8).light_block, 0);
    assert_eq!(chunk.voxel(10, 64, 8).light_block, 11);
    assert_eq!(chunk.voxel(10, 65, 8).light_block, 12);
}
