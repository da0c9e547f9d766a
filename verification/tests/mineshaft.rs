use mdminecraft_world::chunk::{Chunk, ChunkPos, BLOCK_OAK_PLANKS, CHUNK_SIZE_X, CHUNK_SIZE_Y, CHUNK_SIZE_Z};
use mdminecraft_world::interactive_blocks;
use mdminecraft_world::mineshaft::{mineshaft_bounds_for_region, MineshaftGenerator, MINESHAFT_SEED_SALT};
use mdminecraft_world::structures::world_to_chunk_local;

#[test]
fn mineshaft_generation_is_deterministic_for_chunk() {
    let generator = MineshaftGenerator::new(MINESHAFT_SEED_SALT);
    let bounds =
        mineshaft_bounds_for_region(MINESHAFT_SEED_SALT, 0, 0).expect("missing mineshaft");
    let chunk_pos = ChunkPos::new(
        bounds.min_x.div_euclid(CHUNK_SIZE_X as i32),
        bounds.min_z.div_euclid(CHUNK_SIZE_Z as i32),
    );

    assert!(
        world_to_chunk_local(chunk_pos, bounds.min_x, bounds.min_z).is_some(),
        "expected bounds corner to be inside chosen chunk"
    );

    let mut chunk_a = Chunk::new(chunk_pos);
    let mut chunk_b = Chunk::new(chunk_pos);

    assert!(generator.try_generate_mineshaft(&mut chunk_a));
    assert!(generator.try_generate_mineshaft(&mut chunk_b));

    for y in 0..CHUNK_SIZE_Y {
        for z in 0..CHUNK_SIZE_Z {
            for x in 0..CHUNK_SIZE_X {
                assert_eq!(
                    chunk_a.voxel(x, y, z),
                    chunk_b.voxel(x, y, z),
                    "voxel mismatch at ({x}, {y}, {z})"
                );
            }
        }
    }
}

#[test]
fn mineshaft_corridor_has_plank_floor_and_one_chest() {
    let generator = MineshaftGenerator::new(MINESHAFT_SEED_SALT);
    let bounds = mineshaft_bounds_for_region(MINESHAFT_SEED_SALT, 0, 0).unwrap();
    assert_eq!(bounds.max_y - bounds.min_y, 3);
    let along_x = bounds.max_z - bounds.min_z == 2;
    let length = if along_x { bounds.max_x - bounds.min_x + 1 } else { bounds.max_z - bounds.min_z + 1 };
    assert!((24..=80).contains(&length));
    assert!((16..=48).contains(&bounds.min_y));

    // Carve every chunk of the region the corridor meets and count what it placed.
    let mut chests = 0;
    let mut floor_planks = 0;
    for cx in 0..8 {
        for cz in 0..8 {
            let mut chunk = Chunk::new(ChunkPos::new(cx, cz));
            let generated = generator.try_generate_mineshaft(&mut chunk);
            let meets = bounds.min_x <= cx * 16 + 15
                && cx * 16 <= bounds.max_x
                && bounds.min_z <= cz * 16 + 15
                && cz * 16 <= bounds.max_z;
            assert_eq!(generated, meets);
            for y in 0..CHUNK_SIZE_Y {
                for z in 0..CHUNK_SIZE_Z {
                    for x in 0..CHUNK_SIZE_X {
                        let id = chunk.voxel(x, y, z).id;
                        if id == interactive_blocks::CHEST {
                            chests += 1;
                            assert_eq!(y as i32, bounds.min_y + 1);
                        }
                        if id == BLOCK_OAK_PLANKS && y as i32 == bounds.min_y {
                            floor_planks += 1;
                        }
                    }
                }
            }
        }
    }
    assert_eq!(chests, 1);
    assert_eq!(floor_planks, length * 3);
}

#[test]
fn chunks_far_from_the_corridor_are_untouched() {
    let generator = MineshaftGenerator::new(7);
    let bounds = mineshaft_bounds_for_region(7, 0, 0).unwrap();
    for cx in 0..8 {
        for cz in 0..8 {
            let meets = bounds.min_x <= cx * 16 + 15
                && cx * 16 <= bounds.max_x
                && bounds.min_z <= cz * 16 + 15
                && cz * 16 <= bounds.max_z;
            if meets {
                continue;
            }
            let mut chunk = Chunk::new(ChunkPos::new(cx, cz));
            assert!(!generator.try_generate_mineshaft(&mut chunk));
            assert_eq!(chunk.voxel(8, 30, 8).id, 0);
        }
    }
}
