use mdminecraft_world::chunk::{
    Chunk, ChunkPos, Voxel, BLOCK_COBBLESTONE, BLOCK_STONE, BLOCK_STONE_BRICKS, CHUNK_SIZE_X,
    CHUNK_SIZE_Y, CHUNK_SIZE_Z,
};
use mdminecraft_world::interactive_blocks;
use mdminecraft_world::ruin::{ruin_base_y, ruin_bounds_for_region, RuinGenerator, RUIN_SEED_SALT};
use mdminecraft_world::structures::world_to_chunk_local;
use mdminecraft_world::village::village_bounds_for_region;

fn solid_chunk(pos: ChunkPos, top: usize) -> Chunk {
    let mut chunk = Chunk::new(pos);
    for y in 0..top {
        for z in 0..CHUNK_SIZE_Z {
            for x in 0..CHUNK_SIZE_X {
                chunk.set_voxel(
                    x,
                    y,
                    z,
                    Voxel {
                        id: BLOCK_STONE,
                        ..Default::default()
                    },
                );
            }
        }
    }
    chunk
}

fn flat_terrain(_x: i32, _z: i32) -> i32 {
    63
}

#[test]
fn ruin_generation_is_deterministic_for_chunk() {
    let generator = RuinGenerator::new(RUIN_SEED_SALT);
    let bounds = ruin_bounds_for_region(RUIN_SEED_SALT, 0, 0, flat_terrain)
        .expect("missing ruin");

    let chunk_pos = ChunkPos::new(
        bounds.min_x.div_euclid(CHUNK_SIZE_X as i32),
        bounds.min_z.div_euclid(CHUNK_SIZE_Z as i32),
    );

    assert!(
        world_to_chunk_local(chunk_pos, bounds.min_x, bounds.min_z).is_some(),
        "expected bounds corner to be inside chosen chunk"
    );

    let mut chunk_a = solid_chunk(chunk_pos, 64);
    let mut chunk_b = solid_chunk(chunk_pos, 64);

    assert!(generator.try_generate_ruin(&mut chunk_a, flat_terrain));
    assert!(generator.try_generate_ruin(&mut chunk_b, flat_terrain));

    for y in 0..CHUNK_SIZE_Y {
        for z in 0..CHUNK_SIZE_Z {
            for x in 0..CHUNK_SIZE_X {
                assert_eq!(
                    chunk_a.voxel(x, y, z),
                    chunk_b.voxel(x, y, z),
                    "voxel mismatch at ({x}, {y}, {z})"
                );
            }
        }
    }
}

#[test]
fn ruin_base_y_clamps_the_surface() {
    assert_eq!(ruin_base_y(63), 64);
    assert_eq!(ruin_base_y(-20), 2);
    assert_eq!(ruin_base_y(0), 2);
    assert_eq!(ruin_base_y(251), 252);
    assert_eq!(ruin_base_y(300), 252);
}

#[test]
fn ruin_has_floor_chest_and_foundation() {
    let bounds = ruin_bounds_for_region(9, 0, 0, flat_terrain).unwrap();
    assert_eq!(bounds.max_x - bounds.min_x, 4);
    assert_eq!(bounds.max_z - bounds.min_z, 4);
    assert_eq!(bounds.min_y, 64);
    assert_eq!(bounds.max_y, 67);
    assert!((0..=123).contains(&bounds.min_x) && (0..=123).contains(&bounds.min_z));

    // Ground only up to y = 59: the foundation fills 60..=63 under the footprint.
    let generator = RuinGenerator::new(9);
    let center_x = bounds.min_x + 2;
    let center_z = bounds.min_z + 2;
    let chunk_pos = ChunkPos::new(center_x.div_euclid(16), center_z.div_euclid(16));
    let mut chunk = solid_chunk(chunk_pos, 60);
    assert!(generator.try_generate_ruin(&mut chunk, flat_terrain));
    let (lx, lz) = world_to_chunk_local(chunk_pos, center_x, center_z).unwrap();
    assert_eq!(chunk.voxel(lx, 65, lz).id, interactive_blocks::CHEST);
    assert_eq!(chunk.voxel(lx, 66, lz).id, 0);
    let floor = chunk.voxel(lx, 64, lz).id;
    assert!(floor == BLOCK_COBBLESTONE || floor == BLOCK_STONE_BRICKS);
    for y in 60..64 {
        assert_eq!(chunk.voxel(lx, y, lz).id, BLOCK_COBBLESTONE);
    }
    assert_eq!(chunk.voxel(lx, 59, lz).id, BLOCK_STONE);
}

#[test]
fn ruin_gives_way_to_a_village() {
    let mut gave_way = 0;
    for seed in 0..3000u64 {
        let village = village_bounds_for_region(seed, 0, 0, flat_terrain);
        let ruin = ruin_bounds_for_region(seed, 0, 0, flat_terrain);
        match (village, ruin) {
            (Some(v), Some(r)) => assert!(!r.intersects_bounds(v)),
            (None, r) => assert!(r.is_some()),
            (Some(v), None) => {
                gave_way += 1;
                // No chunk of the region gets a ruin.
                let generator = RuinGenerator::new(seed);
                let chunk_pos = ChunkPos::new(v.min_x.div_euclid(16), v.min_z.div_euclid(16));
                let mut chunk = solid_chunk(chunk_pos, 64);
                assert!(!generator.try_generate_ruin(&mut chunk, flat_terrain));
            }
        }
    }
    assert!(gave_way > 0);
}
