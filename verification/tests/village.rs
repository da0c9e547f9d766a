use mdminecraft_world::chunk::{
    Chunk, ChunkPos, Voxel, BLOCK_AIR, BLOCK_CARROTS, BLOCK_COBBLESTONE, BLOCK_CRAFTING_TABLE,
    BLOCK_DIRT, BLOCK_FARMLAND_WET, BLOCK_GLASS, BLOCK_GRAVEL, BLOCK_OAK_LOG, BLOCK_OAK_PLANKS,
    BLOCK_POTATOES, BLOCK_STONE, BLOCK_WATER, BLOCK_WHEAT, CHUNK_SIZE_X, CHUNK_SIZE_Y,
    CHUNK_SIZE_Z,
};
use mdminecraft_world::interactive_blocks;
use mdminecraft_world::structures::{world_to_chunk_local, StructureBounds};
use mdminecraft_world::village::{village_bounds_for_region, VillageGenerator, VILLAGE_SEED_SALT};

fn flat_surface(_x: i32, _z: i32) -> i32 {
    64
}

fn solid_chunk(pos: ChunkPos, top: usize) -> Chunk {
    let mut chunk = Chunk::new(pos);
    for y in 0..top {
        for z in 0..CHUNK_SIZE_Z {
            for x in 0..CHUNK_SIZE_X {
                chunk.set_voxel(
                    x,
                    y,
                    z,
                    Voxel {
                        id: BLOCK_STONE,
                        ..Default::default()
                    },
                );
            }
        }
    }
    chunk
}

/// Generates the village into every chunk it touches and reads back world voxels.
struct VillageWorld {
    chunks: Vec<Chunk>,
}

impl VillageWorld {
    fn build(generator: &VillageGenerator, bounds: StructureBounds, ground_top: usize) -> Self {
        let mut chunks = Vec::new();
        for cz in bounds.min_z.div_euclid(16)..=bounds.max_z.div_euclid(16) {
            for cx in bounds.min_x.div_euclid(16)..=bounds.max_x.div_euclid(16) {
                let mut chunk = solid_chunk(ChunkPos::new(cx, cz), ground_top);
                assert!(generator.try_generate_village(&mut chunk, flat_surface));
                chunks.push(chunk);
            }
        }
        VillageWorld { chunks }
    }

    fn at(&self, x: i32, y: i32, z: i32) -> Voxel {
        for chunk in &self.chunks {
            if let Some((lx, lz)) = world_to_chunk_local(chunk.position(), x, z) {
                return chunk.voxel(lx, y as usize, lz);
            }
        }
        panic!("no chunk holds ({x}, {z})");
    }
}

#[test]
fn village_generation_is_deterministic_for_chunk() {
    let generator = VillageGenerator::new(VILLAGE_SEED_SALT);
    let bounds = village_bounds_for_region(VILLAGE_SEED_SALT, 0, 0, flat_surface)
        .expect("missing village");

    let chunk_pos = ChunkPos::new(
        bounds.min_x.div_euclid(CHUNK_SIZE_X as i32),
        bounds.min_z.div_euclid(CHUNK_SIZE_Z as i32),
    );
    assert!(
        world_to_chunk_local(chunk_pos, bounds.min_x, bounds.min_z).is_some(),
        "expected bounds corner to be inside chosen chunk"
    );

    let mut chunk_a = Chunk::new(chunk_pos);
    let mut chunk_b = Chunk::new(chunk_pos);

    assert!(generator.try_generate_village(&mut chunk_a, flat_surface));
    assert!(generator.try_generate_village(&mut chunk_b, flat_surface));

    for y in 0..CHUNK_SIZE_Y {
        for z in 0..CHUNK_SIZE_Z {
            for x in 0..CHUNK_SIZE_X {
                assert_eq!(
                    chunk_a.voxel(x, y, z),
                    chunk_b.voxel(x, y, z),
                    "voxel mismatch at ({x}, {y}, {z})"
                );
            }
        }
    }
}

#[test]
fn village_box_follows_the_surface() {
    let bounds = village_bounds_for_region(VILLAGE_SEED_SALT, 0, 0, flat_surface).unwrap();
    assert_eq!(bounds.max_x - bounds.min_x, 29);
    assert_eq!(bounds.max_z - bounds.min_z, 14);
    assert_eq!(bounds.min_y, 63);
    assert_eq!(bounds.max_y, 72);
    assert!(bounds.min_x >= 9 && bounds.max_x <= 117);
    assert!(bounds.min_z >= 14 && bounds.max_z <= 107);

    let high = village_bounds_for_region(VILLAGE_SEED_SALT, 0, 0, |_x: i32, _z: i32| 500).unwrap();
    assert_eq!(high.min_y, 95);
    let low = village_bounds_for_region(VILLAGE_SEED_SALT, 0, 0, |_x: i32, _z: i32| -40).unwrap();
    assert_eq!(low.min_y, 7);
}

#[test]
fn region_without_village_is_untouched() {
    // The region seed is the world seed xor the salt at region (0, 0): 1 is not a multiple of 5.
    let world_seed = VILLAGE_SEED_SALT ^ 1;
    assert!(village_bounds_for_region(world_seed, 0, 0, flat_surface).is_none());
    let generator = VillageGenerator::new(world_seed);
    let mut chunk = solid_chunk(ChunkPos::new(2, 2), 64);
    let before = chunk.clone();
    assert!(!generator.try_generate_village(&mut chunk, flat_surface));
    for y in 0..CHUNK_SIZE_Y {
        for z in 0..CHUNK_SIZE_Z {
            for x in 0..CHUNK_SIZE_X {
                assert_eq!(chunk.voxel(x, y, z), before.voxel(x, y, z));
            }
        }
    }
}

#[test]
fn chunk_far_from_the_village_is_untouched() {
    let generator = VillageGenerator::new(VILLAGE_SEED_SALT);
    let mut chunk = solid_chunk(ChunkPos::new(7, 7), 64);
    let before = chunk.clone();
    assert!(!generator.try_generate_village(&mut chunk, flat_surface));
    for y in 0..CHUNK_SIZE_Y {
        for z in 0..CHUNK_SIZE_Z {
            for x in 0..CHUNK_SIZE_X {
                assert_eq!(chunk.voxel(x, y, z), before.voxel(x, y, z));
            }
        }
    }
}

#[test]
fn village_layout_around_the_well() {
    let generator = VillageGenerator::new(VILLAGE_SEED_SALT);
    let bounds = village_bounds_for_region(VILLAGE_SEED_SALT, 0, 0, flat_surface).unwrap();
    // Ground reaches y = 60, four blocks below the floor level.
    let world = VillageWorld::build(&generator, bounds, 61);
    let cx = bounds.min_x + 15;
    let cz = bounds.min_z + 10;
    let b = bounds.min_y + 2;
    assert_eq!(b, 65);

    // Well: water inside a cobblestone rim, log posts, plank roof, cobblestone foundation.
    assert_eq!(world.at(cx, b, cz).id, BLOCK_WATER);
    assert_eq!(world.at(cx - 2, b, cz).id, BLOCK_COBBLESTONE);
    assert_eq!(world.at(cx - 2, b + 2, cz - 2).id, BLOCK_OAK_LOG);
    assert_eq!(world.at(cx, b + 2, cz).id, BLOCK_AIR);
    assert_eq!(world.at(cx + 3, b + 4, cz - 3).id, BLOCK_OAK_PLANKS);
    assert_eq!(world.at(cx, b - 1, cz).id, BLOCK_COBBLESTONE);
    for y in 61..b - 1 {
        assert_eq!(world.at(cx + 1, y, cz + 1).id, BLOCK_COBBLESTONE);
    }
    assert_eq!(world.at(cx + 1, 60, cz + 1).id, BLOCK_STONE);

    // Farm north of the well: water at its center, farmland and crops elsewhere.
    assert_eq!(world.at(cx, b - 1, cz - 8).id, BLOCK_WATER);
    assert_eq!(world.at(cx, b, cz - 8).id, BLOCK_AIR);
    for (x, z) in [(cx - 3, cz - 10), (cx + 3, cz - 6), (cx + 1, cz - 9)] {
        assert_eq!(world.at(x, b - 1, z).id, BLOCK_FARMLAND_WET);
        let crop = world.at(x, b, z);
        assert!([BLOCK_WHEAT, BLOCK_CARROTS, BLOCK_POTATOES].contains(&crop.id));
        assert!(crop.state <= 7);
        assert_eq!(world.at(x, b + 1, z).id, BLOCK_AIR);
        assert_eq!(world.at(x, b - 2, z).id, BLOCK_DIRT);
    }

    // Houses: west one at x = cx - 15, east one at x = cx + 8, both at z = cz - 3.
    for ox in [cx - 15, cx + 8] {
        let oz = cz - 3;
        assert_eq!(world.at(ox + 1, b + 1, oz + 1).id, BLOCK_CRAFTING_TABLE);
        assert_eq!(world.at(ox + 5, b + 1, oz + 1).id, interactive_blocks::CHEST);
        assert_eq!(world.at(ox + 3, b + 1, oz + 3).id, interactive_blocks::TORCH);
        let lower = world.at(ox + 3, b + 1, oz + 6);
        assert_eq!(lower.id, interactive_blocks::OAK_DOOR_LOWER);
        assert_eq!(lower.state, 1);
        assert_eq!(world.at(ox + 3, b + 2, oz + 6).id, interactive_blocks::OAK_DOOR_UPPER);
        assert_eq!(world.at(ox, b + 1, oz).id, BLOCK_OAK_LOG);
        assert_eq!(world.at(ox + 1, b + 1, oz).id, BLOCK_OAK_PLANKS);
        let window = world.at(ox + 2, b + 2, oz).id;
        assert!(window == BLOCK_GLASS || window == BLOCK_OAK_PLANKS);
        assert_eq!(world.at(ox + 2, b + 2, oz + 2).id, BLOCK_AIR);
        assert_eq!(world.at(ox + 3, b, oz + 3).id, BLOCK_OAK_PLANKS);
        assert_eq!(world.at(ox + 3, b - 1, oz + 3).id, BLOCK_COBBLESTONE);
        assert_eq!(world.at(ox + 6, b + 4, oz + 6).id, BLOCK_OAK_PLANKS);
    }

    // Gravel paths, cleared above and supported by dirt below.
    for (x, z) in [(cx - 12, cz + 4), (cx, cz + 4), (cx + 11, cz + 4), (cx, cz + 3), (cx, cz - 4)] {
        assert_eq!(world.at(x, b - 1, z).id, BLOCK_GRAVEL);
        assert_eq!(world.at(x, b, z).id, BLOCK_AIR);
        assert_eq!(world.at(x, b + 1, z).id, BLOCK_AIR);
        assert_eq!(world.at(x, b - 2, z).id, BLOCK_DIRT);
        assert_eq!(world.at(x, 60, z).id, BLOCK_STONE);
    }
    assert_eq!(world.at(cx + 12, b - 1, cz + 4).id, BLOCK_AIR);
}
