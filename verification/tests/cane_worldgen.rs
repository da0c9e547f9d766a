use mdminecraft_world::chunk::{Chunk, ChunkPos, Voxel, BLOCK_AIR, BLOCK_DIRT, BLOCK_SUGAR_CANE, BLOCK_WATER};
use mdminecraft_world::sugar_cane::{plant_sugar_cane, populate_sugar_cane, sugar_cane_seed};

fn banded_chunk() -> Chunk {
    let mut chunk = Chunk::new(ChunkPos::new(0, 0));
    for x in 0..16 {
        for z in 0..16 {
            let id = if x % 2 == 0 { BLOCK_WATER } else { BLOCK_DIRT };
            chunk.set_voxel(x, 64, z, Voxel { id, state: 0, light_sky: 0, light_block: 0 });
        }
    }
    chunk
}

#[test]
fn sugar_cane_grows_only_on_watered_ground() {
    let before = banded_chunk();
    let mut chunk = banded_chunk();
    populate_sugar_cane(12345, &mut chunk, |_x, _z| 64, None);
    let mut planted = 0;
    for x in 0..16 {
        for y in 0..256 {
            for z in 0..16 {
                let now = chunk.voxel(x, y, z);
                let was = before.voxel(x, y, z);
                if now != was {
                    assert_eq!(was.id, BLOCK_AIR);
                    assert_eq!(now.id, BLOCK_SUGAR_CANE);
                    assert!(x % 2 == 1);
                    assert!((65..=67).contains(&y));
                    planted += 1;
                }
            }
        }
    }
    assert!(planted <= 30);
}

#[test]
fn sugar_cane_seed_mixes_chunk_and_salt() {
    let seed = sugar_cane_seed(0, ChunkPos::new(0, 0));
    assert_eq!(seed, 0x5355_4741_5243_414E);
    let seed = sugar_cane_seed(7, ChunkPos::new(1, 0));
    assert_eq!(seed, 7 ^ 0xC0FF_EE00_D00D_BAAD ^ 0x5355_4741_5243_414E);
}

#[test]
fn planting_follows_the_draws() {
    let mut chunk = banded_chunk();
    let draws = vec![(1usize, 0usize, 3i32), (1, 0, 2), (3, 0, 3), (2, 5, 3)];
    let blocked = vec![false, false, true, false];
    plant_sugar_cane(&mut chunk, &draws, &blocked);
    for y in 65..68 {
        assert_eq!(chunk.voxel(1, y, 0).id, BLOCK_SUGAR_CANE);
    }
    assert_eq!(chunk.voxel(1, 68, 0).id, BLOCK_AIR);
    assert_eq!(chunk.voxel(3, 65, 0).id, BLOCK_AIR);
    assert_eq!(chunk.voxel(2, 65, 5).id, BLOCK_AIR);
}

#[test]
fn the_same_seed_plants_the_same_cane() {
    let mut a = banded_chunk();
    let mut b = banded_chunk();
    populate_sugar_cane(12345, &mut a, |_x, _z| 64, None);
    populate_sugar_cane(12345, &mut b, |_x, _z| 64, None);
    let mut planted = 0;
    for x in 0..16 {
        for y in 0..256 {
            for z in 0..16 {
                assert_eq!(a.voxel(x, y, z), b.voxel(x, y, z));
                if a.voxel(x, y, z).id == BLOCK_SUGAR_CANE {
                    planted += 1;
                }
            }
        }
    }
    // Half the columns are watered dirt, so some of the ten attempts plant.
    assert!(planted > 0);
}
