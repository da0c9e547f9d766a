use mdminecraft_world::chunk::{
    Chunk, ChunkPos, BLOCK_AIR, BLOCK_CARROTS, BLOCK_COBBLESTONE, BLOCK_MOSS_BLOCK, BLOCK_OAK_LOG, BLOCK_OAK_PLANKS,
    BLOCK_STONE_BRICKS,
};
use mdminecraft_world::interactive_blocks;
use mdminecraft_world::mineshaft::{carve_corridor, MineshaftPlan};
use mdminecraft_world::ruin::build_ruin;
use mdminecraft_world::village::build_village;

#[test]
fn ruin_follows_its_draws() {
    let mut chunk = Chunk::new(ChunkPos::new(0, 0));
    let mut floor = vec![true; 25];
    floor[0] = false;
    let mut walls = vec![2u8; 75];
    walls[0] = 1;
    walls[1] = 0;
    build_ruin(&mut chunk, 64, 2, 2, &floor, &walls);
    assert_eq!(chunk.voxel(2, 64, 2).id, BLOCK_STONE_BRICKS);
    assert_eq!(chunk.voxel(3, 64, 2).id, BLOCK_COBBLESTONE);
    assert_eq!(chunk.voxel(2, 65, 2).id, BLOCK_MOSS_BLOCK);
    assert_eq!(chunk.voxel(3, 65, 2).id, BLOCK_AIR);
    assert_eq!(chunk.voxel(4, 65, 2).id, BLOCK_STONE_BRICKS);
    assert_eq!(chunk.voxel(4, 65, 4).id, interactive_blocks::CHEST);
    assert_eq!(chunk.voxel(3, 66, 3).id, BLOCK_AIR);
    assert_eq!(chunk.voxel(8, 64, 8).id, BLOCK_AIR);
}

#[test]
fn corridor_follows_its_draws() {
    let mut chunk = Chunk::new(ChunkPos::new(0, 0));
    let plan = MineshaftPlan { floor_y: 20, along_x: true, start: 0, center: 8, length: 24 };
    let mut placed = vec![true; 6];
    placed[1] = false;
    carve_corridor(&mut chunk, plan, &placed, 5);
    assert_eq!(chunk.voxel(1, 20, 8).id, BLOCK_OAK_PLANKS);
    assert_eq!(chunk.voxel(1, 21, 8).id, BLOCK_AIR);
    assert_eq!(chunk.voxel(0, 21, 7).id, BLOCK_OAK_LOG);
    assert_eq!(chunk.voxel(0, 22, 8).id, BLOCK_OAK_PLANKS);
    assert_eq!(chunk.voxel(4, 21, 7).id, BLOCK_AIR);
    assert_eq!(chunk.voxel(8, 21, 9).id, BLOCK_OAK_LOG);
    assert_eq!(chunk.voxel(5, 21, 8).id, interactive_blocks::CHEST);
}

#[test]
fn village_follows_its_draws() {
    let mut crops = vec![(0, 0); 35];
    crops[0] = (1, 3);
    let win_a = vec![false; 49];
    let mut win_b = vec![false; 49];
    win_b[2] = true;
    let mut farm_chunk = Chunk::new(ChunkPos::new(0, 1));
    build_village(&mut farm_chunk, 8, 30, 64, &crops, &win_a, &win_b);
    let crop = farm_chunk.voxel(5, 64, 4);
    assert_eq!(crop.id, BLOCK_CARROTS);
    assert_eq!(crop.state, 3);
    let mut house_chunk = Chunk::new(ChunkPos::new(1, 1));
    build_village(&mut house_chunk, 8, 30, 64, &crops, &win_a, &win_b);
    assert_eq!(house_chunk.voxel(2, 66, 11).id, interactive_blocks::GLASS);
    assert_eq!(house_chunk.voxel(4, 66, 11).id, BLOCK_OAK_PLANKS);
}
