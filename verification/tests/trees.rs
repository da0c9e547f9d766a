use mdminecraft_world::biome::{BiomeId};
use mdminecraft_world::chunk::{BLOCK_STONE, Chunk, ChunkPos, Voxel};
use mdminecraft_world::trees::{LEAVES, LOG, Tree, TreeType, generate_tree_positions};

#[test]
fn test_tree_type_for_biome() {
    assert_eq!(TreeType::for_biome(BiomeId::Forest), Some(TreeType::Oak));
    assert_eq!(
        TreeType::for_biome(BiomeId::BirchForest),
        Some(TreeType::Birch)
    );
    assert_eq!(
        TreeType::for_biome(BiomeId::IcePlains),
        Some(TreeType::Pine)
    );
    assert_eq!(TreeType::for_biome(BiomeId::Desert), None);
    assert_eq!(TreeType::for_biome(BiomeId::Ocean), None);
}

#[test]
fn test_tree_properties() {
    let oak = TreeType::Oak;
    assert_eq!(oak.trunk_height(), 5);
    assert_eq!(oak.log_block(), LOG);
    assert_eq!(oak.leaves_block(), LEAVES);

    let birch = TreeType::Birch;
    assert_eq!(birch.trunk_height(), 6);

    let pine = TreeType::Pine;
    assert_eq!(pine.trunk_height(), 8);
}

#[test]
fn test_tree_generation_places_trunk() {
    let mut chunk = Chunk::new(ChunkPos::new(0, 0));
    let tree = Tree::new(5, 64, 5, TreeType::Oak);

    tree.generate_into_chunk(&mut chunk);

    // Check trunk blocks exist
    for y in 64..69 {
        let voxel = chunk.voxel(5, y, 5);
        assert_eq!(voxel.id, LOG, "Expected log at y={}", y);
    }
}

#[test]
fn test_tree_generation_places_leaves() {
    let mut chunk = Chunk::new(ChunkPos::new(0, 0));
    let tree = Tree::new(5, 64, 5, TreeType::Oak);

    tree.generate_into_chunk(&mut chunk);

    // Check that leaves exist around trunk top
    let mut leaf_count = 0;
    for y in 69..73 {
        for x in 4..=6 {
            for z in 4..=6 {
                let voxel = chunk.voxel(x, y, z);
                if voxel.id == LEAVES {
                    leaf_count += 1;
                }
            }
        }
    }

    assert!(leaf_count > 10, "Should have leaves in canopy");
}

#[test]
fn test_tree_respects_chunk_bounds() {
    let mut chunk = Chunk::new(ChunkPos::new(0, 0));
    // Place tree at edge of chunk
    let tree = Tree::new(15, 64, 15, TreeType::Oak);

    tree.generate_into_chunk(&mut chunk);

    // Should not panic, only places blocks within bounds
    let voxel = chunk.voxel(15, 64, 15);
    assert_eq!(voxel.id, LOG);
}

#[test]
fn test_tree_doesnt_replace_existing_blocks() {
    let mut chunk = Chunk::new(ChunkPos::new(0, 0));

    // Place a stone block where tree would go
    chunk.set_voxel(
        5,
        65,
        5,
        Voxel {
            id: BLOCK_STONE,
            ..Default::default()
        },
    );

    let tree = Tree::new(5, 64, 5, TreeType::Oak);
    tree.generate_into_chunk(&mut chunk);

    // Stone should still be there (tree doesn't replace)
    let voxel = chunk.voxel(5, 65, 5);
    assert_eq!(voxel.id, BLOCK_STONE);
}

#[test]
fn test_different_tree_types_have_different_shapes() {
    let oak = Tree::new(5, 64, 5, TreeType::Oak);
    let birch = Tree::new(5, 64, 5, TreeType::Birch);
    let pine = Tree::new(5, 64, 5, TreeType::Pine);

    let mut chunk_oak = Chunk::new(ChunkPos::new(0, 0));
    let mut chunk_birch = Chunk::new(ChunkPos::new(0, 0));
    let mut chunk_pine = Chunk::new(ChunkPos::new(0, 0));

    oak.generate_into_chunk(&mut chunk_oak);
    birch.generate_into_chunk(&mut chunk_birch);
    pine.generate_into_chunk(&mut chunk_pine);

    // Trees should have different heights
    assert!(oak.tree_type.trunk_height() != pine.tree_type.trunk_height());
    assert!(birch.tree_type.trunk_height() != oak.tree_type.trunk_height());
}

#[test]
fn test_tree_position_generation_deterministic() {
    let positions1 = generate_tree_positions(12345, 0, 0, BiomeId::Forest, 64);
    let positions2 = generate_tree_positions(12345, 0, 0, BiomeId::Forest, 64);

    assert_eq!(
        positions1, positions2,
        "Tree positions should be deterministic"
    );
}

#[test]
fn test_tree_position_generation_different_seeds() {
    // Use seeds that are known to produce trees
    let positions1 = generate_tree_positions(9999, 5, 5, BiomeId::Forest, 64);
    let positions2 = generate_tree_positions(8888, 5, 5, BiomeId::Forest, 64);

    // Forest biome should have some trees with these seeds
    assert!(
        !positions1.is_empty() || !positions2.is_empty(),
        "At least one seed should produce trees"
    );

    // If both have trees, they should likely differ
    if !positions1.is_empty() && !positions2.is_empty() {
        let mut different = false;
        if positions1.len() != positions2.len() {
            different = true;
        } else {
            for i in 0..positions1.len() {
                if positions1[i] != positions2[i] {
                    different = true;
                    break;
                }
            }
        }
        // It's okay if they happen to be the same, just check determinism is working
        assert!(different || positions1 == positions2);
    }
}

#[test]
fn test_forest_has_more_trees_than_plains() {
    let forest_trees = generate_tree_positions(42, 0, 0, BiomeId::Forest, 64);
    let plains_trees = generate_tree_positions(42, 0, 0, BiomeId::Plains, 64);

    // Forest should generally have more trees (not guaranteed for every seed, but likely)
    assert!(
        forest_trees.len() > plains_trees.len(),
        "Forest ({}) should have more trees than plains ({})",
        forest_trees.len(),
        plains_trees.len()
    );
}

#[test]
fn test_desert_has_no_trees() {
    let trees = generate_tree_positions(999, 5, 10, BiomeId::Desert, 64);
    assert_eq!(trees.len(), 0, "Desert should have no trees");
}
