use mdminecraft_world::chunk::{
    Chunk, ChunkMap, ChunkPos, Voxel, BLOCK_AIR, BLOCK_DIRT, BLOCK_SUGAR_CANE, BLOCK_WATER,
};
use mdminecraft_world::sugar_cane::{base_growth_light, SugarCaneGrowthSystem, SugarCanePosition};

#[test]
fn register_and_unregister_chunk_is_deterministic() {
    let mut system = SugarCaneGrowthSystem::new(123);
    let chunk = ChunkPos::new(1, 2);
    system.register_base(SugarCanePosition {
        chunk,
        x: 1,
        y: 10,
        z: 1,
    });
    system.register_base(SugarCanePosition {
        chunk,
        x: 2,
        y: 11,
        z: 2,
    });
    assert_eq!(system.base_positions().len(), 2);
    system.unregister_chunk(chunk);
    assert!(system.base_positions().is_empty());
}

fn cane_setup() -> (ChunkMap, ChunkPos) {
    let mut chunks = ChunkMap::new();
    let pos = ChunkPos::new(0, 0);
    let mut chunk = Chunk::new(pos);

    // Support: dirt at y=60, sugar cane at y=61, water adjacent at y=60.
    chunk.set_voxel(
        5,
        60,
        5,
        Voxel {
            id: BLOCK_DIRT,
            ..Default::default()
        },
    );
    chunk.set_voxel(
        5,
        61,
        5,
        Voxel {
            id: BLOCK_SUGAR_CANE,
            light_sky: 15,
            ..Default::default()
        },
    );
    chunk.set_voxel(
        6,
        60,
        5,
        Voxel {
            id: BLOCK_WATER,
            ..Default::default()
        },
    );
    chunks.insert(pos, chunk);
    (chunks, pos)
}

#[test]
fn base_can_grow_requires_water_and_light() {
    let (mut chunks, pos) = cane_setup();

    let base = SugarCanePosition {
        chunk: pos,
        x: 5,
        y: 61,
        z: 5,
    };

    // With a roll of 0.0 the base grows exactly when every other condition holds.
    assert!(base_growth_light(base, &chunks).is_some());

    // Remove water: should no longer grow.
    let mut chunk = chunks.take_chunk(&pos).unwrap();
    chunk.set_voxel(6, 60, 5, Voxel::default());
    chunks.insert(pos, chunk);
    assert!(base_growth_light(base, &chunks).is_none());
}

#[test]
fn growth_light_is_the_brighter_channel_and_needs_nine() {
    let (mut chunks, pos) = cane_setup();
    let base = SugarCanePosition { chunk: pos, x: 5, y: 61, z: 5 };
    assert_eq!(base_growth_light(base, &chunks), Some(15));

    let mut chunk = chunks.take_chunk(&pos).unwrap();
    chunk.set_voxel(5, 61, 5, Voxel { id: BLOCK_SUGAR_CANE, state: 0, light_sky: 8, light_block: 9 });
    chunks.insert(pos, chunk);
    assert_eq!(base_growth_light(base, &chunks), Some(9));

    let mut chunk = chunks.take_chunk(&pos).unwrap();
    chunk.set_voxel(5, 61, 5, Voxel { id: BLOCK_SUGAR_CANE, state: 0, light_sky: 8, light_block: 3 });
    chunks.insert(pos, chunk);
    assert_eq!(base_growth_light(base, &chunks), None);
}

#[test]
fn grow_column_stops_at_three() {
    let (mut chunks, pos) = cane_setup();
    let mut system = SugarCaneGrowthSystem::new(1);
    let base = SugarCanePosition { chunk: pos, x: 5, y: 61, z: 5 };
    system.register_base(base);
    assert!(system.prepare_growth(base, &chunks));

    system.grow_column(base, &mut chunks);
    system.grow_column(base, &mut chunks);
    system.grow_column(base, &mut chunks);
    let chunk = chunks.get(&pos).unwrap();
    assert_eq!(chunk.voxel(5, 62, 5).id, BLOCK_SUGAR_CANE);
    assert_eq!(chunk.voxel(5, 63, 5).id, BLOCK_SUGAR_CANE);
    assert_eq!(chunk.voxel(5, 64, 5).id, BLOCK_AIR);
    assert!(system.take_dirty_chunks().contains(&pos));
    assert!(system.take_dirty_chunks().is_empty());
}

#[test]
fn prepare_growth_moves_a_base_down_to_the_bottom_of_its_run() {
    let (mut chunks, pos) = cane_setup();
    let mut system = SugarCaneGrowthSystem::new(1);
    let mut chunk = chunks.take_chunk(&pos).unwrap();
    chunk.set_voxel(5, 62, 5, Voxel { id: BLOCK_SUGAR_CANE, ..Default::default() });
    chunks.insert(pos, chunk);

    let upper = SugarCanePosition { chunk: pos, x: 5, y: 62, z: 5 };
    system.register_base(upper);
    assert!(!system.prepare_growth(upper, &chunks));
    assert_eq!(
        system.base_positions(),
        vec![SugarCanePosition { chunk: pos, x: 5, y: 61, z: 5 }]
    );

    // A base that no longer holds cane is dropped.
    let gone = SugarCanePosition { chunk: pos, x: 1, y: 61, z: 1 };
    system.register_base(gone);
    assert!(!system.prepare_growth(gone, &chunks));
    assert_eq!(system.base_positions().len(), 1);
}

#[test]
fn registered_bases_stay_sorted_without_duplicates() {
    let mut system = SugarCaneGrowthSystem::new(5);
    let a = SugarCanePosition { chunk: ChunkPos::new(0, 1), x: 3, y: 4, z: 5 };
    let b = SugarCanePosition { chunk: ChunkPos::new(-1, 7), x: 0, y: 0, z: 0 };
    let c = SugarCanePosition { chunk: ChunkPos::new(0, 1), x: 3, y: 2, z: 9 };
    system.register_base(a);
    system.register_base(b);
    system.register_base(c);
    system.register_base(a);
    assert_eq!(system.base_positions(), vec![b, c, a]);
}
