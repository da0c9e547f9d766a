use mdminecraft_world::chunk::ChunkPos;
use mdminecraft_world::storage::{ChunkKey, ChunkStorage, DimensionId};

#[test]
fn storage_evicts_old_chunks() {
    let mut storage = ChunkStorage::new(2);
    let a = ChunkPos::new(0, 0);
    let b = ChunkPos::new(1, 0);
    let c = ChunkPos::new(2, 0);
    storage.ensure_chunk(a);
    storage.ensure_chunk(b);
    assert_eq!(storage.len(), 2);
    storage.ensure_chunk(c);
    assert_eq!(storage.len(), 2);
    // `a` should have been evicted (least recently used).
    assert!(storage.get(a).is_none());
    assert!(storage.get(b).is_some());
    assert!(storage.get(c).is_some());
}

#[test]
fn iter_positions_covers_resident_chunks() {
    let mut storage = ChunkStorage::new(2);
    storage.ensure_chunk(ChunkPos::new(0, 0));
    storage.ensure_chunk(ChunkPos::new(1, 0));
    let positions: Vec<_> = storage.iter_positions();
    assert_eq!(positions.len(), storage.len());
}

#[test]
fn iter_positions_is_deterministic() {
    let mut storage = ChunkStorage::new(10);

    storage.ensure_chunk(ChunkPos::new(5, 5));
    storage.ensure_chunk(ChunkPos::new(1, 2));
    storage.ensure_chunk(ChunkPos::new(3, 0));
    storage.ensure_chunk(ChunkPos::new(0, 0));
    storage.ensure_chunk(ChunkPos::new(2, 1));

    let order1: Vec<_> = storage.iter_positions();
    let order2: Vec<_> = storage.iter_positions();

    assert_eq!(order1, order2);

    let expected = vec![
        ChunkPos::new(0, 0),
        ChunkPos::new(1, 2),
        ChunkPos::new(2, 1),
        ChunkPos::new(3, 0),
        ChunkPos::new(5, 5),
    ];
    assert_eq!(order1, expected);
}

#[test]
fn get_returns_none_for_missing_chunk() {
    let storage = ChunkStorage::new(2);
    assert!(storage.get(ChunkPos::new(999, 999)).is_none());
}

#[test]
fn get_mut_returns_none_for_missing_chunk() {
    let mut storage = ChunkStorage::new(2);
    assert!(storage.get_mut(ChunkPos::new(999, 999)).is_none());
}

#[test]
fn touching_a_chunk_protects_it_from_eviction() {
    let mut storage = ChunkStorage::new(2);
    let a = ChunkPos::new(0, 0);
    let b = ChunkPos::new(1, 0);
    let c = ChunkPos::new(2, 0);
    storage.ensure_chunk(a);
    storage.ensure_chunk(b);
    assert!(storage.get_mut(a).is_some());
    storage.ensure_chunk(c);
    assert!(storage.get(a).is_some());
    assert!(storage.get(b).is_none());
    assert!(storage.get(c).is_some());
}

#[test]
fn zero_capacity_keeps_one_chunk() {
    let mut storage = ChunkStorage::new(0);
    assert!(storage.is_empty());
    storage.ensure_chunk(ChunkPos::new(0, 0));
    assert_eq!(storage.len(), 1);
    storage.ensure_chunk(ChunkPos::new(1, 0));
    assert_eq!(storage.len(), 1);
    assert!(storage.get(ChunkPos::new(0, 0)).is_none());
    assert!(storage.get(ChunkPos::new(1, 0)).is_some());
}

#[test]
fn dimensions_are_kept_apart() {
    let mut storage = ChunkStorage::new(8);
    let p = ChunkPos::new(3, -4);
    storage.ensure_chunk_in_dimension(DimensionId::Nether, p);
    assert!(storage.get(p).is_none());
    assert!(storage.get_in_dimension(DimensionId::Nether, p).is_some());
    assert!(storage.get_mut_in_dimension(DimensionId::End, p).is_none());
    storage.ensure_chunk(p);
    assert_eq!(storage.iter_positions(), vec![p]);
    assert_eq!(
        storage.iter_keys(),
        vec![
            ChunkKey::from_pos(DimensionId::Overworld, p),
            ChunkKey::from_pos(DimensionId::Nether, p)
        ]
    );
}

#[test]
fn ensure_chunk_returns_the_stored_chunk() {
    let mut storage = ChunkStorage::new(4);
    let p = ChunkPos::new(7, 7);
    let fresh = storage.ensure_chunk(p).voxel(1, 2, 3);
    assert_eq!(fresh.id, 0);
    let mut stone = fresh;
    stone.id = 1;
    storage.ensure_chunk(p).set_voxel(1, 2, 3, stone);
    assert_eq!(storage.get(p).unwrap().voxel(1, 2, 3).id, 1);
    assert_eq!(storage.get(p).unwrap().position(), p);
    assert_eq!(storage.len(), 1);
}
