use mdminecraft_world::chunk::{world_y_to_local_y, Chunk, ChunkPos, Voxel};
use mdminecraft_world::structure_template::{place_ascii_volume_in_chunk, YRotation};
use mdminecraft_world::structures::world_to_chunk_local;

fn local_y(world_y: i32) -> usize {
    world_y_to_local_y(world_y).expect("world y in bounds")
}

const LAYER0: [&str; 2] = ["ab", "cd"];
const VOLUME: [&[&str]; 1] = [&LAYER0];

fn voxel_for_byte(byte: u8) -> Option<Voxel> {
    let id = match byte {
        b'a' => 1,
        b'b' => 2,
        b'c' => 3,
        b'd' => 4,
        _ => return None,
    };
    Some(Voxel {
        id,
        ..Default::default()
    })
}

#[test]
fn template_rotation_maps_expected_positions() {
    let mut chunk = Chunk::new(ChunkPos::new(0, 0));

    place_ascii_volume_in_chunk(
        &mut chunk,
        0,
        64,
        0,
        YRotation::R90,
        &VOLUME,
        voxel_for_byte,
    );

    // Original:
    // z=0: a b
    // z=1: c d
    //
    // Rot90 should produce:
    // z'=0: c a
    // z'=1: d b
    let positions = [
        (0, 64, 0, 3), // c
        (1, 64, 0, 1), // a
        (0, 64, 1, 4), // d
        (1, 64, 1, 2), // b
    ];

    for (wx, wy, wz, id) in positions {
        let Some((lx, lz)) = world_to_chunk_local(chunk.position(), wx, wz) else {
            panic!("expected ({wx},{wz}) to be in chunk");
        };
        assert_eq!(
            chunk.voxel(lx, local_y(wy), lz).id,
            id,
            "mismatch at ({wx},{wy},{wz})"
        );
    }
}

#[test]
fn template_rotations_map_corners() {
    // A 3-wide, 2-deep footprint.
    assert_eq!(YRotation::R0.rotated_size_xz(3, 2), (3, 2));
    assert_eq!(YRotation::R90.rotated_size_xz(3, 2), (2, 3));
    assert_eq!(YRotation::R180.rotated_size_xz(3, 2), (3, 2));
    assert_eq!(YRotation::R270.rotated_size_xz(3, 2), (2, 3));

    assert_eq!(YRotation::R0.rotate_xz(2, 1, 3, 2), (2, 1));
    assert_eq!(YRotation::R90.rotate_xz(2, 1, 3, 2), (0, 2));
    assert_eq!(YRotation::R180.rotate_xz(2, 1, 3, 2), (0, 0));
    assert_eq!(YRotation::R270.rotate_xz(2, 1, 3, 2), (1, 0));
}

#[test]
fn template_skips_bytes_without_voxel_and_cells_outside_chunk() {
    let mut chunk = Chunk::new(ChunkPos::new(0, 0));
    let layer: [&str; 1] = ["a.a"];
    let volume: [&[&str]; 1] = [&layer];
    // Origin one block west of the chunk: the first byte lands outside it.
    place_ascii_volume_in_chunk(&mut chunk, -1, 10, 3, YRotation::R0, &volume, voxel_for_byte);
    assert_eq!(chunk.voxel(0, 10, 3).id, 0);
    assert_eq!(chunk.voxel(1, 10, 3).id, 1);
    assert_eq!(chunk.voxel(2, 10, 3).id, 0);
}
