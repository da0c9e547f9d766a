use mdminecraft_world::mineshaft::mineshaft_bounds_for_region;
use mdminecraft_world::ruin::ruin_bounds_for_region;
use mdminecraft_world::structures::{worldgen_structure_kind_at, StructureBounds, WorldgenStructureKind};
use mdminecraft_world::village::{village_bounds_for_region, VILLAGE_SEED_SALT};

fn flat_surface(_x: i32, _z: i32) -> i32 {
    64
}

fn inside(b: &StructureBounds, x: i32, y: i32, z: i32) -> bool {
    b.min_x <= x && x <= b.max_x && b.min_y <= y && y <= b.max_y && b.min_z <= z && z <= b.max_z
}

#[test]
fn village_blocks_are_reported_first() {
    let seed = VILLAGE_SEED_SALT;
    let village = village_bounds_for_region(seed, 0, 0, flat_surface).unwrap();
    let (x, y, z) = (village.min_x + 15, village.min_y + 2, village.min_z + 10);
    // Even a dungeon box over the same block gives way to the village.
    let dungeon = StructureBounds { min_x: x, max_x: x, min_y: y, max_y: y, min_z: z, max_z: z };
    assert_eq!(
        worldgen_structure_kind_at(seed, x, y, z, flat_surface, Some(dungeon)),
        Some(WorldgenStructureKind::Village)
    );
}

#[test]
fn dungeon_mineshaft_and_ruin_boxes_are_reported() {
    let seed = VILLAGE_SEED_SALT;
    let village = village_bounds_for_region(seed, 0, 0, flat_surface).unwrap();
    let mineshaft = mineshaft_bounds_for_region(seed, 0, 0).unwrap();
    let ruin = ruin_bounds_for_region(seed, 0, 0, flat_surface);

    // A block of the mineshaft outside the village box.
    let mut found = None;
    for y in mineshaft.min_y..=mineshaft.max_y {
        for z in mineshaft.min_z..=mineshaft.max_z {
            for x in mineshaft.min_x..=mineshaft.max_x {
                if !inside(&village, x, y, z) {
                    found = Some((x, y, z));
                }
            }
        }
    }
    let (x, y, z) = found.expect("mineshaft block outside the village");
    assert_eq!(
        worldgen_structure_kind_at(seed, x, y, z, flat_surface, None),
        Some(WorldgenStructureKind::Mineshaft)
    );
    let dungeon = StructureBounds { min_x: x, max_x: x, min_y: y, max_y: y, min_z: z, max_z: z };
    assert_eq!(
        worldgen_structure_kind_at(seed, x, y, z, flat_surface, Some(dungeon)),
        Some(WorldgenStructureKind::Dungeon)
    );

    if let Some(r) = ruin {
        let (x, y, z) = (r.min_x, r.min_y, r.min_z);
        if !inside(&mineshaft, x, y, z) {
            assert_eq!(
                worldgen_structure_kind_at(seed, x, y, z, flat_surface, None),
                Some(WorldgenStructureKind::Ruin)
            );
        }
    }
}

#[test]
fn open_sky_belongs_to_no_structure() {
    let seed = VILLAGE_SEED_SALT;
    assert_eq!(worldgen_structure_kind_at(seed, 64, 250, 64, flat_surface, None), None);
    assert_eq!(worldgen_structure_kind_at(seed, -1000, 250, 5000, flat_surface, None), None);
}
