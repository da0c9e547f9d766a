//! World-generation structure grid: structure regions of 8x8 chunks, world and chunk
//! bounds, and placing voxels given in world coordinates.

use crate::chunk::{in_chunk, voxel_index, lemma_voxel_index_bounds, lemma_voxel_index_injective, CHUNK_VOLUME, world_y_to_local_y, Chunk, ChunkPos, Voxel, CHUNK_SIZE_X, CHUNK_SIZE_Z, WORLD_MAX_Y, WORLD_MIN_Y};
use crate::mineshaft::{mineshaft_bounds_for_region, mineshaft_bounds_result};
use crate::ruin::{ruin_bounds_for_region, ruin_bounds_result};
use crate::village::{village_bounds_for_region, village_bounds_result};
use vstd::prelude::*;

verus! {

/// Structure region side in chunks.
pub const STRUCTURE_REGION_SIZE_CHUNKS: i32 = 8;

/// Kinds of generated structures.
#[derive(Debug, Clone, Copy, PartialEq, Eq, Hash, Structural)]
pub enum WorldgenStructureKind {
    Dungeon,
    Ruin,
    Mineshaft,
    Village,
}

/// `value` divided by a positive `divisor`, rounding down.
pub fn div_floor_i32(value: i32, divisor: i32) -> (res: i32)
    requires
        divisor > 0,
    ensures
        res == value as int / divisor as int,
{
    proof {
        let q = value as int / divisor as int;
        let r = value as int % divisor as int;
        assert(divisor * q + r == value && 0 <= r < divisor) by (nonlinear_arith)
            requires
                divisor > 0,
                q == value as int / divisor as int,
                r == value as int % divisor as int,
        ;
        assert(i32::MIN <= q <= i32::MAX) by (nonlinear_arith)
            requires
                divisor >= 1,
                divisor * q + r == value,
                0 <= r < divisor,
                i32::MIN <= value <= i32::MAX,
        ;
    }
    value.checked_div_euclid(divisor).unwrap()
}

/// The structure region of a chunk.
pub fn region_coords_for_chunk(chunk_pos: ChunkPos) -> (res: (i32, i32))
    ensures
        res.0 == chunk_pos.x as int / 8,
        res.1 == chunk_pos.z as int / 8,
{
    (div_floor_i32(chunk_pos.x, STRUCTURE_REGION_SIZE_CHUNKS), div_floor_i32(chunk_pos.z, STRUCTURE_REGION_SIZE_CHUNKS))
}

/// World x/z bounds (min_x, max_x, min_z, max_z) of a structure region.
pub fn region_world_bounds(region_x: i32, region_z: i32) -> (res: (i32, i32, i32, i32))
    requires
        i32::MIN <= region_x * 128 <= i32::MAX - 127,
        i32::MIN <= region_z * 128 <= i32::MAX - 127,
    ensures
        res.0 == region_x * 128 && res.1 == region_x * 128 + 127,
        res.2 == region_z * 128 && res.3 == region_z * 128 + 127,
{
    assert(i32::MIN <= region_x * 8 <= i32::MAX && i32::MIN <= region_z * 8 <= i32::MAX) by (nonlinear_arith)
        requires
            i32::MIN <= region_x * 128 <= i32::MAX - 127,
            i32::MIN <= region_z * 128 <= i32::MAX - 127,
    ;
    let origin_chunk_x = region_x * STRUCTURE_REGION_SIZE_CHUNKS;
    let origin_chunk_z = region_z * STRUCTURE_REGION_SIZE_CHUNKS;
    assert(origin_chunk_x * 16 == region_x * 128 && origin_chunk_z * 16 == region_z * 128) by (nonlinear_arith)
        requires
            origin_chunk_x == region_x * 8,
            origin_chunk_z == region_z * 8,
    ;
    let min_x = origin_chunk_x * 16;
    let min_z = origin_chunk_z * 16;
    let max_x = min_x + 127;
    let max_z = min_z + 127;
    (min_x, max_x, min_z, max_z)
}

/// Chunk coordinates whose world bounds fit in an i32.
pub open spec fn chunk_fits(c: ChunkPos) -> bool {
    i32::MIN <= c.x * 16 <= i32::MAX - 15 && i32::MIN <= c.z * 16 <= i32::MAX - 15
}

/// World x/z bounds (min_x, max_x, min_z, max_z) of a chunk.
pub fn chunk_world_bounds(chunk_pos: ChunkPos) -> (res: (i32, i32, i32, i32))
    requires
        chunk_fits(chunk_pos),
    ensures
        res.0 == chunk_pos.x * 16 && res.1 == chunk_pos.x * 16 + 15,
        res.2 == chunk_pos.z * 16 && res.3 == chunk_pos.z * 16 + 15,
{
    let min_x = chunk_pos.x * 16;
    let min_z = chunk_pos.z * 16;
    let max_x = min_x + 15;
    let max_z = min_z + 15;
    (min_x, max_x, min_z, max_z)
}

/// Whether two closed ranges overlap.
pub fn ranges_intersect(a_min: i32, a_max: i32, b_min: i32, b_max: i32) -> (res: bool)
    ensures
        res == (a_min <= b_max && b_min <= a_max),
{
    a_min <= b_max && b_min <= a_max
}

/// A box of world blocks, bounds inclusive.
#[derive(Debug, Clone, Copy, PartialEq, Eq, Structural)]
pub struct StructureBounds {
    pub min_x: i32,
    pub max_x: i32,
    pub min_y: i32,
    pub max_y: i32,
    pub min_z: i32,
    pub max_z: i32,
}

impl StructureBounds {
    /// Whether the box overlaps the chunk's column of world heights.
    pub fn intersects_chunk(self, chunk_pos: ChunkPos) -> (res: bool)
        requires
            chunk_fits(chunk_pos),
        ensures
            res == (self.min_x <= chunk_pos.x * 16 + 15 && chunk_pos.x * 16 <= self.max_x && self.min_z
                <= chunk_pos.z * 16 + 15 && chunk_pos.z * 16 <= self.max_z && self.min_y <= WORLD_MAX_Y
                && WORLD_MIN_Y <= self.max_y),
    {
        let (chunk_min_x, chunk_max_x, chunk_min_z, chunk_max_z) = chunk_world_bounds(chunk_pos);
        ranges_intersect(self.min_x, self.max_x, chunk_min_x, chunk_max_x) && ranges_intersect(
            self.min_z,
            self.max_z,
            chunk_min_z,
            chunk_max_z,
        ) && ranges_intersect(self.min_y, self.max_y, WORLD_MIN_Y, WORLD_MAX_Y)
    }

    /// Whether two boxes overlap.
    pub fn intersects_bounds(self, other: StructureBounds) -> (res: bool)
        ensures
            res == (self.min_x <= other.max_x && other.min_x <= self.max_x && self.min_z <= other.max_z
                && other.min_z <= self.max_z && self.min_y <= other.max_y && other.min_y <= self.max_y),
    {
        ranges_intersect(self.min_x, self.max_x, other.min_x, other.max_x) && ranges_intersect(
            self.min_z,
            self.max_z,
            other.min_z,
            other.max_z,
        ) && ranges_intersect(self.min_y, self.max_y, other.min_y, other.max_y)
    }
}

/// Whether a world block lies in the box.
pub fn bounds_contains(bounds: StructureBounds, world_x: i32, world_y: i32, world_z: i32) -> (res: bool)
    ensures
        res == (bounds.min_x <= world_x <= bounds.max_x && bounds.min_y <= world_y <= bounds.max_y
            && bounds.min_z <= world_z <= bounds.max_z),
{
    bounds.min_x <= world_x && world_x <= bounds.max_x && bounds.min_y <= world_y && world_y
        <= bounds.max_y && bounds.min_z <= world_z && world_z <= bounds.max_z
}

/// Seed of a structure region: the world seed mixed with the region coordinates and a salt.
pub open spec fn spec_region_seed(world_seed: u64, region_x: i32, region_z: i32, salt: u64) -> u64 {
    world_seed ^ (region_x as u64).wrapping_mul(0x9E37_79B9_7F4A_7C15) ^ (region_z as u64).wrapping_mul(
        0xC2B2_AE3D_27D4_EB4F,
    ) ^ salt
}

/// Seed of a structure region: the world seed mixed with the region coordinates and a salt.
pub fn region_seed(world_seed: u64, region_x: i32, region_z: i32, salt: u64) -> (res: u64)
    ensures
        res == spec_region_seed(world_seed, region_x, region_z, salt),
{
    world_seed ^ (region_x as u64).wrapping_mul(0x9E37_79B9_7F4A_7C15) ^ (region_z as u64).wrapping_mul(
        0xC2B2_AE3D_27D4_EB4F,
    ) ^ salt
}

/// The chunk-local (x, z) of a world (x, z), if it lies in the chunk.
pub fn world_to_chunk_local(chunk_pos: ChunkPos, world_x: i32, world_z: i32) -> (res: Option<(usize, usize)>)
    requires
        chunk_fits(chunk_pos),
    ensures
        res == (if chunk_pos.x * 16 <= world_x <= chunk_pos.x * 16 + 15 && chunk_pos.z * 16 <= world_z
            <= chunk_pos.z * 16 + 15 {
            Some(((world_x - chunk_pos.x * 16) as usize, (world_z - chunk_pos.z * 16) as usize))
        } else {
            None
        }),
{
    let (min_x, max_x, min_z, max_z) = chunk_world_bounds(chunk_pos);
    if world_x < min_x || world_x > max_x || world_z < min_z || world_z > max_z {
        return None;
    }
    let local_x = (world_x - min_x) as usize;
    let local_z = (world_z - min_z) as usize;
    if local_x >= CHUNK_SIZE_X || local_z >= CHUNK_SIZE_Z {
        return None;
    }
    Some((local_x, local_z))
}

/// The chunk after writing `voxel` at a world position, when that lies in the chunk.
pub open spec fn world_set(cells: Seq<Voxel>, c: ChunkPos, world_x: int, world_y: int, world_z: int, voxel: Voxel) -> Seq<Voxel> {
    let lx = world_x - c.x * 16;
    let lz = world_z - c.z * 16;
    if in_chunk(lx, world_y, lz) {
        cells.update(voxel_index(lx, world_y, lz), voxel)
    } else {
        cells
    }
}

/// What a world write leaves at one local cell: the written voxel where the world position
/// is that cell, the old voxel elsewhere.
pub proof fn lemma_world_set_cell(
    cells: Seq<Voxel>,
    c: ChunkPos,
    world_x: int,
    world_y: int,
    world_z: int,
    voxel: Voxel,
    lx: int,
    ly: int,
    lz: int,
)
    requires
        cells.len() == CHUNK_VOLUME,
        in_chunk(lx, ly, lz),
    ensures
        world_set(cells, c, world_x, world_y, world_z, voxel).len() == CHUNK_VOLUME,
        world_set(cells, c, world_x, world_y, world_z, voxel)[voxel_index(lx, ly, lz)] == if lx == world_x
            - c.x * 16 && ly == world_y && lz == world_z - c.z * 16 {
            voxel
        } else {
            cells[voxel_index(lx, ly, lz)]
        },
{
    let wlx = world_x - c.x * 16;
    let wlz = world_z - c.z * 16;
    if in_chunk(wlx, world_y, wlz) {
        lemma_voxel_index_bounds(wlx, world_y, wlz);
        if voxel_index(lx, ly, lz) == voxel_index(wlx, world_y, wlz) {
            lemma_voxel_index_injective(lx, ly, lz, wlx, world_y, wlz);
        }
    }
}

/// Write a voxel given in world coordinates, if it lies in the chunk.
pub fn set_world_voxel_if_in_chunk(chunk: &mut Chunk, world_x: i32, world_y: i32, world_z: i32, voxel: Voxel)
    requires
        old(chunk).wf(),
        chunk_fits(old(chunk).spec_pos()),
    ensures
        final(chunk).wf(),
        final(chunk).spec_pos() == old(chunk).spec_pos(),
        final(chunk).cells() == world_set(
            old(chunk).cells(),
            old(chunk).spec_pos(),
            world_x as int,
            world_y as int,
            world_z as int,
            voxel,
        ),
{
    let local_y = match world_y_to_local_y(world_y) {
        Some(y) => y,
        None => return,
    };
    let chunk_pos = chunk.position();
    let (local_x, local_z) = match world_to_chunk_local(chunk_pos, world_x, world_z) {
        Some(p) => p,
        None => return,
    };
    chunk.set_voxel(local_x, local_y, local_z, voxel);
}

/// Whether a world block lies in a box that may be absent.
pub open spec fn in_optional_box(b: Option<StructureBounds>, x: int, y: int, z: int) -> bool {
    match b {
        Some(b) => b.min_x <= x <= b.max_x && b.min_y <= y <= b.max_y && b.min_z <= z <= b.max_z,
        None => false,
    }
}

/// The structure a world block belongs to, from the boxes of its region's structures, in
/// order of precedence: village, dungeon, mineshaft, ruin.
pub open spec fn structure_kind_from_boxes(
    village: Option<StructureBounds>,
    dungeon: Option<StructureBounds>,
    mineshaft: Option<StructureBounds>,
    ruin: Option<StructureBounds>,
    x: int,
    y: int,
    z: int,
) -> Option<WorldgenStructureKind> {
    if in_optional_box(village, x, y, z) {
        Some(WorldgenStructureKind::Village)
    } else if in_optional_box(dungeon, x, y, z) {
        Some(WorldgenStructureKind::Dungeon)
    } else if in_optional_box(mineshaft, x, y, z) {
        Some(WorldgenStructureKind::Mineshaft)
    } else if in_optional_box(ruin, x, y, z) {
        Some(WorldgenStructureKind::Ruin)
    } else {
        None
    }
}

fn in_box_if_any(b: Option<StructureBounds>, world_x: i32, world_y: i32, world_z: i32) -> (res: bool)
    ensures
        res == in_optional_box(b, world_x as int, world_y as int, world_z as int),
{
    match b {
        Some(b) => bounds_contains(b, world_x, world_y, world_z),
        None => false,
    }
}

/// What `worldgen_structure_kind_at` answers for world block (world_x, world_y, world_z):
/// the kind of the first of the region's village, the given dungeon, the region's mineshaft
/// and the region's ruin whose box holds the block, for boxes their region functions can
/// give.
pub open spec fn structure_kind_result<H: Fn(i32, i32) -> i32>(
    world_seed: u64,
    world_x: i32,
    world_y: i32,
    world_z: i32,
    surface_height: H,
    dungeon_bounds: Option<StructureBounds>,
    res: Option<WorldgenStructureKind>,
) -> bool {
    exists|village: Option<StructureBounds>, mineshaft: Option<StructureBounds>, ruin: Option<StructureBounds>|
        #![trigger village_bounds_result(world_seed, (world_x as int / 128) as i32, (world_z as int / 128) as i32, surface_height, village), mineshaft_bounds_result(world_seed, (world_x as int / 128) as i32, (world_z as int / 128) as i32, mineshaft), ruin_bounds_result(world_seed, (world_x as int / 128) as i32, (world_z as int / 128) as i32, surface_height, ruin)]
        village_bounds_result(world_seed, (world_x as int / 128) as i32, (world_z as int / 128) as i32, surface_height, village)
            && mineshaft_bounds_result(world_seed, (world_x as int / 128) as i32, (world_z as int / 128) as i32, mineshaft)
            && ruin_bounds_result(world_seed, (world_x as int / 128) as i32, (world_z as int / 128) as i32, surface_height, ruin)
            && res == structure_kind_from_boxes(village, dungeon_bounds, mineshaft, ruin, world_x as int, world_y as int, world_z as int)
}

/// The generated structure a world block belongs to, if any. `surface_height` gives the
/// surface height of a world column (villages and ruins follow it) and `dungeon_bounds` the
/// box of the block's region's dungeon, if it has one. Villages take precedence over
/// dungeons, dungeons over mineshafts, and mineshafts over ruins.
pub fn worldgen_structure_kind_at<H: Fn(i32, i32) -> i32 + Copy>(
    world_seed: u64,
    world_x: i32,
    world_y: i32,
    world_z: i32,
    surface_height: H,
    dungeon_bounds: Option<StructureBounds>,
) -> (res: Option<WorldgenStructureKind>)
    requires
        forall|x: i32, z: i32| call_requires(surface_height, (x, z)),
    ensures
        structure_kind_result(world_seed, world_x, world_y, world_z, surface_height, dungeon_bounds, res),
{
    let chunk_pos = ChunkPos::new(div_floor_i32(world_x, CHUNK_SIZE_X as i32), div_floor_i32(world_z, CHUNK_SIZE_Z as i32));
    proof {
        assert(i32::MIN <= chunk_pos.x * 16 <= i32::MAX - 15) by (nonlinear_arith)
            requires
                chunk_pos.x == world_x as int / 16,
        ;
        assert(i32::MIN <= chunk_pos.z * 16 <= i32::MAX - 15) by (nonlinear_arith)
            requires
                chunk_pos.z == world_z as int / 16,
        ;
        crate::mineshaft::lemma_chunk_region_fits(chunk_pos);
        assert(chunk_pos.x as int / 8 == world_x as int / 128) by (nonlinear_arith)
            requires
                chunk_pos.x == world_x as int / 16,
        ;
        assert(chunk_pos.z as int / 8 == world_z as int / 128) by (nonlinear_arith)
            requires
                chunk_pos.z == world_z as int / 16,
        ;
    }
    let (region_x, region_z) = region_coords_for_chunk(chunk_pos);
    assert(region_x == (world_x as int / 128) as i32 && region_z == (world_z as int / 128) as i32);
    let village = village_bounds_for_region(world_seed, region_x, region_z, surface_height);
    let mineshaft = mineshaft_bounds_for_region(world_seed, region_x, region_z);
    let ruin = ruin_bounds_for_region(world_seed, region_x, region_z, surface_height);
    let res = if in_box_if_any(village, world_x, world_y, world_z) {
        Some(WorldgenStructureKind::Village)
    } else if in_box_if_any(dungeon_bounds, world_x, world_y, world_z) {
        Some(WorldgenStructureKind::Dungeon)
    } else if in_box_if_any(mineshaft, world_x, world_y, world_z) {
        Some(WorldgenStructureKind::Mineshaft)
    } else if in_box_if_any(ruin, world_x, world_y, world_z) {
        Some(WorldgenStructureKind::Ruin)
    } else {
        None
    };
    assert(village_bounds_result(world_seed, region_x, region_z, surface_height, village)
        && mineshaft_bounds_result(world_seed, region_x, region_z, mineshaft)
        && ruin_bounds_result(world_seed, region_x, region_z, surface_height, ruin));
    res
}

} // verus!
