//! Mineshafts: one straight corridor per structure region, with a plank floor, wooden
//! supports and a chest, drawn from the region's seeded random stream.

use crate::chunk::{air_voxel, in_chunk, voxel_index, Chunk, ChunkPos, Voxel, BLOCK_OAK_LOG, BLOCK_OAK_PLANKS, CHUNK_SIZE_Y, CHUNK_VOLUME, WORLD_MAX_Y, WORLD_MIN_Y};
use crate::interactive_blocks;
use crate::rng::{gen_range_exclusive, gen_range_inclusive, gen_ratio, seeded_rng, exclusive_draw, inclusive_draw, ratio_draw, req_exclusive, req_inclusive, req_ratio};
use crate::structures::{spec_region_seed, chunk_fits, lemma_world_set_cell, region_coords_for_chunk, region_seed, region_world_bounds, set_world_voxel_if_in_chunk, world_set, StructureBounds};
use crate::rng::SeededStream;
use vstd::prelude::*;

verus! {

/// Salt mixed into a region's seed for mineshafts ("MINE").
pub const MINESHAFT_SEED_SALT: u64 = 0x4D49_4E45;

/// Air cells above the corridor floor.
pub const CORRIDOR_HEIGHT: i32 = 3;

/// Distance between support frames along the corridor.
pub const SUPPORT_SPACING: i32 = 4;

/// Generates at most one mineshaft corridor per structure region.
#[derive(Debug, Clone, Copy)]
pub struct MineshaftGenerator {
    world_seed: u64,
}

/// The corridor drawn for a region: its floor height, its axis, where it starts along that
/// axis, its middle line across it, and its length.
#[derive(Debug, Clone, Copy, PartialEq, Eq, Structural)]
pub struct MineshaftPlan {
    pub floor_y: i32,
    pub along_x: bool,
    pub start: i32,
    pub center: i32,
    pub length: i32,
}

pub open spec fn planks_voxel() -> Voxel {
    Voxel { id: BLOCK_OAK_PLANKS, state: 0, light_sky: 0, light_block: 0 }
}

pub open spec fn log_voxel() -> Voxel {
    Voxel { id: BLOCK_OAK_LOG, state: 0, light_sky: 0, light_block: 0 }
}

pub open spec fn chest_voxel() -> Voxel {
    Voxel { id: interactive_blocks::CHEST, state: 0, light_sky: 0, light_block: 0 }
}

/// The plans a region's stream can give: floor 16 to 48, length 24 to 80, the corridor
/// inside the region along its axis and its middle line at least one block inside the region
/// across it.
pub open spec fn plan_in_region(p: MineshaftPlan, region_x: int, region_z: int) -> bool {
    let ra = if p.along_x { region_x } else { region_z };
    let rc = if p.along_x { region_z } else { region_x };
    &&& 16 <= p.floor_y <= 48
    &&& 24 <= p.length <= 80
    &&& ra * 128 <= p.start <= ra * 128 + 128 - p.length
    &&& rc * 128 + 1 <= p.center <= rc * 128 + 126
}

/// The box a plan occupies: floor to three blocks above it, the corridor's length along
/// its axis and three blocks across.
pub open spec fn plan_bounds(p: MineshaftPlan) -> StructureBounds {
    let lo_a = p.start as int;
    let hi_a = p.start + p.length - 1;
    let lo_c = p.center - 1;
    let hi_c = p.center + 1;
    let min_y = p.floor_y;
    let max_y = (p.floor_y + CORRIDOR_HEIGHT) as i32;
    if p.along_x {
        StructureBounds { min_x: lo_a as i32, max_x: hi_a as i32, min_y, max_y, min_z: lo_c as i32, max_z: hi_c as i32 }
    } else {
        StructureBounds { min_x: lo_c as i32, max_x: hi_c as i32, min_y, max_y, min_z: lo_a as i32, max_z: hi_a as i32 }
    }
}

/// Whether a box overlaps the chunk's column of world heights.
pub open spec fn box_meets_chunk(b: StructureBounds, c: ChunkPos) -> bool {
    b.min_x <= c.x * 16 + 15 && c.x * 16 <= b.max_x && b.min_z <= c.z * 16 + 15 && c.z * 16 <= b.max_z
        && b.min_y <= WORLD_MAX_Y && WORLD_MIN_Y <= b.max_y
}

/// World coordinate of a chunk-local cell along the corridor axis.
pub open spec fn axis_along(along_x: bool, c: ChunkPos, lx: int, lz: int) -> int {
    if along_x {
        lx + c.x * 16
    } else {
        lz + c.z * 16
    }
}

/// World coordinate of a chunk-local cell across the corridor axis.
pub open spec fn axis_across(along_x: bool, c: ChunkPos, lx: int, lz: int) -> int {
    if along_x {
        lz + c.z * 16
    } else {
        lx + c.x * 16
    }
}

/// Whether world cell (a along, y, cc across) lies in the corridor's box.
pub open spec fn in_corridor(p: MineshaftPlan, a: int, y: int, cc: int) -> bool {
    0 <= a - p.start < p.length && -1 <= cc - p.center <= 1 && p.floor_y <= y <= p.floor_y + CORRIDOR_HEIGHT
}

/// Whether a support frame stands at this offset along the corridor: every fourth offset,
/// where the stream did not omit it.
pub open spec fn has_support(placed: Seq<bool>, offset: int) -> bool {
    offset % 4 == 0 && 0 <= offset / 4 < placed.len() && placed[offset / 4]
}

/// What a support frame puts at a cell of its slice: a plank beam two above the floor, logs
/// one above the floor at the sides.
pub open spec fn support_value(p: MineshaftPlan, y: int, cc: int) -> Option<Voxel> {
    if y == p.floor_y + 2 {
        Some(planks_voxel())
    } else if y == p.floor_y + 1 && cc != p.center {
        Some(log_voxel())
    } else {
        None
    }
}

/// The voxel a carved corridor leaves at world cell (a, y, cc): planks on the floor, the
/// chest one above the floor on the middle line at offset `chest`, the support frames, air
/// elsewhere in the box, and the old voxel outside it.
pub open spec fn corridor_cell(p: MineshaftPlan, placed: Seq<bool>, chest: int, a: int, y: int, cc: int, old_voxel: Voxel) -> Voxel {
    if !in_corridor(p, a, y, cc) {
        old_voxel
    } else if y == p.floor_y {
        planks_voxel()
    } else if y == p.floor_y + 1 && cc == p.center && a - p.start == chest {
        chest_voxel()
    } else if has_support(placed, a - p.start) && support_value(p, y, cc) is Some {
        support_value(p, y, cc)->0
    } else {
        air_voxel()
    }
}

pub open spec fn cell_carved(old_cells: Seq<Voxel>, cells: Seq<Voxel>, c: ChunkPos, p: MineshaftPlan, placed: Seq<bool>, chest: int, lx: int, ly: int, lz: int) -> bool {
    cells[voxel_index(lx, ly, lz)] == corridor_cell(
        p,
        placed,
        chest,
        axis_along(p.along_x, c, lx, lz),
        ly,
        axis_across(p.along_x, c, lx, lz),
        old_cells[voxel_index(lx, ly, lz)],
    )
}

/// The chunk holds the corridor of plan `p` carved over its old voxels, with one frame flag
/// per fourth offset and the chest at offset `chest` (one to length minus two).
pub open spec fn carved(old_cells: Seq<Voxel>, cells: Seq<Voxel>, c: ChunkPos, p: MineshaftPlan, placed: Seq<bool>, chest: int) -> bool {
    &&& placed.len() == (p.length + 3) / 4
    &&& 1 <= chest <= p.length - 2
    &&& cells.len() == CHUNK_VOLUME
    &&& forall|lx: int, ly: int, lz: int| in_chunk(lx, ly, lz) ==> #[trigger] cell_carved(old_cells, cells, c, p, placed, chest, lx, ly, lz)
}

/// The seed of the stream a region's mineshaft is drawn from.
pub open spec fn mineshaft_seed(world_seed: u64, region_x: i32, region_z: i32) -> u64 {
    spec_region_seed(world_seed, region_x, region_z, MINESHAFT_SEED_SALT)
}

/// The plan of a region's corridor, from the region's stream: the floor (16 to 48), an even
/// chance of running along x, the length (24 to 80), the start along the axis (0 to 128
/// minus the length into the region) and the center line across it (1 to 126 into the
/// region).
pub open spec fn mineshaft_plan(world_seed: u64, region_x: i32, region_z: i32) -> MineshaftPlan {
    let s = mineshaft_seed(world_seed, region_x, region_z);
    let h1 = seq![req_inclusive(16, 48)];
    let h2 = h1.push(req_ratio(1, 2));
    let h3 = h2.push(req_inclusive(24, 80));
    let floor_y = inclusive_draw(s, Seq::empty(), 16, 48);
    let along_x = ratio_draw(s, h1, 1, 2);
    let length = inclusive_draw(s, h2, 24, 80);
    let ra: int = if along_x { region_x as int } else { region_z as int };
    let rc: int = if along_x { region_z as int } else { region_x as int };
    let h4 = h3.push(req_inclusive(0, 128 - length));
    MineshaftPlan {
        floor_y: floor_y as i32,
        along_x,
        start: (ra * 128 + inclusive_draw(s, h3, 0, 128 - length)) as i32,
        center: inclusive_draw(s, h4, rc * 128 + 1, rc * 128 + 126) as i32,
        length: length as i32,
    }
}

/// The history of a region's mineshaft stream after its plan.
pub open spec fn mineshaft_plan_history(world_seed: u64, region_x: i32, region_z: i32) -> Seq<(int, int, int)> {
    let p = mineshaft_plan(world_seed, region_x, region_z);
    let rc: int = if p.along_x { region_z as int } else { region_x as int };
    seq![
        req_inclusive(16, 48),
        req_ratio(1, 2),
        req_inclusive(24, 80),
        req_inclusive(0, 128 - p.length),
        req_inclusive(rc * 128 + 1, rc * 128 + 126),
    ]
}

/// The stream's history after `k` frame draws made from history `h0`.
pub open spec fn frames_history(h0: Seq<(int, int, int)>, k: int) -> Seq<(int, int, int)> {
    h0 + Seq::new(k as nat, |i: int| req_ratio(1, 6))
}

/// The first `k` frame flags from the stream of `seed` after history `h0`: each frame
/// stands unless omitted with one chance in six.
pub open spec fn corridor_frames(seed: u64, h0: Seq<(int, int, int)>, k: int) -> Seq<bool>
    decreases k,
{
    if k <= 0 {
        Seq::empty()
    } else {
        corridor_frames(seed, h0, k - 1).push(!ratio_draw(seed, frames_history(h0, k - 1), 1, 6))
    }
}

/// The chest offset drawn after the frames of a corridor of `length`: one to the length
/// minus two.
pub open spec fn corridor_chest(seed: u64, h0: Seq<(int, int, int)>, length: int) -> int {
    exclusive_draw(seed, frames_history(h0, (length + 3) / 4), 1, length - 1)
}

/// One outcome of generation in the chunk at `c` for `world_seed`: the region's plan, frames
/// and chest drawn from the region's stream, generation reported exactly when the plan's
/// box meets the chunk, the corridor carved then, and the chunk untouched otherwise.
pub open spec fn mineshaft_outcome(old_cells: Seq<Voxel>, cells: Seq<Voxel>, c: ChunkPos, world_seed: u64, generated: bool) -> bool {
    let rx = (c.x / 8) as i32;
    let rz = (c.z / 8) as i32;
    let p = mineshaft_plan(world_seed, rx, rz);
    let s = mineshaft_seed(world_seed, rx, rz);
    let h = mineshaft_plan_history(world_seed, rx, rz);
    &&& plan_in_region(p, c.x / 8, c.z / 8)
    &&& generated == box_meets_chunk(plan_bounds(p), c)
    &&& generated ==> carved(old_cells, cells, c, p, corridor_frames(s, h, (p.length + 3) / 4), corridor_chest(s, h, p.length as int))
    &&& !generated ==> cells == old_cells
}

/// Region coordinates whose world bounds fit in an i32.
pub open spec fn region_fits(region_x: int, region_z: int) -> bool {
    i32::MIN <= region_x * 128 <= i32::MAX - 127 && i32::MIN <= region_z * 128 <= i32::MAX - 127
}

pub proof fn lemma_chunk_region_fits(c: ChunkPos)
    requires
        chunk_fits(c),
    ensures
        region_fits(c.x / 8, c.z / 8),
{
    assert(i32::MIN <= (c.x as int / 8) * 128 <= i32::MAX - 127) by (nonlinear_arith)
        requires
            i32::MIN <= c.x * 16 <= i32::MAX - 15,
    ;
    assert(i32::MIN <= (c.z as int / 8) * 128 <= i32::MAX - 127) by (nonlinear_arith)
        requires
            i32::MIN <= c.z * 16 <= i32::MAX - 15,
    ;
}

/// Draw the region's corridor from its seeded stream; the stream is returned for drawing the
/// supports and the chest.
fn plan_corridor(world_seed: u64, region_x: i32, region_z: i32) -> (res: (MineshaftPlan, SeededStream))
    requires
        region_fits(region_x as int, region_z as int),
    ensures
        plan_in_region(res.0, region_x as int, region_z as int),
        res.0 == mineshaft_plan(world_seed, region_x, region_z),
        res.1@ == (mineshaft_seed(world_seed, region_x, region_z), mineshaft_plan_history(world_seed, region_x, region_z)),
{
    let seed = region_seed(world_seed, region_x, region_z, MINESHAFT_SEED_SALT);
    let mut rng = seeded_rng(seed);
    let floor_y = gen_range_inclusive(&mut rng, 16, 48);
    let (region_min_x, region_max_x, region_min_z, region_max_z) = region_world_bounds(region_x, region_z);
    // An even chance: the same Bernoulli draw as `gen_bool(0.5)`.
    let along_x = gen_ratio(&mut rng, 1, 2);
    let length = gen_range_inclusive(&mut rng, 24, 80);
    let plan = if along_x {
        let max_start_x = (region_max_x - region_min_x + 1) - length;
        let start_x = region_min_x + gen_range_inclusive(&mut rng, 0, max_start_x);
        let center_z = gen_range_inclusive(&mut rng, region_min_z + 1, region_max_z - 1);
        MineshaftPlan { floor_y, along_x: true, start: start_x, center: center_z, length }
    } else {
        let max_start_z = (region_max_z - region_min_z + 1) - length;
        let start_z = region_min_z + gen_range_inclusive(&mut rng, 0, max_start_z);
        let center_x = gen_range_inclusive(&mut rng, region_min_x + 1, region_max_x - 1);
        MineshaftPlan { floor_y, along_x: false, start: start_z, center: center_x, length }
    };
    proof {
        assert(rng@.1 =~= mineshaft_plan_history(world_seed, region_x, region_z));
    }
    (plan, rng)
}

/// The box of a region's mineshaft: every region has one, the box of the plan drawn from
/// the region's stream.
pub open spec fn mineshaft_bounds_result(world_seed: u64, region_x: i32, region_z: i32, res: Option<StructureBounds>) -> bool {
    &&& res == Some(plan_bounds(mineshaft_plan(world_seed, region_x, region_z)))
    &&& plan_in_region(mineshaft_plan(world_seed, region_x, region_z), region_x as int, region_z as int)
}

/// The box of the region's mineshaft.
pub fn mineshaft_bounds_for_region(world_seed: u64, region_x: i32, region_z: i32) -> (res: Option<StructureBounds>)
    requires
        region_fits(region_x as int, region_z as int),
    ensures
        mineshaft_bounds_result(world_seed, region_x, region_z, res),
{
    let (p, _rng) = plan_corridor(world_seed, region_x, region_z);
    Some(bounds_of(p))
}

fn bounds_of(p: MineshaftPlan) -> (res: StructureBounds)
    requires
        i32::MIN <= p.start,
        1 <= p.length,
        p.start + p.length - 1 <= i32::MAX,
        i32::MIN < p.center < i32::MAX,
        0 <= p.floor_y <= 100,
    ensures
        res == plan_bounds(p),
{
    let hi_a = p.start + (p.length - 1);
    let lo_c = p.center - 1;
    let hi_c = p.center + 1;
    let max_y = p.floor_y + CORRIDOR_HEIGHT;
    if p.along_x {
        StructureBounds { min_x: p.start, max_x: hi_a, min_y: p.floor_y, max_y, min_z: lo_c, max_z: hi_c }
    } else {
        StructureBounds { min_x: lo_c, max_x: hi_c, min_y: p.floor_y, max_y, min_z: p.start, max_z: hi_a }
    }
}

/// Write a voxel at world cell (a along, y, cc across) of the corridor axis.
pub(crate) fn set_axis_voxel(chunk: &mut Chunk, along_x: bool, a: i32, y: i32, cc: i32, voxel: Voxel)
    requires
        old(chunk).wf(),
        chunk_fits(old(chunk).spec_pos()),
    ensures
        final(chunk).wf(),
        final(chunk).spec_pos() == old(chunk).spec_pos(),
        forall|lx: int, ly: int, lz: int|
            in_chunk(lx, ly, lz) ==> #[trigger] final(chunk).cells()[voxel_index(lx, ly, lz)] == if axis_along(
                along_x,
                old(chunk).spec_pos(),
                lx,
                lz,
            ) == a && ly == y && axis_across(along_x, old(chunk).spec_pos(), lx, lz) == cc {
                voxel
            } else {
                old(chunk).cells()[voxel_index(lx, ly, lz)]
            },
{
    let ghost before = chunk.cells();
    let ghost c = chunk.spec_pos();
    if along_x {
        set_world_voxel_if_in_chunk(chunk, a, y, cc, voxel);
        assert forall|lx: int, ly: int, lz: int| in_chunk(lx, ly, lz) implies #[trigger] chunk.cells()[voxel_index(lx, ly, lz)] == if axis_along(
            along_x, c, lx, lz) == a && ly == y && axis_across(along_x, c, lx, lz) == cc {
            voxel
        } else {
            before[voxel_index(lx, ly, lz)]
        } by {
            lemma_world_set_cell(before, c, a as int, y as int, cc as int, voxel, lx, ly, lz);
        }
    } else {
        set_world_voxel_if_in_chunk(chunk, cc, y, a, voxel);
        assert forall|lx: int, ly: int, lz: int| in_chunk(lx, ly, lz) implies #[trigger] chunk.cells()[voxel_index(lx, ly, lz)] == if axis_along(
            along_x, c, lx, lz) == a && ly == y && axis_across(along_x, c, lx, lz) == cc {
            voxel
        } else {
            before[voxel_index(lx, ly, lz)]
        } by {
            lemma_world_set_cell(before, c, cc as int, y as int, a as int, voxel, lx, ly, lz);
        }
    }
}

/// Carve one column of the corridor: planks on the floor and air in the three cells above.
fn carve_column(chunk: &mut Chunk, along_x: bool, a: i32, cc: i32, floor_y: i32)
    requires
        old(chunk).wf(),
        chunk_fits(old(chunk).spec_pos()),
        0 <= floor_y <= 100,
    ensures
        final(chunk).wf(),
        final(chunk).spec_pos() == old(chunk).spec_pos(),
        forall|lx: int, ly: int, lz: int|
            in_chunk(lx, ly, lz) ==> #[trigger] final(chunk).cells()[voxel_index(lx, ly, lz)] == if axis_along(
                along_x,
                old(chunk).spec_pos(),
                lx,
                lz,
            ) == a && axis_across(along_x, old(chunk).spec_pos(), lx, lz) == cc && floor_y <= ly <= floor_y
                + CORRIDOR_HEIGHT {
                if ly == floor_y {
                    planks_voxel()
                } else {
                    air_voxel()
                }
            } else {
                old(chunk).cells()[voxel_index(lx, ly, lz)]
            },
{
    let ghost s0 = chunk.cells();
    let ghost c = chunk.spec_pos();
    let planks = Voxel { id: BLOCK_OAK_PLANKS, state: 0, light_sky: 0, light_block: 0 };
    let air = Voxel { id: 0, state: 0, light_sky: 0, light_block: 0 };
    set_axis_voxel(chunk, along_x, a, floor_y, cc, planks);
    let ghost s1 = chunk.cells();
    set_axis_voxel(chunk, along_x, a, floor_y + 1, cc, air);
    let ghost s2 = chunk.cells();
    set_axis_voxel(chunk, along_x, a, floor_y + 2, cc, air);
    let ghost s3 = chunk.cells();
    set_axis_voxel(chunk, along_x, a, floor_y + 3, cc, air);
    assert forall|lx: int, ly: int, lz: int| in_chunk(lx, ly, lz) implies #[trigger] chunk.cells()[voxel_index(lx, ly, lz)] == if axis_along(
        along_x, c, lx, lz) == a && axis_across(along_x, c, lx, lz) == cc && floor_y <= ly <= floor_y + CORRIDOR_HEIGHT {
        if ly == floor_y {
            planks_voxel()
        } else {
            air_voxel()
        }
    } else {
        s0[voxel_index(lx, ly, lz)]
    } by {
        assert(s1[voxel_index(lx, ly, lz)] == s1[voxel_index(lx, ly, lz)]);
        assert(s2[voxel_index(lx, ly, lz)] == s2[voxel_index(lx, ly, lz)]);
        assert(s3[voxel_index(lx, ly, lz)] == s3[voxel_index(lx, ly, lz)]);
    }
}

/// Place one support frame across the corridor at `a` when `place` says so: logs one and two
/// above the floor at both sides, then a plank beam two above the floor across. Returns
/// whether the frame was placed.
fn place_support(chunk: &mut Chunk, place: bool, along_x: bool, a: i32, floor_y: i32, center: i32) -> (placed: bool)
    requires
        old(chunk).wf(),
        chunk_fits(old(chunk).spec_pos()),
        0 <= floor_y <= 100,
        i32::MIN < center < i32::MAX,
    ensures
        final(chunk).wf(),
        final(chunk).spec_pos() == old(chunk).spec_pos(),
        placed == place,
        !placed ==> final(chunk).cells() == old(chunk).cells(),
        placed ==> forall|lx: int, ly: int, lz: int|
            in_chunk(lx, ly, lz) ==> #[trigger] final(chunk).cells()[voxel_index(lx, ly, lz)] == if axis_along(
                along_x,
                old(chunk).spec_pos(),
                lx,
                lz,
            ) == a && ly == floor_y + 2 && -1 <= axis_across(along_x, old(chunk).spec_pos(), lx, lz) - center <= 1 {
                planks_voxel()
            } else if axis_along(along_x, old(chunk).spec_pos(), lx, lz) == a && ly == floor_y + 1 && (axis_across(
                along_x,
                old(chunk).spec_pos(),
                lx,
                lz,
            ) == center - 1 || axis_across(along_x, old(chunk).spec_pos(), lx, lz) == center + 1) {
                log_voxel()
            } else {
                old(chunk).cells()[voxel_index(lx, ly, lz)]
            },
{
    if !place {
        return false;
    }
    let ghost s0 = chunk.cells();
    let ghost c = chunk.spec_pos();
    let log = Voxel { id: BLOCK_OAK_LOG, state: 0, light_sky: 0, light_block: 0 };
    let planks = Voxel { id: BLOCK_OAK_PLANKS, state: 0, light_sky: 0, light_block: 0 };
    let z0 = center - 1;
    let z1 = center + 1;
    set_axis_voxel(chunk, along_x, a, floor_y + 1, z0, log);
    let ghost s1 = chunk.cells();
    set_axis_voxel(chunk, along_x, a, floor_y + 1, z1, log);
    let ghost s2 = chunk.cells();
    set_axis_voxel(chunk, along_x, a, floor_y + 2, z0, log);
    let ghost s3 = chunk.cells();
    set_axis_voxel(chunk, along_x, a, floor_y + 2, z1, log);
    let ghost s4 = chunk.cells();
    set_axis_voxel(chunk, along_x, a, floor_y + 2, center - 1, planks);
    let ghost s5 = chunk.cells();
    set_axis_voxel(chunk, along_x, a, floor_y + 2, center, planks);
    let ghost s6 = chunk.cells();
    set_axis_voxel(chunk, along_x, a, floor_y + 2, center + 1, planks);
    assert forall|lx: int, ly: int, lz: int| in_chunk(lx, ly, lz) implies #[trigger] chunk.cells()[voxel_index(lx, ly, lz)] == if axis_along(
        along_x, c, lx, lz) == a && ly == floor_y + 2 && -1 <= axis_across(along_x, c, lx, lz) - center <= 1 {
        planks_voxel()
    } else if axis_along(along_x, c, lx, lz) == a && ly == floor_y + 1 && (axis_across(along_x, c, lx, lz) == center - 1
        || axis_across(along_x, c, lx, lz) == center + 1) {
        log_voxel()
    } else {
        s0[voxel_index(lx, ly, lz)]
    } by {
        assert(s1[voxel_index(lx, ly, lz)] == s1[voxel_index(lx, ly, lz)]);
        assert(s2[voxel_index(lx, ly, lz)] == s2[voxel_index(lx, ly, lz)]);
        assert(s3[voxel_index(lx, ly, lz)] == s3[voxel_index(lx, ly, lz)]);
        assert(s4[voxel_index(lx, ly, lz)] == s4[voxel_index(lx, ly, lz)]);
        assert(s5[voxel_index(lx, ly, lz)] == s5[voxel_index(lx, ly, lz)]);
        assert(s6[voxel_index(lx, ly, lz)] == s6[voxel_index(lx, ly, lz)]);
    }
    true
}

/// Phase one of carving: the first `ncols` columns of the corridor (offset outer, across
/// inner) hold planks on the floor and air above.
pub open spec fn floor_carved(old_cells: Seq<Voxel>, cells: Seq<Voxel>, c: ChunkPos, p: MineshaftPlan, ncols: int, lx: int, ly: int, lz: int) -> bool {
    let a = axis_along(p.along_x, c, lx, lz);
    let cc = axis_across(p.along_x, c, lx, lz);
    cells[voxel_index(lx, ly, lz)] == if in_corridor(p, a, ly, cc) && (a - p.start) * 3 + (cc - p.center + 1) < ncols {
        if ly == p.floor_y {
            planks_voxel()
        } else {
            air_voxel()
        }
    } else {
        old_cells[voxel_index(lx, ly, lz)]
    }
}

/// Phase two of carving: the support frames drawn so far stand over the carved corridor.
pub open spec fn supports_placed(carved_cells: Seq<Voxel>, cells: Seq<Voxel>, c: ChunkPos, p: MineshaftPlan, placed: Seq<bool>, lx: int, ly: int, lz: int) -> bool {
    let a = axis_along(p.along_x, c, lx, lz);
    let cc = axis_across(p.along_x, c, lx, lz);
    cells[voxel_index(lx, ly, lz)] == if in_corridor(p, a, ly, cc) && has_support(placed, a - p.start) && support_value(p, ly, cc) is Some {
        support_value(p, ly, cc)->0
    } else {
        carved_cells[voxel_index(lx, ly, lz)]
    }
}

/// Draw a corridor's frames and chest from its region's stream, in the order they are
/// placed: for each fourth offset along the corridor whether its frame stands (omitted with
/// one chance in six), then the chest's offset, one to the length minus two.
fn draw_corridor(rng: &mut SeededStream, length: i32) -> (res: (Vec<bool>, i32))
    requires
        24 <= length <= 80,
    ensures
        res.0@.len() == (length + 3) / 4,
        1 <= res.1 <= length - 2,
        res.0@ == corridor_frames(old(rng)@.0, old(rng)@.1, (length + 3) / 4),
        res.1 == corridor_chest(old(rng)@.0, old(rng)@.1, length as int),
{
    let ghost seed = rng@.0;
    let ghost h0 = rng@.1;
    let mut placed: Vec<bool> = Vec::new();
    let mut off: i32 = 0;
    while off < length
        invariant
            24 <= length <= 80,
            0 <= off < length + 4,
            off == 4 * placed@.len(),
            rng@ == (seed, frames_history(h0, placed@.len() as int)),
            placed@ == corridor_frames(seed, h0, placed@.len() as int),
        decreases length + 4 - off,
    {
        let ghost n = placed@.len() as int;
        let b = gen_ratio(rng, 1, 6);
        placed.push(!b);
        proof {
            assert(frames_history(h0, n).push(req_ratio(1, 6)) =~= frames_history(h0, n + 1));
        }
        off = off + SUPPORT_SPACING;
    }
    assert(placed@.len() == (length + 3) / 4);
    let chest_off = gen_range_exclusive(rng, 1, length - 1);
    (placed, chest_off)
}

/// Carve the plan's corridor into the chunk from its draws: floor and headroom, then the
/// support frame at each fourth offset whose flag in `placed` is set, then the chest one
/// above the floor on the middle line at offset `chest_off`.
pub fn carve_corridor(chunk: &mut Chunk, p: MineshaftPlan, placed_draws: &Vec<bool>, chest_off: i32)
    requires
        placed_draws@.len() == (p.length + 3) / 4,
        1 <= chest_off <= p.length - 2,
        old(chunk).wf(),
        chunk_fits(old(chunk).spec_pos()),
        16 <= p.floor_y <= 48,
        24 <= p.length <= 80,
        i32::MIN <= p.start,
        p.start + p.length - 1 <= i32::MAX,
        i32::MIN < p.center < i32::MAX,
    ensures
        final(chunk).wf(),
        final(chunk).spec_pos() == old(chunk).spec_pos(),
        carved(old(chunk).cells(), final(chunk).cells(), old(chunk).spec_pos(), p, placed_draws@, chest_off as int),
{
    let ghost c = chunk.spec_pos();
    let ghost s0 = chunk.cells();
    let ghost mut ncols: int = 0;
    let mut off: i32 = 0;
    while off < p.length
        invariant
            0 <= off <= p.length,
            ncols == off * 3,
            chunk.wf(),
            chunk.spec_pos() == c,
            chunk_fits(c),
            s0.len() == CHUNK_VOLUME,
            16 <= p.floor_y <= 48,
            24 <= p.length <= 80,
            i32::MIN <= p.start,
            p.start + p.length - 1 <= i32::MAX,
            i32::MIN < p.center < i32::MAX,
            forall|lx: int, ly: int, lz: int|
                in_chunk(lx, ly, lz) ==> #[trigger] floor_carved(s0, chunk.cells(), c, p, ncols, lx, ly, lz),
        decreases p.length - off,
    {
        let mut dc: i32 = -1;
        while dc <= 1
            invariant
                -1 <= dc <= 2,
                ncols == off * 3 + dc + 1,
                0 <= off < p.length,
                chunk.wf(),
                chunk.spec_pos() == c,
                chunk_fits(c),
                s0.len() == CHUNK_VOLUME,
                16 <= p.floor_y <= 48,
                24 <= p.length <= 80,
                i32::MIN <= p.start,
                p.start + p.length - 1 <= i32::MAX,
                i32::MIN < p.center < i32::MAX,
                forall|lx: int, ly: int, lz: int|
                    in_chunk(lx, ly, lz) ==> #[trigger] floor_carved(s0, chunk.cells(), c, p, ncols, lx, ly, lz),
            decreases 2 - dc,
        {
            let ghost before = chunk.cells();
            carve_column(chunk, p.along_x, p.start + off, p.center + dc, p.floor_y);
            proof {
                assert forall|lx: int, ly: int, lz: int| in_chunk(lx, ly, lz) implies #[trigger] floor_carved(
                    s0, chunk.cells(), c, p, ncols + 1, lx, ly, lz) by {
                    assert(floor_carved(s0, before, c, p, ncols, lx, ly, lz));
                }
                ncols = ncols + 1;
            }
            dc = dc + 1;
        }
        off = off + 1;
    }
    assert(ncols == p.length * 3);
    let ghost s1 = chunk.cells();
    let ghost mut placed: Seq<bool> = Seq::empty();
    let mut off: i32 = 0;
    while off < p.length
        invariant
            0 <= off < p.length + 4,
            off == 4 * placed.len(),
            chunk.wf(),
            chunk.spec_pos() == c,
            chunk_fits(c),
            s1.len() == CHUNK_VOLUME,
            16 <= p.floor_y <= 48,
            24 <= p.length <= 80,
            i32::MIN <= p.start,
            p.start + p.length - 1 <= i32::MAX,
            i32::MIN < p.center < i32::MAX,
            placed_draws@.len() == (p.length + 3) / 4,
            placed == placed_draws@.subrange(0, placed.len() as int),
            forall|lx: int, ly: int, lz: int|
                in_chunk(lx, ly, lz) ==> #[trigger] supports_placed(s1, chunk.cells(), c, p, placed, lx, ly, lz),
        decreases p.length + 4 - off,
    {
        let ghost before = chunk.cells();
        let ghost before_placed = placed;
        let b = place_support(chunk, placed_draws[(off / SUPPORT_SPACING) as usize], p.along_x, p.start + off, p.floor_y, p.center);
        proof {
            placed = placed.push(b);
            assert forall|lx: int, ly: int, lz: int| in_chunk(lx, ly, lz) implies #[trigger] supports_placed(
                s1, chunk.cells(), c, p, placed, lx, ly, lz) by {
                assert(supports_placed(s1, before, c, p, before_placed, lx, ly, lz));
                let o = axis_along(p.along_x, c, lx, lz) - p.start;
                if o != off {
                    if o % 4 == 0 && 0 <= o / 4 < placed.len() {
                        assert(o / 4 != off / 4);
                        assert(placed[o / 4] == before_placed[o / 4]);
                    }
                    assert(has_support(placed, o) == has_support(before_placed, o));
                } else {
                    assert(o % 4 == 0 && o / 4 == before_placed.len());
                    assert(!has_support(before_placed, o));
                    assert(has_support(placed, o) == b);
                }
            }
        }
        off = off + SUPPORT_SPACING;
    }
    assert(placed.len() == (p.length + 3) / 4);
    assert(placed =~= placed_draws@);
    let ghost s2 = chunk.cells();
    let chest = Voxel { id: interactive_blocks::CHEST, state: 0, light_sky: 0, light_block: 0 };
    set_axis_voxel(chunk, p.along_x, p.start + chest_off, p.floor_y + 1, p.center, chest);
    proof {
        assert forall|lx: int, ly: int, lz: int| in_chunk(lx, ly, lz) implies #[trigger] cell_carved(
            s0, chunk.cells(), c, p, placed, chest_off as int, lx, ly, lz) by {
            assert(floor_carved(s0, s1, c, p, p.length * 3, lx, ly, lz));
            assert(supports_placed(s1, s2, c, p, placed, lx, ly, lz));
            assert(chunk.cells()[voxel_index(lx, ly, lz)] == chunk.cells()[voxel_index(lx, ly, lz)]);
        }
    }
}

/// Same seed, same corridor: two generations in the same chunk for the same world seed
/// report the same and leave the same chunk.
pub proof fn law_mineshaft_same_seed_same_chunk(
    old_cells: Seq<Voxel>,
    a: Seq<Voxel>,
    b: Seq<Voxel>,
    c: ChunkPos,
    world_seed: u64,
    generated_a: bool,
    generated_b: bool,
)
    requires
        mineshaft_outcome(old_cells, a, c, world_seed, generated_a),
        mineshaft_outcome(old_cells, b, c, world_seed, generated_b),
    ensures
        generated_a == generated_b,
        a == b,
{
    if generated_a {
        let rx = (c.x / 8) as i32;
        let rz = (c.z / 8) as i32;
        let p = mineshaft_plan(world_seed, rx, rz);
        let s = mineshaft_seed(world_seed, rx, rz);
        let h = mineshaft_plan_history(world_seed, rx, rz);
        let placed = corridor_frames(s, h, (p.length + 3) / 4);
        let chest = corridor_chest(s, h, p.length as int);
        assert forall|x: int, y: int, z: int| in_chunk(x, y, z) implies a[voxel_index(x, y, z)] == #[trigger] b[voxel_index(
            x,
            y,
            z,
        )] by {
            assert(cell_carved(old_cells, a, c, p, placed, chest, x, y, z));
            assert(cell_carved(old_cells, b, c, p, placed, chest, x, y, z));
        }
        crate::chunk::lemma_cells_ext(a, b);
    }
}

impl MineshaftGenerator {
    /// The world seed the generator draws from.
    pub closed spec fn seed(&self) -> u64 {
        self.world_seed
    }

    /// A generator for the given world seed.
    pub fn new(world_seed: u64) -> (res: Self)
        ensures
            res.seed() == world_seed,
    {
        MineshaftGenerator { world_seed }
    }

    /// Generate the part of its region's mineshaft that falls in this chunk. Returns whether
    /// the corridor's box meets the chunk; the chunk is unchanged when it does not.
    pub fn try_generate_mineshaft(&self, chunk: &mut Chunk) -> (res: bool)
        requires
            old(chunk).wf(),
            chunk_fits(old(chunk).spec_pos()),
        ensures
            final(chunk).wf(),
            final(chunk).spec_pos() == old(chunk).spec_pos(),
            mineshaft_outcome(old(chunk).cells(), final(chunk).cells(), old(chunk).spec_pos(), self.seed(), res),
    {
        let ghost s0 = chunk.cells();
        let chunk_pos = chunk.position();
        let (region_x, region_z) = region_coords_for_chunk(chunk_pos);
        proof {
            lemma_chunk_region_fits(chunk_pos);
        }
        let (p, mut rng) = plan_corridor(self.world_seed, region_x, region_z);
        assert(region_x == (chunk_pos.x / 8) as i32 && region_z == (chunk_pos.z / 8) as i32);
        let bounds = bounds_of(p);
        if !bounds.intersects_chunk(chunk_pos) {
            assert(mineshaft_outcome(s0, chunk.cells(), chunk_pos, self.seed(), false));
            return false;
        }
        let (placed, chest_off) = draw_corridor(&mut rng, p.length);
        carve_corridor(chunk, p, &placed, chest_off);
        assert(mineshaft_outcome(s0, chunk.cells(), chunk_pos, self.seed(), true));
        true
    }
}

} // verus!
