//! Surface ruins: one small walled square per structure region, on a cobblestone
//! foundation, with a chest inside, drawn from the region's seeded random stream.

use crate::chunk::{air_voxel, in_chunk, voxel_index, BlockId, Chunk, ChunkPos, Voxel, BLOCK_AIR, BLOCK_COBBLESTONE, BLOCK_MOSS_BLOCK, BLOCK_STONE_BRICKS, BLOCK_WATER, CHUNK_SIZE_Y, CHUNK_VOLUME, WORLD_MAX_Y, WORLD_MIN_Y};
use crate::interactive_blocks;
use crate::mineshaft::{box_meets_chunk, region_fits, set_axis_voxel};
use crate::rng::{gen_range_inclusive, gen_ratio, seeded_rng, inclusive_draw, ratio_draw, req_inclusive, req_ratio};
use crate::village::{village_bounds_for_region, village_bounds_result};
use crate::structures::{spec_region_seed, chunk_fits, lemma_world_set_cell, region_coords_for_chunk, region_seed, region_world_bounds, set_world_voxel_if_in_chunk, world_to_chunk_local, StructureBounds};
use crate::rng::SeededStream;
use vstd::prelude::*;

verus! {

/// Salt mixed into a region's seed for ruins ("RUIN").
pub const RUIN_SEED_SALT: u64 = 0x5255_494E;

/// Side of the ruin's square footprint.
pub const RUIN_SIZE: i32 = 5;

/// Height of the ruin's walls above its floor.
pub const RUIN_WALL_HEIGHT: i32 = 3;

/// Generates at most one surface ruin per structure region.
#[derive(Debug, Clone, Copy)]
pub struct RuinGenerator {
    world_seed: u64,
}

/// A plain block voxel without state or light.
pub open spec fn block_voxel(id: BlockId) -> Voxel {
    Voxel { id, state: 0, light_sky: 0, light_block: 0 }
}

/// The floor a ruin stands on for terrain height `h` at its center: one above the surface,
/// the surface kept between 1 and 251 so that the walls fit under the top of the world.
pub open spec fn spec_ruin_base_y(h: int) -> int {
    (if h < 1 {
        1
    } else if h > 251 {
        251
    } else {
        h
    }) + 1
}

/// The ruin's box for footprint corner (sx, sz) and floor y.
pub open spec fn ruin_box(sx: int, sz: int, base_y: int) -> StructureBounds {
    StructureBounds {
        min_x: sx as i32,
        max_x: (sx + 4) as i32,
        min_y: base_y as i32,
        max_y: (base_y + 3) as i32,
        min_z: sz as i32,
        max_z: (sz + 4) as i32,
    }
}

/// Whether two boxes overlap.
pub open spec fn boxes_meet(a: StructureBounds, b: StructureBounds) -> bool {
    a.min_x <= b.max_x && b.min_x <= a.max_x && a.min_z <= b.max_z && b.min_z <= a.max_z && a.min_y <= b.max_y
        && b.min_y <= a.max_y
}

/// Whether a box overlaps the village of the region, if there is one.
pub open spec fn meets_village(b: StructureBounds, village: Option<StructureBounds>) -> bool {
    match village {
        Some(v) => boxes_meet(b, v),
        None => false,
    }
}

/// Footprint corners the region's stream can give: the whole footprint inside the region.
pub open spec fn start_in_region(sx: int, sz: int, region_x: int, region_z: int) -> bool {
    region_x * 128 <= sx <= region_x * 128 + 123 && region_z * 128 <= sz <= region_z * 128 + 123
}

/// A block that foundations rest on: anything but air and water.
pub open spec fn is_ground(v: Voxel) -> bool {
    v.id != BLOCK_AIR && v.id != BLOCK_WATER
}

/// The highest y at or below `y` in column (x, z) holding ground, or -1 when there is none.
pub open spec fn ground_below(cells: Seq<Voxel>, x: int, y: int, z: int) -> int
    decreases y + 1,
{
    if y < 0 {
        -1
    } else if is_ground(cells[voxel_index(x, y, z)]) {
        y
    } else {
        ground_below(cells, x, y - 1, z)
    }
}

/// One outcome of generation in the chunk at `c` for `world_seed`: the footprint corner and
/// blocks drawn from the region's stream, `h` the terrain height the height function gave
/// for the ruin's center, the ruin reported exactly when its box avoids the region's
/// village and meets the chunk, built from those draws then, and the chunk untouched
/// otherwise.
pub open spec fn ruin_outcome<H: Fn(i32, i32) -> i32>(
    old_cells: Seq<Voxel>,
    cells: Seq<Voxel>,
    c: ChunkPos,
    world_seed: u64,
    terrain_height: H,
    village: Option<StructureBounds>,
    h: i32,
    generated: bool,
) -> bool {
    let (sx, sz) = ruin_start(world_seed, (c.x / 8) as i32, (c.z / 8) as i32);
    let blocks = ruin_blocks(world_seed, (c.x / 8) as i32, (c.z / 8) as i32);
    let b = ruin_box(sx, sz, spec_ruin_base_y(h as int));
    &&& call_ensures(terrain_height, ((sx + 2) as i32, (sz + 2) as i32), h)
    &&& generated == (!meets_village(b, village) && box_meets_chunk(b, c))
    &&& generated ==> ruin_built_from(old_cells, cells, c, sx, sz, spec_ruin_base_y(h as int), blocks.0, blocks.1)
    &&& !generated ==> cells == old_cells
}

/// The seed of the stream a region's ruin is drawn from.
pub open spec fn ruin_seed(world_seed: u64, region_x: i32, region_z: i32) -> u64 {
    spec_region_seed(world_seed, region_x, region_z, RUIN_SEED_SALT)
}

/// The requests a ruin's stream answers for the footprint corner.
pub open spec fn ruin_start_history() -> Seq<(int, int, int)> {
    seq![req_inclusive(0, 123), req_inclusive(0, 123)]
}

/// The footprint corner of a region's ruin: x and then z offsets from 0 to 123 into the
/// region, drawn from the region's stream.
pub open spec fn ruin_start(world_seed: u64, region_x: i32, region_z: i32) -> (int, int) {
    let s = ruin_seed(world_seed, region_x, region_z);
    (
        region_x * 128 + inclusive_draw(s, Seq::empty(), 0, 123),
        region_z * 128 + inclusive_draw(s, seq![req_inclusive(0, 123)], 0, 123),
    )
}

/// The stream's history after `k` floor draws made from history `h0`.
pub open spec fn floor_history(h0: Seq<(int, int, int)>, k: int) -> Seq<(int, int, int)> {
    h0 + Seq::new(k as nat, |i: int| req_ratio(1, 5))
}

/// The first `k` floor draws from the stream of `seed` after history `h0`: cobblestone with
/// one chance in five each.
pub open spec fn ruin_floor_draws(seed: u64, h0: Seq<(int, int, int)>, k: int) -> Seq<bool>
    decreases k,
{
    if k <= 0 {
        Seq::empty()
    } else {
        ruin_floor_draws(seed, h0, k - 1).push(ratio_draw(seed, floor_history(h0, k - 1), 1, 5))
    }
}

/// Whether cell `k` of the three wall layers (25 per layer, z then x in rows of 5) lies on
/// the walls.
pub open spec fn wall_cell(k: int) -> bool {
    let l = k % 25;
    l / 5 == 0 || l % 5 == 0 || l / 5 == 4 || l % 5 == 4
}

/// The draw for wall cell `k` from the stream of `seed` after history `h`, with the history
/// after it: on the walls a gap (0) with one chance in four, else moss (1) with one chance
/// in six, else stone bricks (2); inside the walls 0, drawing nothing.
pub open spec fn wall_step(seed: u64, h: Seq<(int, int, int)>, k: int) -> (u8, Seq<(int, int, int)>) {
    let h1 = h.push(req_ratio(1, 4));
    let h2 = h1.push(req_ratio(1, 6));
    if !wall_cell(k) {
        (0u8, h)
    } else if ratio_draw(seed, h, 1, 4) {
        (0u8, h1)
    } else if ratio_draw(seed, h1, 1, 6) {
        (1u8, h2)
    } else {
        (2u8, h2)
    }
}

/// The first `k` wall draws from the stream of `seed` after history `h0`, with the history
/// after them.
pub open spec fn ruin_wall_draws(seed: u64, h0: Seq<(int, int, int)>, k: int) -> (Seq<u8>, Seq<(int, int, int)>)
    decreases k,
{
    if k <= 0 {
        (Seq::empty(), h0)
    } else {
        let p = ruin_wall_draws(seed, h0, k - 1);
        let st = wall_step(seed, p.1, k - 1);
        (p.0.push(st.0), st.1)
    }
}

/// A region's ruin blocks: 25 floor draws and 75 wall draws from the region's stream after
/// its footprint corner.
pub open spec fn ruin_blocks(world_seed: u64, region_x: i32, region_z: i32) -> (Seq<bool>, Seq<u8>) {
    let s = ruin_seed(world_seed, region_x, region_z);
    let h0 = ruin_start_history();
    (ruin_floor_draws(s, h0, 25), ruin_wall_draws(s, floor_history(h0, 25), 75).0)
}

/// The floor of a ruin whose center has terrain height `target_height`.
pub fn ruin_base_y(target_height: i32) -> (res: i32)
    ensures
        res == spec_ruin_base_y(target_height as int),
{
    let max_surface_y = CHUNK_SIZE_Y as i32 - RUIN_WALL_HEIGHT - 2;
    let surface_y = if target_height < 1 {
        1
    } else if target_height > max_surface_y {
        max_surface_y
    } else {
        target_height
    };
    surface_y + 1
}

/// Draw the region's footprint corner from its seeded stream; the stream is returned for
/// drawing the floor and the walls.
fn ruin_origin(world_seed: u64, region_x: i32, region_z: i32) -> (res: ((i32, i32), SeededStream))
    requires
        region_fits(region_x as int, region_z as int),
    ensures
        res.0.0 == ruin_start(world_seed, region_x, region_z).0,
        res.0.1 == ruin_start(world_seed, region_x, region_z).1,
        start_in_region(res.0.0 as int, res.0.1 as int, region_x as int, region_z as int),
        res.1@ == (ruin_seed(world_seed, region_x, region_z), ruin_start_history()),
{
    let (region_min_x, region_max_x, region_min_z, region_max_z) = region_world_bounds(region_x, region_z);
    let seed = region_seed(world_seed, region_x, region_z, RUIN_SEED_SALT);
    let mut rng = seeded_rng(seed);
    let max_start_x = (region_max_x - region_min_x + 1) - RUIN_SIZE;
    let max_start_z = (region_max_z - region_min_z + 1) - RUIN_SIZE;
    let start_x = region_min_x + gen_range_inclusive(&mut rng, 0, max_start_x);
    let start_z = region_min_z + gen_range_inclusive(&mut rng, 0, max_start_z);
    proof {
        assert(rng@.1 =~= ruin_start_history());
    }
    ((start_x, start_z), rng)
}

fn ruin_bounds(start_x: i32, start_z: i32, base_y: i32) -> (res: StructureBounds)
    requires
        start_x + 4 <= i32::MAX,
        start_z + 4 <= i32::MAX,
        base_y + 3 <= i32::MAX,
    ensures
        res == ruin_box(start_x as int, start_z as int, base_y as int),
{
    StructureBounds {
        min_x: start_x,
        max_x: start_x + (RUIN_SIZE - 1),
        min_y: base_y,
        max_y: base_y + RUIN_WALL_HEIGHT,
        min_z: start_z,
        max_z: start_z + (RUIN_SIZE - 1),
    }
}

fn avoids_village(bounds: StructureBounds, village_bounds: Option<StructureBounds>) -> (res: bool)
    ensures
        res == !meets_village(bounds, village_bounds),
{
    match village_bounds {
        Some(v) => !bounds.intersects_bounds(v),
        None => true,
    }
}

/// The box of a region's ruin: the box for the footprint corner drawn from the region's
/// stream and the terrain height given for its center, unless it overlaps the region's
/// village.
pub open spec fn ruin_bounds_result<H: Fn(i32, i32) -> i32>(
    world_seed: u64,
    region_x: i32,
    region_z: i32,
    terrain_height: H,
    res: Option<StructureBounds>,
) -> bool {
    let (sx, sz) = ruin_start(world_seed, region_x, region_z);
    exists|h: i32, village: Option<StructureBounds>|
        #![trigger call_ensures(terrain_height, ((sx + 2) as i32, (sz + 2) as i32), h), village_bounds_result(world_seed, region_x, region_z, terrain_height, village)]
        call_ensures(terrain_height, ((sx + 2) as i32, (sz + 2) as i32), h) && village_bounds_result(
            world_seed,
            region_x,
            region_z,
            terrain_height,
            village,
        ) && res == if meets_village(ruin_box(sx, sz, spec_ruin_base_y(h as int)), village) {
            None
        } else {
            Some(ruin_box(sx, sz, spec_ruin_base_y(h as int)))
        }
}

/// The box of the region's ruin, given the terrain height function (the ruin's floor
/// follows it at the ruin's center, and the region's village at the village center): `None`
/// when the ruin would overlap the region's village (villages take precedence).
pub fn ruin_bounds_for_region<H: Fn(i32, i32) -> i32 + Copy>(
    world_seed: u64,
    region_x: i32,
    region_z: i32,
    terrain_height: H,
) -> (res: Option<StructureBounds>)
    requires
        region_fits(region_x as int, region_z as int),
        forall|x: i32, z: i32| call_requires(terrain_height, (x, z)),
    ensures
        ruin_bounds_result(world_seed, region_x, region_z, terrain_height, res),
{
    let ((start_x, start_z), _rng) = ruin_origin(world_seed, region_x, region_z);
    let h = terrain_height(start_x + 2, start_z + 2);
    let base_y = ruin_base_y(h);
    let bounds = ruin_bounds(start_x, start_z, base_y);
    let village_bounds = village_bounds_for_region(world_seed, region_x, region_z, terrain_height);
    let res = if avoids_village(bounds, village_bounds) {
        Some(bounds)
    } else {
        None
    };
    assert(call_ensures(terrain_height, ((start_x + 2) as i32, (start_z + 2) as i32), h) && village_bounds_result(
        world_seed,
        region_x,
        region_z,
        terrain_height,
        village_bounds,
    ));
    res
}

pub(crate) proof fn lemma_ground_same(a: Seq<Voxel>, b: Seq<Voxel>, x: int, y: int, z: int)
    requires
        forall|yy: int| 0 <= yy <= y ==> #[trigger] a[voxel_index(x, yy, z)] == b[voxel_index(x, yy, z)],
    ensures
        ground_below(a, x, y, z) == ground_below(b, x, y, z),
    decreases y + 1,
{
    if y >= 0 {
        assert(a[voxel_index(x, y, z)] == b[voxel_index(x, y, z)]);
        lemma_ground_same(a, b, x, y - 1, z);
    }
}

pub(crate) proof fn lemma_ground_range(cells: Seq<Voxel>, x: int, y: int, z: int)
    ensures
        -1 <= ground_below(cells, x, y, z) <= if y < -1 {
            -1
        } else {
            y
        },
        ground_below(cells, x, y, z) >= 0 ==> is_ground(cells[voxel_index(x, ground_below(cells, x, y, z), z)]),
    decreases y + 1,
{
    if y >= 0 {
        lemma_ground_range(cells, x, y - 1, z);
    }
}

/// Fill one foundation column: in world column (wx, wz), cobblestone from just above the
/// highest ground block below the floor up to just below the floor; nothing when the column
/// has no ground below the floor or lies outside the chunk.
fn fill_foundation_column(chunk: &mut Chunk, base_y: i32, wx: i32, wz: i32)
    requires
        old(chunk).wf(),
        chunk_fits(old(chunk).spec_pos()),
        2 <= base_y <= 252,
    ensures
        final(chunk).wf(),
        final(chunk).spec_pos() == old(chunk).spec_pos(),
        forall|lx: int, ly: int, lz: int|
            in_chunk(lx, ly, lz) ==> #[trigger] final(chunk).cells()[voxel_index(lx, ly, lz)] == if lx + old(
                chunk,
            ).spec_pos().x * 16 == wx && lz + old(chunk).spec_pos().z * 16 == wz && ly < base_y && 0 <= ground_below(
                old(chunk).cells(),
                lx,
                base_y - 1,
                lz,
            ) < ly {
                block_voxel(BLOCK_COBBLESTONE)
            } else {
                old(chunk).cells()[voxel_index(lx, ly, lz)]
            },
{
    let ghost s0 = chunk.cells();
    let ghost c = chunk.spec_pos();
    let chunk_pos = chunk.position();
    let (lx, lz) = match world_to_chunk_local(chunk_pos, wx, wz) {
        Some(p) => p,
        None => {
            return;
        },
    };
    let scan_start: i32 = base_y - 1;
    let mut y: i32 = scan_start;
    let mut ground: i32 = -1;
    while y >= 0
        invariant_except_break
            ground == -1,
            ground_below(s0, lx as int, scan_start as int, lz as int) == ground_below(s0, lx as int, y as int, lz as int),
        invariant
            -1 <= y <= scan_start,
            scan_start == base_y - 1,
            2 <= base_y <= 252,
            lx < 16,
            lz < 16,
            chunk.wf(),
            chunk.cells() == s0,
        ensures
            ground == ground_below(s0, lx as int, scan_start as int, lz as int),
        decreases y + 1,
    {
        let v = chunk.voxel(lx, y as usize, lz);
        if v.id != BLOCK_AIR && v.id != BLOCK_WATER {
            ground = y;
            break;
        }
        y = y - 1;
    }
    assert(ground == ground_below(s0, lx as int, scan_start as int, lz as int));
    proof {
        lemma_ground_range(s0, lx as int, scan_start as int, lz as int);
    }
    if ground < 0 {
        return;
    }
    let cobble = Voxel { id: BLOCK_COBBLESTONE, state: 0, light_sky: 0, light_block: 0 };
    let mut fy: i32 = ground + 1;
    while fy <= scan_start
        invariant
            0 <= ground < fy <= scan_start + 1,
            cobble == block_voxel(BLOCK_COBBLESTONE),
            scan_start == base_y - 1,
            2 <= base_y <= 252,
            ground == ground_below(s0, lx as int, base_y - 1, lz as int),
            lx < 16,
            lz < 16,
            lx as int + c.x * 16 == wx,
            lz as int + c.z * 16 == wz,
            chunk.wf(),
            chunk.spec_pos() == c,
            s0.len() == CHUNK_VOLUME,
            forall|ax: int, ay: int, az: int|
                in_chunk(ax, ay, az) ==> #[trigger] chunk.cells()[voxel_index(ax, ay, az)] == if ax == lx && az == lz
                    && ground < ay < fy {
                    block_voxel(BLOCK_COBBLESTONE)
                } else {
                    s0[voxel_index(ax, ay, az)]
                },
        decreases scan_start + 1 - fy,
    {
        let ghost before = chunk.cells();
        chunk.set_voxel(lx, fy as usize, lz, cobble);
        proof {
            assert(chunk.cells() == before.update(voxel_index(lx as int, fy as int, lz as int), block_voxel(BLOCK_COBBLESTONE)));
            assert forall|ax: int, ay: int, az: int| in_chunk(ax, ay, az) implies #[trigger] chunk.cells()[voxel_index(ax, ay, az)] == if ax == lx && az == lz
                && ground < ay < fy + 1 {
                block_voxel(BLOCK_COBBLESTONE)
            } else {
                s0[voxel_index(ax, ay, az)]
            } by {
                crate::chunk::lemma_voxel_index_bounds(ax, ay, az);
                crate::chunk::lemma_voxel_index_bounds(lx as int, fy as int, lz as int);
                if voxel_index(ax, ay, az) == voxel_index(lx as int, fy as int, lz as int) {
                    crate::chunk::lemma_voxel_index_injective(ax, ay, az, lx as int, fy as int, lz as int);
                }
                assert(before[voxel_index(ax, ay, az)] == (if ax == lx && az == lz && ground < ay < fy {
                    block_voxel(BLOCK_COBBLESTONE)
                } else {
                    s0[voxel_index(ax, ay, az)]
                }));
            }
        }
        fy = fy + 1;
    }
}

/// Foundation status of a cell after the first `k` columns of the footprint (z outer, x
/// inner) are filled.
pub open spec fn foundation_done(old_cells: Seq<Voxel>, cells: Seq<Voxel>, c: ChunkPos, sx: int, sz: int, base_y: int, k: int, lx: int, ly: int, lz: int) -> bool {
    let dx = lx + c.x * 16 - sx;
    let dz = lz + c.z * 16 - sz;
    cells[voxel_index(lx, ly, lz)] == if 0 <= dx < 5 && 0 <= dz < 5 && dz * 5 + dx < k && ly < base_y && 0
        <= ground_below(old_cells, lx, base_y - 1, lz) < ly {
        block_voxel(BLOCK_COBBLESTONE)
    } else {
        old_cells[voxel_index(lx, ly, lz)]
    }
}

/// Fill the foundation under the whole footprint with corner (origin_x, origin_z).
fn fill_ruin_foundation(chunk: &mut Chunk, base_y: i32, origin_x: i32, origin_z: i32)
    requires
        old(chunk).wf(),
        chunk_fits(old(chunk).spec_pos()),
        2 <= base_y <= 252,
        origin_x + 4 <= i32::MAX,
        origin_z + 4 <= i32::MAX,
    ensures
        final(chunk).wf(),
        final(chunk).spec_pos() == old(chunk).spec_pos(),
        forall|lx: int, ly: int, lz: int|
            in_chunk(lx, ly, lz) ==> #[trigger] foundation_done(
                old(chunk).cells(),
                final(chunk).cells(),
                old(chunk).spec_pos(),
                origin_x as int,
                origin_z as int,
                base_y as int,
                25,
                lx,
                ly,
                lz,
            ),
{
    let ghost s0 = chunk.cells();
    let ghost c = chunk.spec_pos();
    if base_y <= 0 {
        return;
    }
    let ghost mut k: int = 0;
    let mut dz: i32 = 0;
    while dz < RUIN_SIZE
        invariant
            0 <= dz <= 5,
            k == dz * 5,
            chunk.wf(),
            chunk.spec_pos() == c,
            chunk_fits(c),
            s0.len() == CHUNK_VOLUME,
            2 <= base_y <= 252,
            origin_x + 4 <= i32::MAX,
            origin_z + 4 <= i32::MAX,
            forall|lx: int, ly: int, lz: int|
                in_chunk(lx, ly, lz) ==> #[trigger] foundation_done(s0, chunk.cells(), c, origin_x as int, origin_z as int, base_y as int, k, lx, ly, lz),
        decreases 5 - dz,
    {
        let mut dx: i32 = 0;
        while dx < RUIN_SIZE
            invariant
                0 <= dz < 5,
                0 <= dx <= 5,
                k == dz * 5 + dx,
                chunk.wf(),
                chunk.spec_pos() == c,
                chunk_fits(c),
                s0.len() == CHUNK_VOLUME,
                2 <= base_y <= 252,
                origin_x + 4 <= i32::MAX,
                origin_z + 4 <= i32::MAX,
                forall|lx: int, ly: int, lz: int|
                    in_chunk(lx, ly, lz) ==> #[trigger] foundation_done(s0, chunk.cells(), c, origin_x as int, origin_z as int, base_y as int, k, lx, ly, lz),
            decreases 5 - dx,
        {
            let ghost before = chunk.cells();
            let wx = origin_x + dx;
            let wz = origin_z + dz;
            fill_foundation_column(chunk, base_y, wx, wz);
            proof {
                assert forall|lx: int, ly: int, lz: int| in_chunk(lx, ly, lz) implies #[trigger] foundation_done(
                    s0, chunk.cells(), c, origin_x as int, origin_z as int, base_y as int, k + 1, lx, ly, lz) by {
                    assert(foundation_done(s0, before, c, origin_x as int, origin_z as int, base_y as int, k, lx, ly, lz));
                    if lx + c.x * 16 == wx && lz + c.z * 16 == wz {
                        assert forall|yy: int| 0 <= yy <= base_y - 1 implies #[trigger] before[voxel_index(lx, yy, lz)]
                            == s0[voxel_index(lx, yy, lz)] by {
                            assert(foundation_done(s0, before, c, origin_x as int, origin_z as int, base_y as int, k, lx, yy, lz));
                        }
                        lemma_ground_same(before, s0, lx, base_y - 1, lz);
                    }
                }
                k = k + 1;
            }
            dx = dx + 1;
        }
        dz = dz + 1;
    }
}

/// Interior status of a cell after the first `k` interior cells (layer outer, then z, then
/// x) are cleared.
pub open spec fn interior_done(prev: Seq<Voxel>, cells: Seq<Voxel>, c: ChunkPos, sx: int, sz: int, base_y: int, k: int, lx: int, ly: int, lz: int) -> bool {
    let dx = lx + c.x * 16 - sx;
    let dz = lz + c.z * 16 - sz;
    let dy = ly - base_y;
    cells[voxel_index(lx, ly, lz)] == if 1 <= dx <= 3 && 1 <= dz <= 3 && 1 <= dy <= 3 && (dy - 1) * 9 + (dz - 1) * 3 + (dx
        - 1) < k {
        air_voxel()
    } else {
        prev[voxel_index(lx, ly, lz)]
    }
}

/// Clear the three layers above the floor inside the walls.
fn clear_interior(chunk: &mut Chunk, base_y: i32, start_x: i32, start_z: i32)
    requires
        old(chunk).wf(),
        chunk_fits(old(chunk).spec_pos()),
        2 <= base_y <= 252,
        start_x + 4 <= i32::MAX,
        start_z + 4 <= i32::MAX,
    ensures
        final(chunk).wf(),
        final(chunk).spec_pos() == old(chunk).spec_pos(),
        forall|lx: int, ly: int, lz: int|
            in_chunk(lx, ly, lz) ==> #[trigger] interior_done(
                old(chunk).cells(),
                final(chunk).cells(),
                old(chunk).spec_pos(),
                start_x as int,
                start_z as int,
                base_y as int,
                27,
                lx,
                ly,
                lz,
            ),
{
    let ghost s0 = chunk.cells();
    let ghost c = chunk.spec_pos();
    let air = Voxel { id: BLOCK_AIR, state: 0, light_sky: 0, light_block: 0 };
    let ghost mut k: int = 0;
    let mut dy: i32 = 1;
    while dy <= RUIN_WALL_HEIGHT
        invariant
            1 <= dy <= 4,
            k == (dy - 1) * 9,
            air == air_voxel(),
            chunk.wf(),
            chunk.spec_pos() == c,
            chunk_fits(c),
            s0.len() == CHUNK_VOLUME,
            2 <= base_y <= 252,
            start_x + 4 <= i32::MAX,
            start_z + 4 <= i32::MAX,
            forall|lx: int, ly: int, lz: int|
                in_chunk(lx, ly, lz) ==> #[trigger] interior_done(s0, chunk.cells(), c, start_x as int, start_z as int, base_y as int, k, lx, ly, lz),
        decreases 4 - dy,
    {
        let world_y = base_y + dy;
        let mut dz: i32 = 1;
        while dz < RUIN_SIZE - 1
            invariant
                1 <= dy <= 3,
                1 <= dz <= 4,
                k == (dy - 1) * 9 + (dz - 1) * 3,
                world_y == base_y + dy,
                air == air_voxel(),
                chunk.wf(),
                chunk.spec_pos() == c,
                chunk_fits(c),
                s0.len() == CHUNK_VOLUME,
                2 <= base_y <= 252,
                start_x + 4 <= i32::MAX,
                start_z + 4 <= i32::MAX,
                forall|lx: int, ly: int, lz: int|
                    in_chunk(lx, ly, lz) ==> #[trigger] interior_done(s0, chunk.cells(), c, start_x as int, start_z as int, base_y as int, k, lx, ly, lz),
            decreases 4 - dz,
        {
            let world_z = start_z + dz;
            let mut dx: i32 = 1;
            while dx < RUIN_SIZE - 1
                invariant
                    1 <= dy <= 3,
                    1 <= dz <= 3,
                    1 <= dx <= 4,
                    k == (dy - 1) * 9 + (dz - 1) * 3 + (dx - 1),
                    world_y == base_y + dy,
                    world_z == start_z + dz,
                    air == air_voxel(),
                    chunk.wf(),
                    chunk.spec_pos() == c,
                    chunk_fits(c),
                    s0.len() == CHUNK_VOLUME,
                    2 <= base_y <= 252,
                    start_x + 4 <= i32::MAX,
                    start_z + 4 <= i32::MAX,
                    forall|lx: int, ly: int, lz: int|
                        in_chunk(lx, ly, lz) ==> #[trigger] interior_done(s0, chunk.cells(), c, start_x as int, start_z as int, base_y as int, k, lx, ly, lz),
                decreases 4 - dx,
            {
                let ghost before = chunk.cells();
                let world_x = start_x + dx;
                set_axis_voxel(chunk, true, world_x, world_y, world_z, air);
                proof {
                    assert forall|lx: int, ly: int, lz: int| in_chunk(lx, ly, lz) implies #[trigger] interior_done(
                        s0, chunk.cells(), c, start_x as int, start_z as int, base_y as int, k + 1, lx, ly, lz) by {
                        assert(interior_done(s0, before, c, start_x as int, start_z as int, base_y as int, k, lx, ly, lz));
                    }
                    k = k + 1;
                }
                dx = dx + 1;
            }
            dz = dz + 1;
        }
        dy = dy + 1;
    }
}

/// Floor status of a cell after the first `k` floor cells (z outer, x inner) are placed.
pub open spec fn floor_done(prev: Seq<Voxel>, cells: Seq<Voxel>, c: ChunkPos, sx: int, sz: int, base_y: int, floor: Seq<bool>, k: int, lx: int, ly: int, lz: int) -> bool {
    let dx = lx + c.x * 16 - sx;
    let dz = lz + c.z * 16 - sz;
    let v = cells[voxel_index(lx, ly, lz)];
    if 0 <= dx < 5 && 0 <= dz < 5 && ly == base_y && dz * 5 + dx < k {
        v == floor_voxel(floor, dz * 5 + dx)
    } else {
        v == prev[voxel_index(lx, ly, lz)]
    }
}

/// The floor block for footprint cell `k` (z outer, x inner): cobblestone where the draw
/// says so, stone bricks otherwise.
pub open spec fn floor_voxel(floor: Seq<bool>, k: int) -> Voxel {
    block_voxel(if floor[k] { BLOCK_COBBLESTONE } else { BLOCK_STONE_BRICKS })
}

/// Lay the floor: cell `k` of the footprint (z outer, x inner) cobblestone where `floor[k]`,
/// stone bricks otherwise.
fn place_floor(chunk: &mut Chunk, floor: &Vec<bool>, base_y: i32, start_x: i32, start_z: i32)
    requires
        floor@.len() == 25,
        old(chunk).wf(),
        chunk_fits(old(chunk).spec_pos()),
        2 <= base_y <= 252,
        start_x + 4 <= i32::MAX,
        start_z + 4 <= i32::MAX,
    ensures
        final(chunk).wf(),
        final(chunk).spec_pos() == old(chunk).spec_pos(),
        forall|lx: int, ly: int, lz: int|
            in_chunk(lx, ly, lz) ==> #[trigger] floor_done(
                old(chunk).cells(),
                final(chunk).cells(),
                old(chunk).spec_pos(),
                start_x as int,
                start_z as int,
                base_y as int,
                floor@,
                25,
                lx,
                ly,
                lz,
            ),
{
    let ghost s0 = chunk.cells();
    let ghost c = chunk.spec_pos();
    let ghost mut k: int = 0;
    let mut dz: i32 = 0;
    while dz < RUIN_SIZE
        invariant
            0 <= dz <= 5,
            k == dz * 5,
            chunk.wf(),
            chunk.spec_pos() == c,
            chunk_fits(c),
            s0.len() == CHUNK_VOLUME,
            floor@.len() == 25,
            2 <= base_y <= 252,
            start_x + 4 <= i32::MAX,
            start_z + 4 <= i32::MAX,
            forall|lx: int, ly: int, lz: int|
                in_chunk(lx, ly, lz) ==> #[trigger] floor_done(s0, chunk.cells(), c, start_x as int, start_z as int, base_y as int, floor@, k, lx, ly, lz),
        decreases 5 - dz,
    {
        let world_z = start_z + dz;
        let mut dx: i32 = 0;
        while dx < RUIN_SIZE
            invariant
                0 <= dz < 5,
                0 <= dx <= 5,
                k == dz * 5 + dx,
                world_z == start_z + dz,
                chunk.wf(),
                chunk.spec_pos() == c,
                chunk_fits(c),
                s0.len() == CHUNK_VOLUME,
                floor@.len() == 25,
                2 <= base_y <= 252,
                start_x + 4 <= i32::MAX,
                start_z + 4 <= i32::MAX,
                forall|lx: int, ly: int, lz: int|
                    in_chunk(lx, ly, lz) ==> #[trigger] floor_done(s0, chunk.cells(), c, start_x as int, start_z as int, base_y as int, floor@, k, lx, ly, lz),
            decreases 5 - dx,
        {
            let ghost before = chunk.cells();
            let world_x = start_x + dx;
            let id = if floor[(dz * RUIN_SIZE + dx) as usize] {
                BLOCK_COBBLESTONE
            } else {
                BLOCK_STONE_BRICKS
            };
            set_axis_voxel(chunk, true, world_x, base_y, world_z, Voxel { id, state: 0, light_sky: 0, light_block: 0 });
            proof {
                assert forall|lx: int, ly: int, lz: int| in_chunk(lx, ly, lz) implies #[trigger] floor_done(
                    s0, chunk.cells(), c, start_x as int, start_z as int, base_y as int, floor@, k + 1, lx, ly, lz) by {
                    assert(floor_done(s0, before, c, start_x as int, start_z as int, base_y as int, floor@, k, lx, ly, lz));
                }
                k = k + 1;
            }
            dx = dx + 1;
        }
        dz = dz + 1;
    }
}

/// Whether footprint offset (dx, dz) lies on the walls.
pub open spec fn on_wall(dx: int, dz: int) -> bool {
    dx == 0 || dz == 0 || dx == 4 || dz == 4
}

/// Wall status of a cell after the first `k` cells of the three wall layers (layer outer,
/// then z, then x) are visited.
pub open spec fn walls_done(prev: Seq<Voxel>, cells: Seq<Voxel>, c: ChunkPos, sx: int, sz: int, base_y: int, walls: Seq<u8>, k: int, lx: int, ly: int, lz: int) -> bool {
    let dx = lx + c.x * 16 - sx;
    let dz = lz + c.z * 16 - sz;
    let dy = ly - base_y;
    let v = cells[voxel_index(lx, ly, lz)];
    let p = prev[voxel_index(lx, ly, lz)];
    if 0 <= dx < 5 && 0 <= dz < 5 && 1 <= dy <= 3 && on_wall(dx, dz) && (dy - 1) * 25 + dz * 5 + dx < k {
        v == wall_voxel(walls, (dy - 1) * 25 + dz * 5 + dx, p)
    } else {
        v == p
    }
}

/// What wall cell `k` (layer outer, then z, then x) holds after building over `old_v`: the
/// old voxel for draw 0 (a gap), moss for draw 1, stone bricks for any other draw.
pub open spec fn wall_voxel(walls: Seq<u8>, k: int, old_v: Voxel) -> Voxel {
    if walls[k] == 0 {
        old_v
    } else if walls[k] == 1 {
        block_voxel(BLOCK_MOSS_BLOCK)
    } else {
        block_voxel(BLOCK_STONE_BRICKS)
    }
}

/// Raise the walls: wall cell `k` (layer outer, then z, then x) is left as it is where
/// `walls[k]` is 0, set to moss where it is 1 and to stone bricks otherwise.
fn place_walls(chunk: &mut Chunk, walls: &Vec<u8>, base_y: i32, start_x: i32, start_z: i32)
    requires
        walls@.len() == 75,
        old(chunk).wf(),
        chunk_fits(old(chunk).spec_pos()),
        2 <= base_y <= 252,
        start_x + 4 <= i32::MAX,
        start_z + 4 <= i32::MAX,
    ensures
        final(chunk).wf(),
        final(chunk).spec_pos() == old(chunk).spec_pos(),
        forall|lx: int, ly: int, lz: int|
            in_chunk(lx, ly, lz) ==> #[trigger] walls_done(
                old(chunk).cells(),
                final(chunk).cells(),
                old(chunk).spec_pos(),
                start_x as int,
                start_z as int,
                base_y as int,
                walls@,
                75,
                lx,
                ly,
                lz,
            ),
{
    let ghost s0 = chunk.cells();
    let ghost c = chunk.spec_pos();
    let ghost mut k: int = 0;
    let mut dy: i32 = 1;
    while dy <= RUIN_WALL_HEIGHT
        invariant
            1 <= dy <= 4,
            k == (dy - 1) * 25,
            chunk.wf(),
            chunk.spec_pos() == c,
            chunk_fits(c),
            s0.len() == CHUNK_VOLUME,
                    walls@.len() == 75,
            2 <= base_y <= 252,
            start_x + 4 <= i32::MAX,
            start_z + 4 <= i32::MAX,
            forall|lx: int, ly: int, lz: int|
                in_chunk(lx, ly, lz) ==> #[trigger] walls_done(s0, chunk.cells(), c, start_x as int, start_z as int, base_y as int, walls@, k, lx, ly, lz),
        decreases 4 - dy,
    {
        let world_y = base_y + dy;
        let mut dz: i32 = 0;
        while dz < RUIN_SIZE
            invariant
                1 <= dy <= 3,
                0 <= dz <= 5,
                k == (dy - 1) * 25 + dz * 5,
                world_y == base_y + dy,
                chunk.wf(),
                chunk.spec_pos() == c,
                chunk_fits(c),
                s0.len() == CHUNK_VOLUME,
                    walls@.len() == 75,
                2 <= base_y <= 252,
                start_x + 4 <= i32::MAX,
                start_z + 4 <= i32::MAX,
                forall|lx: int, ly: int, lz: int|
                    in_chunk(lx, ly, lz) ==> #[trigger] walls_done(s0, chunk.cells(), c, start_x as int, start_z as int, base_y as int, walls@, k, lx, ly, lz),
            decreases 5 - dz,
        {
            let world_z = start_z + dz;
            let mut dx: i32 = 0;
            while dx < RUIN_SIZE
                invariant
                    1 <= dy <= 3,
                    0 <= dz < 5,
                    0 <= dx <= 5,
                    k == (dy - 1) * 25 + dz * 5 + dx,
                    world_y == base_y + dy,
                    world_z == start_z + dz,
                    chunk.wf(),
                    chunk.spec_pos() == c,
                    chunk_fits(c),
                    s0.len() == CHUNK_VOLUME,
                    walls@.len() == 75,
                    2 <= base_y <= 252,
                    start_x + 4 <= i32::MAX,
                    start_z + 4 <= i32::MAX,
                    forall|lx: int, ly: int, lz: int|
                        in_chunk(lx, ly, lz) ==> #[trigger] walls_done(s0, chunk.cells(), c, start_x as int, start_z as int, base_y as int, walls@, k, lx, ly, lz),
                decreases 5 - dx,
            {
                let ghost before = chunk.cells();
                let world_x = start_x + dx;
                let is_boundary = dx == 0 || dz == 0 || dx + 1 == RUIN_SIZE || dz + 1 == RUIN_SIZE;
                let draw = walls[((dy - 1) * 25 + dz * RUIN_SIZE + dx) as usize];
                if is_boundary && draw != 0 {
                    let id = if draw == 1 {
                        BLOCK_MOSS_BLOCK
                    } else {
                        BLOCK_STONE_BRICKS
                    };
                    set_axis_voxel(chunk, true, world_x, world_y, world_z, Voxel { id, state: 0, light_sky: 0, light_block: 0 });
                }
                proof {
                    assert forall|lx: int, ly: int, lz: int| in_chunk(lx, ly, lz) implies #[trigger] walls_done(
                        s0, chunk.cells(), c, start_x as int, start_z as int, base_y as int, walls@, k + 1, lx, ly, lz) by {
                        assert(walls_done(s0, before, c, start_x as int, start_z as int, base_y as int, walls@, k, lx, ly, lz));
                    }
                    k = k + 1;
                }
                dx = dx + 1;
            }
            dz = dz + 1;
        }
        dy = dy + 1;
    }
}

/// What a ruin built from its draws leaves at a chunk cell. In the footprint: below the
/// floor, cobblestone from the column's ground up to the floor (nothing where the column has
/// no ground); on the floor, floor cell `k` (z outer, x inner) is `floor_voxel(floor, k)`;
/// in the three layers above it, air inside the walls except the chest at the center of the
/// first layer, and wall cell `k` (layer outer, then z, then x) `wall_voxel(walls, k, old)`.
/// Everything else keeps its old voxel.
pub open spec fn ruin_cell_exact(
    old_cells: Seq<Voxel>,
    cells: Seq<Voxel>,
    c: ChunkPos,
    sx: int,
    sz: int,
    base_y: int,
    floor: Seq<bool>,
    walls: Seq<u8>,
    lx: int,
    ly: int,
    lz: int,
) -> bool {
    let dx = lx + c.x * 16 - sx;
    let dz = lz + c.z * 16 - sz;
    let old_v = old_cells[voxel_index(lx, ly, lz)];
    let v = cells[voxel_index(lx, ly, lz)];
    if !(0 <= dx < 5 && 0 <= dz < 5) {
        v == old_v
    } else if ly < base_y {
        let g = ground_below(old_cells, lx, base_y - 1, lz);
        v == if 0 <= g < ly {
            block_voxel(BLOCK_COBBLESTONE)
        } else {
            old_v
        }
    } else if ly == base_y {
        v == floor_voxel(floor, dz * 5 + dx)
    } else if ly <= base_y + 3 {
        if 1 <= dx <= 3 && 1 <= dz <= 3 {
            v == if dx == 2 && dz == 2 && ly == base_y + 1 {
                block_voxel(interactive_blocks::CHEST)
            } else {
                air_voxel()
            }
        } else {
            v == wall_voxel(walls, (ly - base_y - 1) * 25 + dz * 5 + dx, old_v)
        }
    } else {
        v == old_v
    }
}

/// The chunk holds the ruin with footprint corner (sx, sz), floor `base_y` and the given
/// floor and wall draws, built over its old voxels.
pub open spec fn ruin_built_from(
    old_cells: Seq<Voxel>,
    cells: Seq<Voxel>,
    c: ChunkPos,
    sx: int,
    sz: int,
    base_y: int,
    floor: Seq<bool>,
    walls: Seq<u8>,
) -> bool {
    &&& cells.len() == CHUNK_VOLUME
    &&& forall|lx: int, ly: int, lz: int|
        in_chunk(lx, ly, lz) ==> #[trigger] ruin_cell_exact(old_cells, cells, c, sx, sz, base_y, floor, walls, lx, ly, lz)
}

/// Draw a ruin's blocks from its region's stream, in the order they are placed: for each
/// floor cell (z outer, x inner) cobblestone with one chance in five; then for each cell of
/// the three wall layers (layer outer, then z, then x) that lies on the walls, a gap (0)
/// with one chance in four, else moss (1) with one chance in six, else stone bricks (2).
/// Cells inside the walls draw nothing and hold 0.
fn draw_ruin_blocks(rng: &mut SeededStream) -> (res: (Vec<bool>, Vec<u8>))
    ensures
        res.0@.len() == 25,
        res.1@.len() == 75,
        forall|k: int| 0 <= k < 75 ==> #[trigger] res.1@[k] <= 2,
        res.0@ == ruin_floor_draws(old(rng)@.0, old(rng)@.1, 25),
        res.1@ == ruin_wall_draws(old(rng)@.0, floor_history(old(rng)@.1, 25), 75).0,
        final(rng)@ == (old(rng)@.0, ruin_wall_draws(old(rng)@.0, floor_history(old(rng)@.1, 25), 75).1),
{
    let ghost seed = rng@.0;
    let ghost h0 = rng@.1;
    let mut floor: Vec<bool> = Vec::new();
    let mut k: usize = 0;
    while k < 25
        invariant
            k <= 25,
            floor@.len() == k,
            rng@ == (seed, floor_history(h0, k as int)),
            floor@ == ruin_floor_draws(seed, h0, k as int),
        decreases 25 - k,
    {
        let b = gen_ratio(rng, 1, 5);
        floor.push(b);
        proof {
            assert(floor_history(h0, k as int).push(req_ratio(1, 5)) =~= floor_history(h0, k + 1));
        }
        k = k + 1;
    }
    let ghost hf = floor_history(h0, 25);
    let mut walls: Vec<u8> = Vec::new();
    let mut k: usize = 0;
    while k < 75
        invariant
            k <= 75,
            walls@.len() == k,
            forall|j: int| 0 <= j < k ==> #[trigger] walls@[j] <= 2,
            (walls@, rng@.1) == ruin_wall_draws(seed, hf, k as int),
            rng@.0 == seed,
        decreases 75 - k,
    {
        let ghost hk = rng@.1;
        let in_layer = k % 25;
        let dz = in_layer / 5;
        let dx = in_layer % 5;
        let draw: u8 = if dx == 0 || dz == 0 || dx == 4 || dz == 4 {
            if gen_ratio(rng, 1, 4) {
                0
            } else if gen_ratio(rng, 1, 6) {
                1
            } else {
                2
            }
        } else {
            0
        };
        proof {
            assert(wall_step(seed, hk, k as int).0 == draw && wall_step(seed, hk, k as int).1 == rng@.1);
        }
        walls.push(draw);
        k = k + 1;
    }
    (floor, walls)
}

/// Build a ruin with footprint corner (`start_x`, `start_z`) and floor `base_y` in a chunk
/// from its floor and wall draws: the foundation under the footprint, the interior cleared,
/// the floor and walls laid as the draws say, and the chest at the center. Only the part in
/// this chunk is written.
pub fn build_ruin(chunk: &mut Chunk, base_y: i32, start_x: i32, start_z: i32, floor: &Vec<bool>, walls: &Vec<u8>)
    requires
        old(chunk).wf(),
        chunk_fits(old(chunk).spec_pos()),
        2 <= base_y <= 252,
        start_x + 4 <= i32::MAX,
        start_z + 4 <= i32::MAX,
        floor@.len() == 25,
        walls@.len() == 75,
    ensures
        final(chunk).wf(),
        final(chunk).spec_pos() == old(chunk).spec_pos(),
        ruin_built_from(
            old(chunk).cells(),
            final(chunk).cells(),
            old(chunk).spec_pos(),
            start_x as int,
            start_z as int,
            base_y as int,
            floor@,
            walls@,
        ),
{
    let ghost s0 = chunk.cells();
    let ghost chunk_pos = chunk.spec_pos();
    fill_ruin_foundation(chunk, base_y, start_x, start_z);
    let ghost s1 = chunk.cells();
    clear_interior(chunk, base_y, start_x, start_z);
    let ghost s2 = chunk.cells();
    place_floor(chunk, floor, base_y, start_x, start_z);
    let ghost s3 = chunk.cells();
    place_walls(chunk, walls, base_y, start_x, start_z);
    let ghost s4 = chunk.cells();
    let chest = Voxel { id: interactive_blocks::CHEST, state: 0, light_sky: 0, light_block: 0 };
    set_axis_voxel(chunk, true, start_x + 2, base_y + 1, start_z + 2, chest);
    proof {
        let sx = start_x as int;
        let sz = start_z as int;
        let b = base_y as int;
        assert forall|lx: int, ly: int, lz: int| in_chunk(lx, ly, lz) implies #[trigger] ruin_cell_exact(
            s0, chunk.cells(), chunk_pos, sx, sz, b, floor@, walls@, lx, ly, lz) by {
            assert(foundation_done(s0, s1, chunk_pos, sx, sz, b, 25, lx, ly, lz));
            assert(interior_done(s1, s2, chunk_pos, sx, sz, b, 27, lx, ly, lz));
            assert(floor_done(s2, s3, chunk_pos, sx, sz, b, floor@, 25, lx, ly, lz));
            assert(walls_done(s3, s4, chunk_pos, sx, sz, b, walls@, 75, lx, ly, lz));
            assert(chunk.cells()[voxel_index(lx, ly, lz)] == chunk.cells()[voxel_index(lx, ly, lz)]);
        }
    }
}

/// Same seed, same ruin: two generations in the same chunk for the same world seed, with
/// the same terrain height answered for the ruin's center and the same village box for the
/// region, report the same and leave the same chunk.
pub proof fn law_ruin_same_seed_same_chunk<H: Fn(i32, i32) -> i32>(
    old_cells: Seq<Voxel>,
    a: Seq<Voxel>,
    b: Seq<Voxel>,
    c: ChunkPos,
    world_seed: u64,
    terrain_height: H,
    village: Option<StructureBounds>,
    h: i32,
    generated_a: bool,
    generated_b: bool,
)
    requires
        ruin_outcome(old_cells, a, c, world_seed, terrain_height, village, h, generated_a),
        ruin_outcome(old_cells, b, c, world_seed, terrain_height, village, h, generated_b),
    ensures
        generated_a == generated_b,
        a == b,
{
    if generated_a {
        let (sx, sz) = ruin_start(world_seed, (c.x / 8) as i32, (c.z / 8) as i32);
        let blocks = ruin_blocks(world_seed, (c.x / 8) as i32, (c.z / 8) as i32);
        let by = spec_ruin_base_y(h as int);
        assert forall|x: int, y: int, z: int| in_chunk(x, y, z) implies a[voxel_index(x, y, z)] == #[trigger] b[voxel_index(
            x,
            y,
            z,
        )] by {
            assert(ruin_cell_exact(old_cells, a, c, sx, sz, by, blocks.0, blocks.1, x, y, z));
            assert(ruin_cell_exact(old_cells, b, c, sx, sz, by, blocks.0, blocks.1, x, y, z));
        }
        crate::chunk::lemma_cells_ext(a, b);
    }
}

impl RuinGenerator {
    /// The world seed the generator draws from.
    pub closed spec fn seed(&self) -> u64 {
        self.world_seed
    }

    /// A generator for the given world seed.
    pub fn new(world_seed: u64) -> (res: Self)
        ensures
            res.seed() == world_seed,
    {
        RuinGenerator { world_seed }
    }

    /// Generate the part of its region's ruin that falls in this chunk. `terrain_height`
    /// gives the terrain height of a world column (the ruin's floor follows it at the ruin's
    /// center, and the region's village at the village center). Returns whether the ruin's
    /// box avoids the region's village and meets the chunk; the chunk is unchanged when it
    /// does not.
    pub fn try_generate_ruin<H: Fn(i32, i32) -> i32 + Copy>(&self, chunk: &mut Chunk, terrain_height: H) -> (res: bool)
        requires
            old(chunk).wf(),
            chunk_fits(old(chunk).spec_pos()),
            forall|x: i32, z: i32| call_requires(terrain_height, (x, z)),
        ensures
            final(chunk).wf(),
            final(chunk).spec_pos() == old(chunk).spec_pos(),
            exists|h: i32, village: Option<StructureBounds>|
                #[trigger] ruin_outcome(
                    old(chunk).cells(),
                    final(chunk).cells(),
                    old(chunk).spec_pos(),
                    self.seed(),
                    terrain_height,
                    village,
                    h,
                    res,
                ) && village_bounds_result(
                    self.seed(),
                    (old(chunk).spec_pos().x as int / 8) as i32,
                    (old(chunk).spec_pos().z as int / 8) as i32,
                    terrain_height,
                    village,
                ),
    {
        let ghost s0 = chunk.cells();
        let chunk_pos = chunk.position();
        let (region_x, region_z) = region_coords_for_chunk(chunk_pos);
        proof {
            crate::mineshaft::lemma_chunk_region_fits(chunk_pos);
        }
        let ((start_x, start_z), mut rng) = ruin_origin(self.world_seed, region_x, region_z);
        assert(region_x == (chunk_pos.x / 8) as i32 && region_z == (chunk_pos.z / 8) as i32);
        let h = terrain_height(start_x + 2, start_z + 2);
        let base_y = ruin_base_y(h);
        let bounds = ruin_bounds(start_x, start_z, base_y);
        let village_bounds = village_bounds_for_region(self.world_seed, region_x, region_z, terrain_height);
        if !avoids_village(bounds, village_bounds) || !bounds.intersects_chunk(chunk_pos) {
            assert(ruin_outcome(s0, chunk.cells(), chunk_pos, self.seed(), terrain_height, village_bounds, h, false) && village_bounds_result(self.seed(), (chunk_pos.x as int / 8) as i32, (chunk_pos.z as int / 8) as i32, terrain_height, village_bounds));
            return false;
        }
        let (floor, walls) = draw_ruin_blocks(&mut rng);
        build_ruin(chunk, base_y, start_x, start_z, &floor, &walls);
        proof {
            assert(ruin_outcome(s0, chunk.cells(), chunk_pos, self.seed(), terrain_height, village_bounds, h, true) && village_bounds_result(self.seed(), (chunk_pos.x as int / 8) as i32, (chunk_pos.z as int / 8) as i32, terrain_height, village_bounds));
        }
        true
    }
}

} // verus!
