//! Villages: in one structure region out of five on average, a well, a small farm and two
//! houses joined by gravel paths, laid out around a center drawn from the region's seeded
//! random stream.

use crate::chunk::{in_chunk, voxel_index, BlockId, Chunk, ChunkPos, Voxel, BLOCK_AIR, BLOCK_CARROTS, BLOCK_COBBLESTONE, BLOCK_CRAFTING_TABLE, BLOCK_DIRT, BLOCK_FARMLAND_WET, BLOCK_GRAVEL, BLOCK_OAK_LOG, BLOCK_OAK_PLANKS, BLOCK_POTATOES, BLOCK_WATER, BLOCK_WHEAT, CHUNK_SIZE_Y, CHUNK_VOLUME};
use crate::interaction::{spec_facing_bits, Facing};
use crate::interactive_blocks;
use crate::rng::{gen_range_exclusive, gen_range_inclusive, gen_ratio, exclusive_draw, inclusive_draw, ratio_draw, req_exclusive, req_inclusive, req_ratio};
use crate::rng::SeededStream;
use crate::ruin::{block_voxel, ground_below, is_ground, lemma_ground_range, lemma_ground_same};
use crate::mineshaft::{box_meets_chunk, region_fits};
use crate::rng::seeded_rng;
use crate::structures::{chunk_fits, lemma_world_set_cell, region_coords_for_chunk, region_seed, region_world_bounds, set_world_voxel_if_in_chunk, spec_region_seed, world_to_chunk_local, StructureBounds};
use vstd::prelude::*;

verus! {

/// Salt mixed into a region's seed for villages ("VILLAGE").
pub const VILLAGE_SEED_SALT: u64 = 0x56_49_4C_4C_41_47_45;

/// One region in this many, by seed, has a village.
pub const VILLAGE_REGION_MODULUS: u64 = 5;

const HOUSE_SIZE: i32 = 7;
const HOUSE_HEIGHT: i32 = 5;
const WELL_SIZE: i32 = 5;
const FARM_SIZE_X: i32 = 7;
const FARM_SIZE_Z: i32 = 5;

/// Generates at most one village per structure region.
#[derive(Debug, Clone, Copy)]
pub struct VillageGenerator {
    world_seed: u64,
}

/// Whether world cell (x, y, z) lies in the box [x0, x1] × [y0, y1] × [z0, z1].
pub open spec fn in_box(x: int, y: int, z: int, x0: int, x1: int, y0: int, y1: int, z0: int, z1: int) -> bool {
    x0 <= x <= x1 && y0 <= y <= y1 && z0 <= z <= z1
}

/// Whether (x, y, z) comes before (px, py, pz) when visiting layer by layer, then row by
/// row.
spec fn visited_before(x: int, y: int, z: int, px: int, py: int, pz: int) -> bool {
    y < py || (y == py && (z < pz || (z == pz && x < px)))
}

/// Write `voxel` at every cell of a world box that lies in the chunk.
fn fill_box(chunk: &mut Chunk, x0: i32, x1: i32, y0: i32, y1: i32, z0: i32, z1: i32, voxel: Voxel)
    requires
        old(chunk).wf(),
        chunk_fits(old(chunk).spec_pos()),
        x1 < i32::MAX,
        y1 < i32::MAX,
        z1 < i32::MAX,
    ensures
        final(chunk).wf(),
        final(chunk).spec_pos() == old(chunk).spec_pos(),
        forall|lx: int, ly: int, lz: int|
            in_chunk(lx, ly, lz) ==> #[trigger] final(chunk).cells()[voxel_index(lx, ly, lz)] == if in_box(
                lx + old(chunk).spec_pos().x * 16,
                ly,
                lz + old(chunk).spec_pos().z * 16,
                x0 as int,
                x1 as int,
                y0 as int,
                y1 as int,
                z0 as int,
                z1 as int,
            ) {
                voxel
            } else {
                old(chunk).cells()[voxel_index(lx, ly, lz)]
            },
{
    let ghost s0 = chunk.cells();
    let ghost c = chunk.spec_pos();
    let mut y: i32 = y0;
    while y <= y1
        invariant
            y0 <= y,
            y <= y1 + 1 || y1 < y0,
            y1 < i32::MAX,
            x1 < i32::MAX,
            z1 < i32::MAX,
            chunk.wf(),
            chunk.spec_pos() == c,
            chunk_fits(c),
            s0.len() == CHUNK_VOLUME,
            forall|lx: int, ly: int, lz: int|
                in_chunk(lx, ly, lz) ==> #[trigger] chunk.cells()[voxel_index(lx, ly, lz)] == if in_box(
                    lx + c.x * 16,
                    ly,
                    lz + c.z * 16,
                    x0 as int,
                    x1 as int,
                    y0 as int,
                    y1 as int,
                    z0 as int,
                    z1 as int,
                ) && ly < y {
                    voxel
                } else {
                    s0[voxel_index(lx, ly, lz)]
                },
        decreases y1 + 1 - y,
    {
        let mut z: i32 = z0;
        while z <= z1
            invariant
                y0 <= y <= y1,
                z0 <= z,
                z <= z1 + 1 || z1 < z0,
                y1 < i32::MAX,
                x1 < i32::MAX,
                z1 < i32::MAX,
                chunk.wf(),
                chunk.spec_pos() == c,
                chunk_fits(c),
                s0.len() == CHUNK_VOLUME,
                forall|lx: int, ly: int, lz: int|
                    in_chunk(lx, ly, lz) ==> #[trigger] chunk.cells()[voxel_index(lx, ly, lz)] == if in_box(
                        lx + c.x * 16,
                        ly,
                        lz + c.z * 16,
                        x0 as int,
                        x1 as int,
                        y0 as int,
                        y1 as int,
                        z0 as int,
                        z1 as int,
                    ) && visited_before(lx + c.x * 16, ly, lz + c.z * 16, x0 as int, y as int, z as int) {
                        voxel
                    } else {
                        s0[voxel_index(lx, ly, lz)]
                    },
            decreases z1 + 1 - z,
        {
            let mut x: i32 = x0;
            while x <= x1
                invariant
                    y0 <= y <= y1,
                    z0 <= z <= z1,
                    x0 <= x,
                    x <= x1 + 1 || x1 < x0,
                    y1 < i32::MAX,
                    x1 < i32::MAX,
                    z1 < i32::MAX,
                    chunk.wf(),
                    chunk.spec_pos() == c,
                    chunk_fits(c),
                    s0.len() == CHUNK_VOLUME,
                    forall|lx: int, ly: int, lz: int|
                        in_chunk(lx, ly, lz) ==> #[trigger] chunk.cells()[voxel_index(lx, ly, lz)] == if in_box(
                            lx + c.x * 16,
                            ly,
                            lz + c.z * 16,
                            x0 as int,
                            x1 as int,
                            y0 as int,
                            y1 as int,
                            z0 as int,
                            z1 as int,
                        ) && visited_before(lx + c.x * 16, ly, lz + c.z * 16, x as int, y as int, z as int) {
                            voxel
                        } else {
                            s0[voxel_index(lx, ly, lz)]
                        },
                decreases x1 + 1 - x,
            {
                let ghost before = chunk.cells();
                set_world_voxel_if_in_chunk(chunk, x, y, z, voxel);
                proof {
                    assert forall|lx: int, ly: int, lz: int| in_chunk(lx, ly, lz) implies #[trigger] chunk.cells()[voxel_index(lx, ly, lz)]
                        == if in_box(
                        lx + c.x * 16,
                        ly,
                        lz + c.z * 16,
                        x0 as int,
                        x1 as int,
                        y0 as int,
                        y1 as int,
                        z0 as int,
                        z1 as int,
                    ) && visited_before(lx + c.x * 16, ly, lz + c.z * 16, x + 1, y as int, z as int) {
                        voxel
                    } else {
                        s0[voxel_index(lx, ly, lz)]
                    } by {
                        lemma_world_set_cell(before, c, x as int, y as int, z as int, voxel, lx, ly, lz);
                    }
                }
                x = x + 1;
            }
            z = z + 1;
        }
        y = y + 1;
    }
}

/// Foundation fill of one column: in world column (wx, wz), the block `id` from just above
/// the highest ground block below `floor_y` up to `floor_y`; nothing when the column has no
/// ground below the floor or lies outside the chunk.
fn fill_foundation_column(chunk: &mut Chunk, floor_y: i32, wx: i32, wz: i32, id: BlockId)
    requires
        old(chunk).wf(),
        chunk_fits(old(chunk).spec_pos()),
        1 <= floor_y <= 255,
    ensures
        final(chunk).wf(),
        final(chunk).spec_pos() == old(chunk).spec_pos(),
        forall|lx: int, ly: int, lz: int|
            in_chunk(lx, ly, lz) ==> #[trigger] final(chunk).cells()[voxel_index(lx, ly, lz)] == if lx + old(
                chunk,
            ).spec_pos().x * 16 == wx && lz + old(chunk).spec_pos().z * 16 == wz && ly <= floor_y && 0 <= ground_below(
                old(chunk).cells(),
                lx,
                floor_y - 1,
                lz,
            ) < ly {
                block_voxel(id)
            } else {
                old(chunk).cells()[voxel_index(lx, ly, lz)]
            },
{
    let ghost s0 = chunk.cells();
    let ghost c = chunk.spec_pos();
    let chunk_pos = chunk.position();
    let (lx, lz) = match world_to_chunk_local(chunk_pos, wx, wz) {
        Some(p) => p,
        None => {
            return;
        },
    };
    let scan_start: i32 = floor_y - 1;
    let mut y: i32 = scan_start;
    let mut ground: i32 = -1;
    while y >= 0
        invariant_except_break
            ground == -1,
            ground_below(s0, lx as int, scan_start as int, lz as int) == ground_below(s0, lx as int, y as int, lz as int),
        invariant
            -1 <= y <= scan_start,
            scan_start == floor_y - 1,
            1 <= floor_y <= 255,
            lx < 16,
            lz < 16,
            chunk.wf(),
            chunk.cells() == s0,
        ensures
            ground == ground_below(s0, lx as int, scan_start as int, lz as int),
        decreases y + 1,
    {
        let v = chunk.voxel(lx, y as usize, lz);
        if v.id != BLOCK_AIR && v.id != BLOCK_WATER {
            ground = y;
            break;
        }
        y = y - 1;
    }
    proof {
        lemma_ground_range(s0, lx as int, scan_start as int, lz as int);
    }
    if ground < 0 {
        return;
    }
    let fill = Voxel { id, state: 0, light_sky: 0, light_block: 0 };
    let mut fy: i32 = ground + 1;
    while fy <= floor_y
        invariant
            0 <= ground < fy <= floor_y + 1,
            fill == block_voxel(id),
            1 <= floor_y <= 255,
            ground == ground_below(s0, lx as int, floor_y - 1, lz as int),
            lx < 16,
            lz < 16,
            lx as int + c.x * 16 == wx,
            lz as int + c.z * 16 == wz,
            chunk.wf(),
            chunk.spec_pos() == c,
            s0.len() == CHUNK_VOLUME,
            forall|ax: int, ay: int, az: int|
                in_chunk(ax, ay, az) ==> #[trigger] chunk.cells()[voxel_index(ax, ay, az)] == if ax == lx && az == lz
                    && ground < ay < fy {
                    block_voxel(id)
                } else {
                    s0[voxel_index(ax, ay, az)]
                },
        decreases floor_y + 1 - fy,
    {
        let ghost before = chunk.cells();
        chunk.set_voxel(lx, fy as usize, lz, fill);
        proof {
            assert forall|ax: int, ay: int, az: int| in_chunk(ax, ay, az) implies #[trigger] chunk.cells()[voxel_index(ax, ay, az)] == if ax == lx && az == lz
                && ground < ay < fy + 1 {
                block_voxel(id)
            } else {
                s0[voxel_index(ax, ay, az)]
            } by {
                crate::chunk::lemma_voxel_index_bounds(ax, ay, az);
                crate::chunk::lemma_voxel_index_bounds(lx as int, fy as int, lz as int);
                if voxel_index(ax, ay, az) == voxel_index(lx as int, fy as int, lz as int) {
                    crate::chunk::lemma_voxel_index_injective(ax, ay, az, lx as int, fy as int, lz as int);
                }
            }
        }
        fy = fy + 1;
    }
}

/// Whether a foundation of block `id` up to `floor_y` under the rectangle with corner
/// (ox, oz) and size (sx, sz) leaves `v` at chunk cell (lx, ly, lz), the chunk having held
/// `prev`.
pub open spec fn foundation_result(prev: Seq<Voxel>, c: ChunkPos, floor_y: int, ox: int, oz: int, sx: int, sz: int, id: BlockId, lx: int, ly: int, lz: int) -> Voxel {
    let dx = lx + c.x * 16 - ox;
    let dz = lz + c.z * 16 - oz;
    if 0 <= dx < sx && 0 <= dz < sz && ly <= floor_y && 0 <= ground_below(prev, lx, floor_y - 1, lz) < ly {
        block_voxel(id)
    } else {
        prev[voxel_index(lx, ly, lz)]
    }
}

/// Fill foundations under every column of a rectangle, each from its own ground up to
/// `floor_y`.
fn fill_foundation_rect(chunk: &mut Chunk, floor_y: i32, ox: i32, oz: i32, sx: i32, sz: i32, id: BlockId)
    requires
        old(chunk).wf(),
        chunk_fits(old(chunk).spec_pos()),
        1 <= floor_y <= 255,
        0 <= sx <= 16,
        0 <= sz <= 16,
        ox + sx <= i32::MAX,
        oz + sz <= i32::MAX,
    ensures
        final(chunk).wf(),
        final(chunk).spec_pos() == old(chunk).spec_pos(),
        forall|lx: int, ly: int, lz: int|
            in_chunk(lx, ly, lz) ==> #[trigger] final(chunk).cells()[voxel_index(lx, ly, lz)] == foundation_result(
                old(chunk).cells(),
                old(chunk).spec_pos(),
                floor_y as int,
                ox as int,
                oz as int,
                sx as int,
                sz as int,
                id,
                lx,
                ly,
                lz,
            ),
{
    let ghost s0 = chunk.cells();
    let ghost c = chunk.spec_pos();
    let mut dz: i32 = 0;
    while dz < sz
        invariant
            0 <= dz <= sz <= 16,
            0 <= sx <= 16,
            1 <= floor_y <= 255,
            ox + sx <= i32::MAX,
            oz + sz <= i32::MAX,
            chunk.wf(),
            chunk.spec_pos() == c,
            chunk_fits(c),
            s0.len() == CHUNK_VOLUME,
            forall|lx: int, ly: int, lz: int|
                in_chunk(lx, ly, lz) ==> #[trigger] chunk.cells()[voxel_index(lx, ly, lz)] == foundation_result(
                    s0, c, floor_y as int, ox as int, oz as int, sx as int, dz as int, id, lx, ly, lz),
        decreases sz - dz,
    {
        let mut dx: i32 = 0;
        while dx < sx
            invariant
                0 <= dz < sz <= 16,
                0 <= dx <= sx <= 16,
                1 <= floor_y <= 255,
                ox + sx <= i32::MAX,
                oz + sz <= i32::MAX,
                chunk.wf(),
                chunk.spec_pos() == c,
                chunk_fits(c),
                s0.len() == CHUNK_VOLUME,
                forall|lx: int, ly: int, lz: int|
                    in_chunk(lx, ly, lz) ==> #[trigger] chunk.cells()[voxel_index(lx, ly, lz)] == if lz + c.z * 16 - oz
                        == dz && 0 <= lx + c.x * 16 - ox < dx {
                        foundation_result(s0, c, floor_y as int, ox as int, oz as int, sx as int, dz + 1, id, lx, ly, lz)
                    } else {
                        foundation_result(s0, c, floor_y as int, ox as int, oz as int, sx as int, dz as int, id, lx, ly, lz)
                    },
            decreases sx - dx,
        {
            let ghost before = chunk.cells();
            let wx = ox + dx;
            let wz = oz + dz;
            fill_foundation_column(chunk, floor_y, wx, wz, id);
            proof {
                assert forall|lx: int, ly: int, lz: int| in_chunk(lx, ly, lz) implies #[trigger] chunk.cells()[voxel_index(lx, ly, lz)]
                    == if lz + c.z * 16 - oz == dz && 0 <= lx + c.x * 16 - ox < dx + 1 {
                    foundation_result(s0, c, floor_y as int, ox as int, oz as int, sx as int, dz + 1, id, lx, ly, lz)
                } else {
                    foundation_result(s0, c, floor_y as int, ox as int, oz as int, sx as int, dz as int, id, lx, ly, lz)
                } by {
                    if lx + c.x * 16 == wx && lz + c.z * 16 == wz {
                        assert forall|yy: int| 0 <= yy <= floor_y - 1 implies #[trigger] before[voxel_index(lx, yy, lz)]
                            == s0[voxel_index(lx, yy, lz)] by {
                            assert(in_chunk(lx, yy, lz));
                            assert(before[voxel_index(lx, yy, lz)] == foundation_result(s0, c, floor_y as int, ox as int, oz as int, sx as int, dz as int, id, lx, yy, lz));
                        }
                        lemma_ground_same(before, s0, lx, floor_y - 1, lz);
                    }
                }
            }
            dx = dx + 1;
        }
        proof {
            assert forall|lx: int, ly: int, lz: int| in_chunk(lx, ly, lz) implies #[trigger] chunk.cells()[voxel_index(lx, ly, lz)]
                == foundation_result(s0, c, floor_y as int, ox as int, oz as int, sx as int, dz + 1, id, lx, ly, lz) by {
            }
        }
        dz = dz + 1;
    }
}

/// What the well with corner (ox, oz) and floor level `b` leaves at a chunk cell, the chunk
/// having held `prev`. Over the 5×5 footprint: a cobblestone foundation from the column's
/// ground up to the floor below level `b`; at level `b` a cobblestone rim around water;
/// above, oak log posts at the corners and air inside up to three blocks; a 7×7 plank roof
/// at `b + 4`.
pub open spec fn well_voxel(prev: Seq<Voxel>, c: ChunkPos, ox: int, oz: int, b: int, lx: int, ly: int, lz: int) -> Voxel {
    let dx = lx + c.x * 16 - ox;
    let dz = lz + c.z * 16 - oz;
    let p = prev[voxel_index(lx, ly, lz)];
    if ly == b + 4 && -1 <= dx <= 5 && -1 <= dz <= 5 {
        block_voxel(BLOCK_OAK_PLANKS)
    } else if !(0 <= dx <= 4 && 0 <= dz <= 4) {
        p
    } else if ly == b {
        if 1 <= dx <= 3 && 1 <= dz <= 3 {
            block_voxel(BLOCK_WATER)
        } else {
            block_voxel(BLOCK_COBBLESTONE)
        }
    } else if ly == b - 1 {
        block_voxel(BLOCK_COBBLESTONE)
    } else if ly < b - 1 {
        if 0 <= ground_below(prev, lx, b - 2, lz) < ly {
            block_voxel(BLOCK_COBBLESTONE)
        } else {
            p
        }
    } else if b + 1 <= ly <= b + 3 {
        if (dx == 0 || dx == 4) && (dz == 0 || dz == 4) {
            block_voxel(BLOCK_OAK_LOG)
        } else if 1 <= dx <= 3 && 1 <= dz <= 3 {
            block_voxel(BLOCK_AIR)
        } else {
            p
        }
    } else {
        p
    }
}

/// Build the well with corner (ox, oz) and floor level `b`.
fn render_well(chunk: &mut Chunk, b: i32, ox: i32, oz: i32)
    requires
        old(chunk).wf(),
        chunk_fits(old(chunk).spec_pos()),
        2 <= b <= 250,
        ox + 6 <= i32::MAX,
        oz + 6 <= i32::MAX,
        ox >= i32::MIN + 1,
        oz >= i32::MIN + 1,
    ensures
        final(chunk).wf(),
        final(chunk).spec_pos() == old(chunk).spec_pos(),
        forall|lx: int, ly: int, lz: int|
            in_chunk(lx, ly, lz) ==> #[trigger] final(chunk).cells()[voxel_index(lx, ly, lz)] == well_voxel(
                old(chunk).cells(),
                old(chunk).spec_pos(),
                ox as int,
                oz as int,
                b as int,
                lx,
                ly,
                lz,
            ),
{
    let ghost s0 = chunk.cells();
    let ghost c = chunk.spec_pos();
    let cobble = Voxel { id: BLOCK_COBBLESTONE, state: 0, light_sky: 0, light_block: 0 };
    let air = Voxel { id: BLOCK_AIR, state: 0, light_sky: 0, light_block: 0 };
    let water = Voxel { id: BLOCK_WATER, state: 0, light_sky: 0, light_block: 0 };
    let log = Voxel { id: BLOCK_OAK_LOG, state: 0, light_sky: 0, light_block: 0 };
    let planks = Voxel { id: BLOCK_OAK_PLANKS, state: 0, light_sky: 0, light_block: 0 };
    fill_foundation_rect(chunk, b - 1, ox, oz, 5, 5, BLOCK_COBBLESTONE);
    let ghost s1 = chunk.cells();
    fill_box(chunk, ox + 1, ox + 3, b + 1, b + 3, oz + 1, oz + 3, air);
    let ghost s2 = chunk.cells();
    fill_box(chunk, ox, ox + 4, b - 1, b - 1, oz, oz + 4, cobble);
    let ghost s3 = chunk.cells();
    fill_box(chunk, ox, ox + 4, b, b, oz, oz + 4, cobble);
    let ghost s4 = chunk.cells();
    fill_box(chunk, ox + 1, ox + 3, b, b, oz + 1, oz + 3, water);
    let ghost s5 = chunk.cells();
    fill_box(chunk, ox, ox, b + 1, b + 3, oz, oz, log);
    let ghost s6 = chunk.cells();
    fill_box(chunk, ox, ox, b + 1, b + 3, oz + 4, oz + 4, log);
    let ghost s7 = chunk.cells();
    fill_box(chunk, ox + 4, ox + 4, b + 1, b + 3, oz, oz, log);
    let ghost s8 = chunk.cells();
    fill_box(chunk, ox + 4, ox + 4, b + 1, b + 3, oz + 4, oz + 4, log);
    let ghost s9 = chunk.cells();
    fill_box(chunk, ox - 1, ox + 5, b + 4, b + 4, oz - 1, oz + 5, planks);
    proof {
        assert forall|lx: int, ly: int, lz: int| in_chunk(lx, ly, lz) implies #[trigger] chunk.cells()[voxel_index(lx, ly, lz)]
            == well_voxel(s0, c, ox as int, oz as int, b as int, lx, ly, lz) by {
            assert(s1[voxel_index(lx, ly, lz)] == foundation_result(s0, c, b - 1, ox as int, oz as int, 5, 5, BLOCK_COBBLESTONE, lx, ly, lz));
            assert(s2[voxel_index(lx, ly, lz)] == s2[voxel_index(lx, ly, lz)]);
            assert(s3[voxel_index(lx, ly, lz)] == s3[voxel_index(lx, ly, lz)]);
            assert(s4[voxel_index(lx, ly, lz)] == s4[voxel_index(lx, ly, lz)]);
            assert(s5[voxel_index(lx, ly, lz)] == s5[voxel_index(lx, ly, lz)]);
            assert(s6[voxel_index(lx, ly, lz)] == s6[voxel_index(lx, ly, lz)]);
            assert(s7[voxel_index(lx, ly, lz)] == s7[voxel_index(lx, ly, lz)]);
            assert(s8[voxel_index(lx, ly, lz)] == s8[voxel_index(lx, ly, lz)]);
            assert(s9[voxel_index(lx, ly, lz)] == s9[voxel_index(lx, ly, lz)]);
        }
    }
}

/// Last growth stage of the farm crops.
pub const CROP_MAX_STAGE: i32 = 7;

/// A crop planted by a village farm: wheat, carrots or potatoes, with its growth stage
/// (at most `CROP_MAX_STAGE`) in the state bits.
pub open spec fn is_village_crop(v: Voxel) -> bool {
    &&& v.id == BLOCK_WHEAT || v.id == BLOCK_CARROTS || v.id == BLOCK_POTATOES
    &&& v.state <= CROP_MAX_STAGE
    &&& v.light_sky == 0
    &&& v.light_block == 0
}

/// The crop for a draw (kind, stage): wheat for kind 0, carrots for 1, potatoes otherwise,
/// with the growth stage in the state bits.
pub open spec fn crop_block(crop: (i32, i32)) -> Voxel {
    Voxel {
        id: if crop.0 == 0 {
            BLOCK_WHEAT
        } else if crop.0 == 1 {
            BLOCK_CARROTS
        } else {
            BLOCK_POTATOES
        },
        state: crop.1 as u16,
        light_sky: 0,
        light_block: 0,
    }
}

/// Crop draws a farm can use: a kind in 0..3 and a stage up to `CROP_MAX_STAGE` for every
/// plot of the 7×5 farm (row-major; the entry for the water plot is unused).
pub open spec fn crop_draws_ok(crops: Seq<(i32, i32)>) -> bool {
    &&& crops.len() == 35
    &&& forall|k: int| 0 <= k < 35 ==> 0 <= (#[trigger] crops[k]).0 < 3 && 0 <= crops[k].1 <= CROP_MAX_STAGE
}

/// The crop for a roll in 0..3 (wheat, carrots, potatoes) at a growth stage.
fn crop_voxel(kind: i32, stage: i32) -> (res: Voxel)
    requires
        0 <= kind < 3,
        0 <= stage <= CROP_MAX_STAGE,
    ensures
        is_village_crop(res),
        res.id == if kind == 0 {
            BLOCK_WHEAT
        } else if kind == 1 {
            BLOCK_CARROTS
        } else {
            BLOCK_POTATOES
        },
        res.state == stage,
        res == crop_block((kind, stage)),
{
    let id = if kind == 0 {
        BLOCK_WHEAT
    } else if kind == 1 {
        BLOCK_CARROTS
    } else {
        BLOCK_POTATOES
    };
    Voxel { id, state: stage as u16, light_sky: 0, light_block: 0 }
}

/// What a planted farm cell holds: at `b - 1` water at the center and hydrated farmland
/// elsewhere; at `b` the crop of the plot's draw `crop`, except over the water, which
/// keeps `p`.
pub open spec fn plot_ok(p: Voxel, v: Voxel, center: bool, ly: int, b: int, crop: (i32, i32)) -> bool {
    if ly == b - 1 {
        v == if center {
            block_voxel(BLOCK_WATER)
        } else {
            block_voxel(BLOCK_FARMLAND_WET)
        }
    } else if ly == b && !center {
        v == crop_block(crop)
    } else {
        v == p
    }
}

/// A farm cell after the plots are planted in order up to row `kz`, column `kx`.
spec fn plot_done(p: Voxel, v: Voxel, c: ChunkPos, ox: int, oz: int, b: int, crops: Seq<(i32, i32)>, kz: int, kx: int, lx: int, ly: int, lz: int) -> bool {
    let dx = lx + c.x * 16 - ox;
    let dz = lz + c.z * 16 - oz;
    if 0 <= dx < 7 && (0 <= dz < kz || (dz == kz && 0 <= dx < kx)) {
        plot_ok(p, v, dx == 3 && dz == 2, ly, b, crops[dz * 7 + dx])
    } else {
        v == p
    }
}

/// Whether the farm with corner (ox, oz) and level `b` leaves `v` at a chunk cell, the chunk
/// having held `prev`. Over the 7×5 footprint: a dirt foundation from the column's ground up
/// to `b - 2`; at `b - 1` hydrated farmland around one water block at (3, 2); at `b` on
/// each farmland block (dx, dz) the crop of draw `crops[dz * 7 + dx]`; air above the water
/// and one block higher.
pub open spec fn farm_ok(prev: Seq<Voxel>, v: Voxel, c: ChunkPos, ox: int, oz: int, b: int, crops: Seq<(i32, i32)>, lx: int, ly: int, lz: int) -> bool {
    let dx = lx + c.x * 16 - ox;
    let dz = lz + c.z * 16 - oz;
    let p = prev[voxel_index(lx, ly, lz)];
    let center = dx == 3 && dz == 2;
    if !(0 <= dx < 7 && 0 <= dz < 5) {
        v == p
    } else if ly == b - 1 || (ly == b && !center) {
        plot_ok(p, v, center, ly, b, crops[dz * 7 + dx])
    } else if ly == b || ly == b + 1 {
        v == block_voxel(BLOCK_AIR)
    } else if ly < b - 1 {
        v == if 0 <= ground_below(prev, lx, b - 3, lz) < ly {
            block_voxel(BLOCK_DIRT)
        } else {
            p
        }
    } else {
        v == p
    }
}

/// Lay out the farm with corner (ox, oz) and level `b`, the crop of plot (dx, dz) being
/// the draw `crops[dz * 7 + dx]`.
fn render_farm(chunk: &mut Chunk, crops: &Vec<(i32, i32)>, b: i32, ox: i32, oz: i32)
    requires
        crop_draws_ok(crops@),
        old(chunk).wf(),
        chunk_fits(old(chunk).spec_pos()),
        3 <= b <= 250,
        ox + 7 <= i32::MAX,
        oz + 5 <= i32::MAX,
    ensures
        final(chunk).wf(),
        final(chunk).spec_pos() == old(chunk).spec_pos(),
        forall|lx: int, ly: int, lz: int|
            in_chunk(lx, ly, lz) ==> #[trigger] farm_ok(
                old(chunk).cells(),
                final(chunk).cells()[voxel_index(lx, ly, lz)],
                old(chunk).spec_pos(),
                ox as int,
                oz as int,
                b as int,
                crops@,
                lx,
                ly,
                lz,
            ),
{
    let ghost s0 = chunk.cells();
    let ghost c = chunk.spec_pos();
    let farmland_y = b - 1;
    fill_foundation_rect(chunk, farmland_y - 1, ox, oz, 7, 5, BLOCK_DIRT);
    let ghost s1 = chunk.cells();
    let air = Voxel { id: BLOCK_AIR, state: 0, light_sky: 0, light_block: 0 };
    fill_box(chunk, ox, ox + 6, b, b + 1, oz, oz + 4, air);
    let ghost s2 = chunk.cells();
    let water = Voxel { id: BLOCK_WATER, state: 0, light_sky: 0, light_block: 0 };
    let farmland = Voxel { id: BLOCK_FARMLAND_WET, state: 0, light_sky: 0, light_block: 0 };
    let water_x = ox + 3;
    let water_z = oz + 2;
    let mut dz: i32 = 0;
    while dz < 5
        invariant
            0 <= dz <= 5,
            3 <= b <= 250,
            farmland_y == b - 1,
            water_x == ox + 3,
            water_z == oz + 2,
            water == block_voxel(BLOCK_WATER),
            farmland == block_voxel(BLOCK_FARMLAND_WET),
            ox + 7 <= i32::MAX,
            oz + 5 <= i32::MAX,
            chunk.wf(),
            chunk.spec_pos() == c,
            chunk_fits(c),
            s2.len() == CHUNK_VOLUME,
            crop_draws_ok(crops@),
            forall|lx: int, ly: int, lz: int|
                in_chunk(lx, ly, lz) ==> #[trigger] plot_done(
                    s2[voxel_index(lx, ly, lz)],
                    chunk.cells()[voxel_index(lx, ly, lz)],
                    c,
                    ox as int,
                    oz as int,
                    b as int,
                    crops@,
                    dz as int,
                    0,
                    lx,
                    ly,
                    lz,
                ),
        decreases 5 - dz,
    {
        let mut dx: i32 = 0;
        while dx < 7
            invariant
                0 <= dz < 5,
                0 <= dx <= 7,
                3 <= b <= 250,
                farmland_y == b - 1,
                water_x == ox + 3,
                water_z == oz + 2,
                water == block_voxel(BLOCK_WATER),
                farmland == block_voxel(BLOCK_FARMLAND_WET),
                ox + 7 <= i32::MAX,
                oz + 5 <= i32::MAX,
                chunk.wf(),
                chunk.spec_pos() == c,
                chunk_fits(c),
                s2.len() == CHUNK_VOLUME,
                crop_draws_ok(crops@),
            crop_draws_ok(crops@),
                forall|lx: int, ly: int, lz: int|
                    in_chunk(lx, ly, lz) ==> #[trigger] plot_done(
                        s2[voxel_index(lx, ly, lz)],
                        chunk.cells()[voxel_index(lx, ly, lz)],
                        c,
                        ox as int,
                        oz as int,
                        b as int,
                        crops@,
                        dz as int,
                        dx as int,
                        lx,
                        ly,
                        lz,
                    ),
            decreases 7 - dx,
        {
            let ghost before = chunk.cells();
            let world_x = ox + dx;
            let world_z = oz + dz;
            if world_x == water_x && world_z == water_z {
                set_world_voxel_if_in_chunk(chunk, world_x, farmland_y, world_z, water);
                proof {
                    assert forall|lx: int, ly: int, lz: int| in_chunk(lx, ly, lz) implies #[trigger] plot_done(
                        s2[voxel_index(lx, ly, lz)],
                        chunk.cells()[voxel_index(lx, ly, lz)],
                        c,
                        ox as int,
                        oz as int,
                        b as int,
                        crops@,
                        dz as int,
                        dx + 1,
                        lx,
                        ly,
                        lz,
                    ) by {
                        assert(plot_done(s2[voxel_index(lx, ly, lz)], before[voxel_index(lx, ly, lz)], c, ox as int, oz as int, b as int, crops@, dz as int, dx as int, lx, ly, lz));
                        lemma_world_set_cell(before, c, world_x as int, farmland_y as int, world_z as int, water, lx, ly, lz);
                    }
                }
            } else {
                set_world_voxel_if_in_chunk(chunk, world_x, farmland_y, world_z, farmland);
                let ghost mid = chunk.cells();
                let (kind, stage) = crops[(dz * 7 + dx) as usize];
                assert(0 <= (crops@[dz * 7 + dx]).0 < 3);
                let crop = crop_voxel(kind, stage);
                set_world_voxel_if_in_chunk(chunk, world_x, farmland_y + 1, world_z, crop);
                proof {
                    assert forall|lx: int, ly: int, lz: int| in_chunk(lx, ly, lz) implies #[trigger] plot_done(
                        s2[voxel_index(lx, ly, lz)],
                        chunk.cells()[voxel_index(lx, ly, lz)],
                        c,
                        ox as int,
                        oz as int,
                        b as int,
                        crops@,
                        dz as int,
                        dx + 1,
                        lx,
                        ly,
                        lz,
                    ) by {
                        assert(plot_done(s2[voxel_index(lx, ly, lz)], before[voxel_index(lx, ly, lz)], c, ox as int, oz as int, b as int, crops@, dz as int, dx as int, lx, ly, lz));
                        lemma_world_set_cell(before, c, world_x as int, farmland_y as int, world_z as int, farmland, lx, ly, lz);
                        lemma_world_set_cell(mid, c, world_x as int, farmland_y + 1, world_z as int, crop, lx, ly, lz);
                    }
                }
            }
            dx = dx + 1;
        }
        proof {
            assert forall|lx: int, ly: int, lz: int| in_chunk(lx, ly, lz) implies #[trigger] plot_done(
                s2[voxel_index(lx, ly, lz)],
                chunk.cells()[voxel_index(lx, ly, lz)],
                c,
                ox as int,
                oz as int,
                b as int,
                crops@,
                dz + 1,
                0,
                lx,
                ly,
                lz,
            ) by {
                assert(plot_done(s2[voxel_index(lx, ly, lz)], chunk.cells()[voxel_index(lx, ly, lz)], c, ox as int, oz as int, b as int, crops@, dz as int, 7, lx, ly, lz));
            }
        }
        dz = dz + 1;
    }
    proof {
        assert forall|lx: int, ly: int, lz: int| in_chunk(lx, ly, lz) implies #[trigger] farm_ok(
            s0, chunk.cells()[voxel_index(lx, ly, lz)], c, ox as int, oz as int, b as int, crops@, lx, ly, lz) by {
            assert(s1[voxel_index(lx, ly, lz)] == foundation_result(s0, c, b - 2, ox as int, oz as int, 7, 5, BLOCK_DIRT, lx, ly, lz));
            assert(s2[voxel_index(lx, ly, lz)] == s2[voxel_index(lx, ly, lz)]);
            assert(plot_done(s2[voxel_index(lx, ly, lz)], chunk.cells()[voxel_index(lx, ly, lz)], c, ox as int, oz as int, b as int, crops@, 5, 0, lx, ly, lz));
        }
    }
}

/// Whether house wall cell (dx, dz) at level `ly` is a window place: the middle wall layer,
/// two places on each wall.
pub open spec fn is_house_window(dx: int, dz: int, ly: int, b: int) -> bool {
    ly == b + 2 && (((dz == 0 || dz == 6) && (dx == 2 || dx == 4)) || ((dx == 0 || dx == 6) && (dz == 2 || dz == 4)))
}

/// What a house wall cell holds: the door opening on the south wall (two blocks of air),
/// oak logs at the corners, planks elsewhere, and at a window place glass where the draw
/// `windows[dz * 7 + dx]` is set.
pub open spec fn wall_ok(v: Voxel, dx: int, dz: int, ly: int, b: int, windows: Seq<bool>) -> bool {
    if dx == 3 && dz == 6 && ly <= b + 2 {
        v == block_voxel(BLOCK_AIR)
    } else {
        let id = if (dx == 0 || dx == 6) && (dz == 0 || dz == 6) {
            BLOCK_OAK_LOG
        } else {
            BLOCK_OAK_PLANKS
        };
        if is_house_window(dx, dz, ly, b) && windows[dz * 7 + dx] {
            v == block_voxel(interactive_blocks::GLASS)
        } else {
            v == block_voxel(id)
        }
    }
}

/// A house cell after the walls are raised in order up to layer `ky`, row `kz`, column `kx`.
spec fn walls_done(p: Voxel, v: Voxel, c: ChunkPos, ox: int, oz: int, b: int, windows: Seq<bool>, ky: int, kz: int, kx: int, lx: int, ly: int, lz: int) -> bool {
    let dx = lx + c.x * 16 - ox;
    let dz = lz + c.z * 16 - oz;
    if 0 <= dx < 7 && 0 <= dz < 7 && (dx == 0 || dz == 0 || dx == 6 || dz == 6) && b + 1 <= ly <= b + 3
        && visited_before(dx, ly, dz, kx, ky, kz) {
        wall_ok(v, dx, dz, ly, b, windows)
    } else {
        v == p
    }
}

/// The state of a door facing south.
pub open spec fn south_door(id: BlockId) -> Voxel {
    Voxel { id, state: spec_facing_bits(Facing::South), light_sky: 0, light_block: 0 }
}

/// Whether the house with corner (ox, oz) and floor `b` leaves `v` at a chunk cell, the
/// chunk having held `prev`. Over the 7×7 footprint: a cobblestone foundation from the
/// column's ground up to `b - 1`; a plank floor at `b`; three wall layers above it (see
/// `wall_ok`) around air, with a crafting table, a chest and a torch inside and an oak door
/// facing south in the opening; a plank roof at `b + 4`.
pub open spec fn house_ok(prev: Seq<Voxel>, v: Voxel, c: ChunkPos, ox: int, oz: int, b: int, windows: Seq<bool>, lx: int, ly: int, lz: int) -> bool {
    let dx = lx + c.x * 16 - ox;
    let dz = lz + c.z * 16 - oz;
    let p = prev[voxel_index(lx, ly, lz)];
    if !(0 <= dx < 7 && 0 <= dz < 7) {
        v == p
    } else if ly < b - 1 {
        v == if 0 <= ground_below(prev, lx, b - 2, lz) < ly {
            block_voxel(BLOCK_COBBLESTONE)
        } else {
            p
        }
    } else if ly == b - 1 {
        v == block_voxel(BLOCK_COBBLESTONE)
    } else if ly == b || ly == b + 4 {
        v == block_voxel(BLOCK_OAK_PLANKS)
    } else if b + 1 <= ly <= b + 3 {
        if dx == 1 && dz == 1 && ly == b + 1 {
            v == block_voxel(BLOCK_CRAFTING_TABLE)
        } else if dx == 5 && dz == 1 && ly == b + 1 {
            v == block_voxel(interactive_blocks::CHEST)
        } else if dx == 3 && dz == 6 && ly == b + 1 {
            v == south_door(interactive_blocks::OAK_DOOR_LOWER)
        } else if dx == 3 && dz == 6 && ly == b + 2 {
            v == south_door(interactive_blocks::OAK_DOOR_UPPER)
        } else if dx == 3 && dz == 3 && ly == b + 1 {
            v == block_voxel(interactive_blocks::TORCH)
        } else if 1 <= dx <= 5 && 1 <= dz <= 5 {
            v == block_voxel(BLOCK_AIR)
        } else {
            wall_ok(v, dx, dz, ly, b, windows)
        }
    } else {
        v == p
    }
}

/// Build a house with corner (ox, oz) and floor `b`; the window place at wall cell (dx, dz)
/// holds glass where `windows[dz * 7 + dx]` is set, the wall block otherwise.
fn render_house(chunk: &mut Chunk, windows: &Vec<bool>, b: i32, ox: i32, oz: i32)
    requires
        windows@.len() == 49,
        old(chunk).wf(),
        chunk_fits(old(chunk).spec_pos()),
        2 <= b <= 250,
        ox + 7 <= i32::MAX,
        oz + 7 <= i32::MAX,
    ensures
        final(chunk).wf(),
        final(chunk).spec_pos() == old(chunk).spec_pos(),
        forall|lx: int, ly: int, lz: int|
            in_chunk(lx, ly, lz) ==> #[trigger] house_ok(
                old(chunk).cells(),
                final(chunk).cells()[voxel_index(lx, ly, lz)],
                old(chunk).spec_pos(),
                ox as int,
                oz as int,
                b as int,
                windows@,
                lx,
                ly,
                lz,
            ),
{
    let ghost s0 = chunk.cells();
    let ghost c = chunk.spec_pos();
    let floor_y = b;
    let wall_min_y = b + 1;
    let wall_max_y = b + 3;
    let roof_y = b + 4;
    let cobble = Voxel { id: BLOCK_COBBLESTONE, state: 0, light_sky: 0, light_block: 0 };
    let planks = Voxel { id: BLOCK_OAK_PLANKS, state: 0, light_sky: 0, light_block: 0 };
    let air = Voxel { id: BLOCK_AIR, state: 0, light_sky: 0, light_block: 0 };
    fill_foundation_rect(chunk, floor_y - 1, ox, oz, 7, 7, BLOCK_COBBLESTONE);
    let ghost s1 = chunk.cells();
    fill_box(chunk, ox, ox + 6, floor_y - 1, floor_y - 1, oz, oz + 6, cobble);
    let ghost s2 = chunk.cells();
    fill_box(chunk, ox, ox + 6, floor_y, floor_y, oz, oz + 6, planks);
    let ghost s3 = chunk.cells();
    fill_box(chunk, ox + 1, ox + 5, wall_min_y, roof_y - 1, oz + 1, oz + 5, air);
    let ghost s4 = chunk.cells();
    let mut y: i32 = wall_min_y;
    while y <= wall_max_y
        invariant
            b + 1 <= y <= b + 4,
            wall_min_y == b + 1,
            wall_max_y == b + 3,
            air == block_voxel(BLOCK_AIR),
            2 <= b <= 250,
            ox + 7 <= i32::MAX,
            oz + 7 <= i32::MAX,
            chunk.wf(),
            chunk.spec_pos() == c,
            chunk_fits(c),
            s4.len() == CHUNK_VOLUME,
                    windows@.len() == 49,
            forall|lx: int, ly: int, lz: int|
                in_chunk(lx, ly, lz) ==> #[trigger] walls_done(
                    s4[voxel_index(lx, ly, lz)],
                    chunk.cells()[voxel_index(lx, ly, lz)],
                    c,
                    ox as int,
                    oz as int,
                    b as int,
                    windows@,
                    y as int,
                    0,
                    0,
                    lx,
                    ly,
                    lz,
                ),
        decreases b + 4 - y,
    {
        let mut dz: i32 = 0;
        while dz < 7
            invariant
                b + 1 <= y <= b + 3,
                0 <= dz <= 7,
                wall_min_y == b + 1,
                air == block_voxel(BLOCK_AIR),
                2 <= b <= 250,
                ox + 7 <= i32::MAX,
                oz + 7 <= i32::MAX,
                chunk.wf(),
                chunk.spec_pos() == c,
                chunk_fits(c),
                s4.len() == CHUNK_VOLUME,
                    windows@.len() == 49,
                forall|lx: int, ly: int, lz: int|
                    in_chunk(lx, ly, lz) ==> #[trigger] walls_done(
                        s4[voxel_index(lx, ly, lz)],
                        chunk.cells()[voxel_index(lx, ly, lz)],
                        c,
                        ox as int,
                        oz as int,
                        b as int,
                        windows@,
                        y as int,
                        dz as int,
                        0,
                        lx,
                        ly,
                        lz,
                    ),
            decreases 7 - dz,
        {
            let mut dx: i32 = 0;
            while dx < 7
                invariant
                    b + 1 <= y <= b + 3,
                    0 <= dz < 7,
                    0 <= dx <= 7,
                    wall_min_y == b + 1,
                    air == block_voxel(BLOCK_AIR),
                    2 <= b <= 250,
                    ox + 7 <= i32::MAX,
                    oz + 7 <= i32::MAX,
                    chunk.wf(),
                    chunk.spec_pos() == c,
                    chunk_fits(c),
                    s4.len() == CHUNK_VOLUME,
                    windows@.len() == 49,
                    forall|lx: int, ly: int, lz: int|
                        in_chunk(lx, ly, lz) ==> #[trigger] walls_done(
                            s4[voxel_index(lx, ly, lz)],
                            chunk.cells()[voxel_index(lx, ly, lz)],
                            c,
                            ox as int,
                            oz as int,
                            b as int,
                            windows@,
                            y as int,
                            dz as int,
                            dx as int,
                            lx,
                            ly,
                            lz,
                        ),
                decreases 7 - dx,
            {
                let ghost before = chunk.cells();
                let is_boundary = dx == 0 || dz == 0 || dx + 1 == 7 || dz + 1 == 7;
                if is_boundary {
                    let x = ox + dx;
                    let z = oz + dz;
                    let is_door_column = dz == 6 && dx == 3;
                    let wv = if is_door_column && y <= wall_min_y + 1 {
                        air
                    } else {
                        let is_corner = (dx == 0 || dx + 1 == 7) && (dz == 0 || dz + 1 == 7);
                        let id = if is_corner {
                            BLOCK_OAK_LOG
                        } else {
                            BLOCK_OAK_PLANKS
                        };
                        let is_window_col = dx == 2 || dx == 4;
                        let is_window_row = dz == 2 || dz == 4;
                        let is_window = y == wall_min_y + 1 && (((dz == 0 || dz == 6) && is_window_col) || ((dx == 0
                            || dx == 6) && is_window_row));
                        let id = if is_window && windows[(dz * 7 + dx) as usize] {
                            interactive_blocks::GLASS
                        } else {
                            id
                        };
                        Voxel { id, state: 0, light_sky: 0, light_block: 0 }
                    };
                    assert(wall_ok(wv, dx as int, dz as int, y as int, b as int, windows@));
                    set_world_voxel_if_in_chunk(chunk, x, y, z, wv);
                    proof {
                        assert forall|lx: int, ly: int, lz: int| in_chunk(lx, ly, lz) implies #[trigger] walls_done(
                            s4[voxel_index(lx, ly, lz)],
                            chunk.cells()[voxel_index(lx, ly, lz)],
                            c,
                            ox as int,
                            oz as int,
                            b as int,
                            windows@,
                            y as int,
                            dz as int,
                            dx + 1,
                            lx,
                            ly,
                            lz,
                        ) by {
                            assert(walls_done(s4[voxel_index(lx, ly, lz)], before[voxel_index(lx, ly, lz)], c, ox as int, oz as int, b as int, windows@, y as int, dz as int, dx as int, lx, ly, lz));
                            lemma_world_set_cell(before, c, x as int, y as int, z as int, wv, lx, ly, lz);
                        }
                    }
                } else {
                    proof {
                        assert forall|lx: int, ly: int, lz: int| in_chunk(lx, ly, lz) implies #[trigger] walls_done(
                            s4[voxel_index(lx, ly, lz)],
                            chunk.cells()[voxel_index(lx, ly, lz)],
                            c,
                            ox as int,
                            oz as int,
                            b as int,
                            windows@,
                            y as int,
                            dz as int,
                            dx + 1,
                            lx,
                            ly,
                            lz,
                        ) by {
                            assert(walls_done(s4[voxel_index(lx, ly, lz)], before[voxel_index(lx, ly, lz)], c, ox as int, oz as int, b as int, windows@, y as int, dz as int, dx as int, lx, ly, lz));
                        }
                    }
                }
                dx = dx + 1;
            }
            proof {
                assert forall|lx: int, ly: int, lz: int| in_chunk(lx, ly, lz) implies #[trigger] walls_done(
                    s4[voxel_index(lx, ly, lz)],
                    chunk.cells()[voxel_index(lx, ly, lz)],
                    c,
                    ox as int,
                    oz as int,
                    b as int,
                    windows@,
                    y as int,
                    dz + 1,
                    0,
                    lx,
                    ly,
                    lz,
                ) by {
                    assert(walls_done(s4[voxel_index(lx, ly, lz)], chunk.cells()[voxel_index(lx, ly, lz)], c, ox as int, oz as int, b as int, windows@, y as int, dz as int, 7, lx, ly, lz));
                }
            }
            dz = dz + 1;
        }
        proof {
            assert forall|lx: int, ly: int, lz: int| in_chunk(lx, ly, lz) implies #[trigger] walls_done(
                s4[voxel_index(lx, ly, lz)],
                chunk.cells()[voxel_index(lx, ly, lz)],
                c,
                ox as int,
                oz as int,
                b as int,
                windows@,
                y + 1,
                0,
                0,
                lx,
                ly,
                lz,
            ) by {
                assert(walls_done(s4[voxel_index(lx, ly, lz)], chunk.cells()[voxel_index(lx, ly, lz)], c, ox as int, oz as int, b as int, windows@, y as int, 7, 0, lx, ly, lz));
            }
        }
        y = y + 1;
    }
    let ghost s5 = chunk.cells();
    fill_box(chunk, ox, ox + 6, roof_y, roof_y, oz, oz + 6, planks);
    let ghost s6 = chunk.cells();
    let table = Voxel { id: BLOCK_CRAFTING_TABLE, state: 0, light_sky: 0, light_block: 0 };
    set_world_voxel_if_in_chunk(chunk, ox + 1, floor_y + 1, oz + 1, table);
    let ghost s7 = chunk.cells();
    let chest = Voxel { id: interactive_blocks::CHEST, state: 0, light_sky: 0, light_block: 0 };
    set_world_voxel_if_in_chunk(chunk, ox + 5, floor_y + 1, oz + 1, chest);
    let ghost s8 = chunk.cells();
    let door_x = ox + 3;
    let door_z = oz + 6;
    let door_state = Facing::South.to_state();
    let lower = Voxel { id: interactive_blocks::OAK_DOOR_LOWER, state: door_state, light_sky: 0, light_block: 0 };
    set_world_voxel_if_in_chunk(chunk, door_x, wall_min_y, door_z, lower);
    let ghost s9 = chunk.cells();
    let upper = Voxel { id: interactive_blocks::OAK_DOOR_UPPER, state: door_state, light_sky: 0, light_block: 0 };
    set_world_voxel_if_in_chunk(chunk, door_x, wall_min_y + 1, door_z, upper);
    let ghost s10 = chunk.cells();
    let torch = Voxel { id: interactive_blocks::TORCH, state: 0, light_sky: 0, light_block: 0 };
    set_world_voxel_if_in_chunk(chunk, ox + 3, floor_y + 1, oz + 3, torch);
    proof {
        assert forall|lx: int, ly: int, lz: int| in_chunk(lx, ly, lz) implies #[trigger] house_ok(
            s0, chunk.cells()[voxel_index(lx, ly, lz)], c, ox as int, oz as int, b as int, windows@, lx, ly, lz) by {
            assert(s1[voxel_index(lx, ly, lz)] == foundation_result(s0, c, b - 1, ox as int, oz as int, 7, 7, BLOCK_COBBLESTONE, lx, ly, lz));
            assert(s2[voxel_index(lx, ly, lz)] == s2[voxel_index(lx, ly, lz)]);
            assert(s3[voxel_index(lx, ly, lz)] == s3[voxel_index(lx, ly, lz)]);
            assert(s4[voxel_index(lx, ly, lz)] == s4[voxel_index(lx, ly, lz)]);
            assert(walls_done(s4[voxel_index(lx, ly, lz)], s5[voxel_index(lx, ly, lz)], c, ox as int, oz as int, b as int, windows@, b + 4, 0, 0, lx, ly, lz));
            assert(s6[voxel_index(lx, ly, lz)] == s6[voxel_index(lx, ly, lz)]);
            lemma_world_set_cell(s6, c, ox + 1, b + 1, oz + 1, table, lx, ly, lz);
            lemma_world_set_cell(s7, c, ox + 5, b + 1, oz + 1, chest, lx, ly, lz);
            lemma_world_set_cell(s8, c, ox + 3, b + 1, oz + 6, lower, lx, ly, lz);
            lemma_world_set_cell(s9, c, ox + 3, b + 2, oz + 6, upper, lx, ly, lz);
            lemma_world_set_cell(s10, c, ox + 3, b + 1, oz + 3, torch, lx, ly, lz);
        }
    }
}

/// What a path block at level `b - 1` leaves in its column, at level `ly`: gravel at
/// `b - 1`, air in the two blocks above, and dirt from the column's ground up to `b - 2`;
/// `other` elsewhere.
pub open spec fn path_voxel(prev: Seq<Voxel>, lx: int, lz: int, b: int, ly: int, other: Voxel) -> Voxel {
    if ly == b - 1 {
        block_voxel(BLOCK_GRAVEL)
    } else if ly == b || ly == b + 1 {
        block_voxel(BLOCK_AIR)
    } else if ly <= b - 2 && 0 <= ground_below(prev, lx, b - 3, lz) < ly {
        block_voxel(BLOCK_DIRT)
    } else {
        other
    }
}

/// Laying a path block on a column that already holds one changes nothing.
proof fn lemma_path_idempotent(prev: Seq<Voxel>, q: Seq<Voxel>, lx: int, lz: int, b: int)
    requires
        prev.len() == CHUNK_VOLUME,
        q.len() == CHUNK_VOLUME,
        0 <= lx < 16,
        0 <= lz < 16,
        4 <= b <= 250,
        forall|yy: int| 0 <= yy < 256 ==> #[trigger] q[voxel_index(lx, yy, lz)] == path_voxel(prev, lx, lz, b, yy, prev[voxel_index(lx, yy, lz)]),
    ensures
        forall|ly: int| 0 <= ly < 256 ==> #[trigger] path_voxel(q, lx, lz, b, ly, q[voxel_index(lx, ly, lz)]) == q[voxel_index(lx, ly, lz)],
{
    let g = ground_below(prev, lx, b - 3, lz);
    lemma_ground_range(prev, lx, b - 3, lz);
    if g >= 0 {
        assert(q[voxel_index(lx, b - 3, lz)] == path_voxel(prev, lx, lz, b, b - 3, prev[voxel_index(lx, b - 3, lz)]));
        assert(is_ground(q[voxel_index(lx, b - 3, lz)]));
        assert(ground_below(q, lx, b - 3, lz) == b - 3);
        assert forall|ly: int| 0 <= ly < 256 implies #[trigger] path_voxel(q, lx, lz, b, ly, q[voxel_index(lx, ly, lz)]) == q[voxel_index(lx, ly, lz)] by {
            assert(q[voxel_index(lx, ly, lz)] == path_voxel(prev, lx, lz, b, ly, prev[voxel_index(lx, ly, lz)]));
        }
    } else {
        assert forall|yy: int| 0 <= yy <= b - 3 implies #[trigger] q[voxel_index(lx, yy, lz)] == prev[voxel_index(lx, yy, lz)] by {
            assert(q[voxel_index(lx, yy, lz)] == path_voxel(prev, lx, lz, b, yy, prev[voxel_index(lx, yy, lz)]));
        }
        lemma_ground_same(q, prev, lx, b - 3, lz);
        assert forall|ly: int| 0 <= ly < 256 implies #[trigger] path_voxel(q, lx, lz, b, ly, q[voxel_index(lx, ly, lz)]) == q[voxel_index(lx, ly, lz)] by {
            assert(q[voxel_index(lx, ly, lz)] == path_voxel(prev, lx, lz, b, ly, prev[voxel_index(lx, ly, lz)]));
        }
    }
}

/// Lay one path block at world (x, path_y, z): dirt support below it, gravel, and two blocks
/// of air above.
fn place_path_block(chunk: &mut Chunk, world_x: i32, world_y: i32, world_z: i32)
    requires
        old(chunk).wf(),
        chunk_fits(old(chunk).spec_pos()),
        3 <= world_y <= 249,
        world_x < i32::MAX,
        world_z < i32::MAX,
    ensures
        final(chunk).wf(),
        final(chunk).spec_pos() == old(chunk).spec_pos(),
        forall|lx: int, ly: int, lz: int|
            in_chunk(lx, ly, lz) ==> #[trigger] final(chunk).cells()[voxel_index(lx, ly, lz)] == if lx + old(
                chunk,
            ).spec_pos().x * 16 == world_x && lz + old(chunk).spec_pos().z * 16 == world_z {
                path_voxel(old(chunk).cells(), lx, lz, world_y + 1, ly, old(chunk).cells()[voxel_index(lx, ly, lz)])
            } else {
                old(chunk).cells()[voxel_index(lx, ly, lz)]
            },
{
    let ghost s0 = chunk.cells();
    let ghost c = chunk.spec_pos();
    fill_foundation_rect(chunk, world_y - 1, world_x, world_z, 1, 1, BLOCK_DIRT);
    let ghost s1 = chunk.cells();
    let gravel = Voxel { id: BLOCK_GRAVEL, state: 0, light_sky: 0, light_block: 0 };
    set_world_voxel_if_in_chunk(chunk, world_x, world_y, world_z, gravel);
    let ghost s2 = chunk.cells();
    let air = Voxel { id: BLOCK_AIR, state: 0, light_sky: 0, light_block: 0 };
    let mut dy: i32 = 1;
    while dy <= 2
        invariant
            1 <= dy <= 3,
            3 <= world_y <= 249,
            air == block_voxel(BLOCK_AIR),
            chunk.wf(),
            chunk.spec_pos() == c,
            chunk_fits(c),
            s2.len() == CHUNK_VOLUME,
            forall|lx: int, ly: int, lz: int|
                in_chunk(lx, ly, lz) ==> #[trigger] chunk.cells()[voxel_index(lx, ly, lz)] == if lx + c.x * 16 == world_x
                    && lz + c.z * 16 == world_z && world_y < ly < world_y + dy {
                    block_voxel(BLOCK_AIR)
                } else {
                    s2[voxel_index(lx, ly, lz)]
                },
        decreases 3 - dy,
    {
        let ghost before = chunk.cells();
        set_world_voxel_if_in_chunk(chunk, world_x, world_y + dy, world_z, air);
        proof {
            assert forall|lx: int, ly: int, lz: int| in_chunk(lx, ly, lz) implies #[trigger] chunk.cells()[voxel_index(lx, ly, lz)]
                == if lx + c.x * 16 == world_x && lz + c.z * 16 == world_z && world_y < ly < world_y + dy + 1 {
                block_voxel(BLOCK_AIR)
            } else {
                s2[voxel_index(lx, ly, lz)]
            } by {
                lemma_world_set_cell(before, c, world_x as int, world_y + dy, world_z as int, air, lx, ly, lz);
            }
        }
        dy = dy + 1;
    }
    proof {
        assert forall|lx: int, ly: int, lz: int| in_chunk(lx, ly, lz) implies #[trigger] chunk.cells()[voxel_index(lx, ly, lz)]
            == if lx + c.x * 16 == world_x && lz + c.z * 16 == world_z {
            path_voxel(s0, lx, lz, world_y + 1, ly, s0[voxel_index(lx, ly, lz)])
        } else {
            s0[voxel_index(lx, ly, lz)]
        } by {
            assert(s1[voxel_index(lx, ly, lz)] == foundation_result(s0, c, world_y - 1, world_x as int, world_z as int, 1, 1, BLOCK_DIRT, lx, ly, lz));
            lemma_world_set_cell(s1, c, world_x as int, world_y as int, world_z as int, gravel, lx, ly, lz);
        }
    }
}

/// Lay path blocks at level `path_y` on every column of the rectangle [x0, x1] × [z0, z1].
fn place_path_run(chunk: &mut Chunk, path_y: i32, x0: i32, x1: i32, z0: i32, z1: i32)
    requires
        old(chunk).wf(),
        chunk_fits(old(chunk).spec_pos()),
        3 <= path_y <= 249,
        x1 < i32::MAX - 1,
        z1 < i32::MAX - 1,
    ensures
        final(chunk).wf(),
        final(chunk).spec_pos() == old(chunk).spec_pos(),
        forall|lx: int, ly: int, lz: int|
            in_chunk(lx, ly, lz) ==> #[trigger] final(chunk).cells()[voxel_index(lx, ly, lz)] == if x0 <= lx + old(
                chunk,
            ).spec_pos().x * 16 <= x1 && z0 <= lz + old(chunk).spec_pos().z * 16 <= z1 {
                path_voxel(old(chunk).cells(), lx, lz, path_y + 1, ly, old(chunk).cells()[voxel_index(lx, ly, lz)])
            } else {
                old(chunk).cells()[voxel_index(lx, ly, lz)]
            },
{
    let ghost s0 = chunk.cells();
    let ghost c = chunk.spec_pos();
    let mut z: i32 = z0;
    while z <= z1
        invariant
            z0 <= z,
            z <= z1 + 1 || z == z0,
            3 <= path_y <= 249,
            x1 < i32::MAX - 1,
            z1 < i32::MAX - 1,
            chunk.wf(),
            chunk.spec_pos() == c,
            chunk_fits(c),
            s0.len() == CHUNK_VOLUME,
            forall|lx: int, ly: int, lz: int|
                in_chunk(lx, ly, lz) ==> #[trigger] chunk.cells()[voxel_index(lx, ly, lz)] == if x0 <= lx + c.x * 16 <= x1
                    && z0 <= lz + c.z * 16 < z {
                    path_voxel(s0, lx, lz, path_y + 1, ly, s0[voxel_index(lx, ly, lz)])
                } else {
                    s0[voxel_index(lx, ly, lz)]
                },
        decreases z1 + 1 - z,
    {
        let mut x: i32 = x0;
        while x <= x1
            invariant
                z0 <= z <= z1,
                x0 <= x,
                x <= x1 + 1 || x1 < x0,
                3 <= path_y <= 249,
                x1 < i32::MAX - 1,
                z1 < i32::MAX - 1,
                chunk.wf(),
                chunk.spec_pos() == c,
                chunk_fits(c),
                s0.len() == CHUNK_VOLUME,
                forall|lx: int, ly: int, lz: int|
                    in_chunk(lx, ly, lz) ==> #[trigger] chunk.cells()[voxel_index(lx, ly, lz)] == if x0 <= lx + c.x * 16
                        <= x1 && (z0 <= lz + c.z * 16 < z || (lz + c.z * 16 == z && lx + c.x * 16 < x)) {
                        path_voxel(s0, lx, lz, path_y + 1, ly, s0[voxel_index(lx, ly, lz)])
                    } else {
                        s0[voxel_index(lx, ly, lz)]
                    },
            decreases x1 + 1 - x,
        {
            let ghost before = chunk.cells();
            place_path_block(chunk, x, path_y, z);
            proof {
                assert forall|lx: int, ly: int, lz: int| in_chunk(lx, ly, lz) implies #[trigger] chunk.cells()[voxel_index(lx, ly, lz)]
                    == if x0 <= lx + c.x * 16 <= x1 && (z0 <= lz + c.z * 16 < z || (lz + c.z * 16 == z && lx + c.x * 16
                    < x + 1)) {
                    path_voxel(s0, lx, lz, path_y + 1, ly, s0[voxel_index(lx, ly, lz)])
                } else {
                    s0[voxel_index(lx, ly, lz)]
                } by {
                    if lx + c.x * 16 == x && lz + c.z * 16 == z {
                        assert forall|yy: int| 0 <= yy <= path_y - 2 implies #[trigger] before[voxel_index(lx, yy, lz)]
                            == s0[voxel_index(lx, yy, lz)] by {
                            assert(in_chunk(lx, yy, lz));
                        }
                        lemma_ground_same(before, s0, lx, path_y - 2, lz);
                    }
                }
            }
            x = x + 1;
        }
        z = z + 1;
    }
}

/// Whether world column (x, z) carries one of the gravel paths of the village centered at
/// (cx, cz): the row south of the houses, and the two short runs north and south of the
/// well.
pub open spec fn on_village_path(x: int, z: int, cx: int, cz: int) -> bool {
    (z == cz + 4 && cx - 12 <= x <= cx + 11) || (x == cx && (cz + 3 <= z <= cz + 4 || cz - 5 <= z <= cz - 3))
}

/// Whether the village centered at (cx, cz) with floor level `b` leaves `v` at a chunk
/// cell, the chunk having held `prev`: the paths, the two houses west and east of the well,
/// the farm north of it, and the well itself (see `path_voxel`, `house_ok`, `farm_ok` and
/// `well_voxel`), with crop draws `cr` and the window draws `wa` and `wb` of the western
/// and eastern house; every other cell keeps its voxel.
pub open spec fn village_ok(prev: Seq<Voxel>, v: Voxel, c: ChunkPos, cx: int, cz: int, b: int, cr: Seq<(i32, i32)>, wa: Seq<bool>, wb: Seq<bool>, lx: int, ly: int, lz: int) -> bool {
    let x = lx + c.x * 16;
    let z = lz + c.z * 16;
    if on_village_path(x, z, cx, cz) {
        v == path_voxel(prev, lx, lz, b, ly, well_voxel(prev, c, cx - 2, cz - 2, b, lx, ly, lz))
    } else if 0 <= x - (cx - 15) < 7 && 0 <= z - (cz - 3) < 7 {
        house_ok(prev, v, c, cx - 15, cz - 3, b, wa, lx, ly, lz)
    } else if 0 <= x - (cx + 8) < 7 && 0 <= z - (cz - 3) < 7 {
        house_ok(prev, v, c, cx + 8, cz - 3, b, wb, lx, ly, lz)
    } else if 0 <= x - (cx - 3) < 7 && 0 <= z - (cz - 10) < 5 {
        farm_ok(prev, v, c, cx - 3, cz - 10, b, cr, lx, ly, lz)
    } else {
        v == well_voxel(prev, c, cx - 2, cz - 2, b, lx, ly, lz)
    }
}

/// Two chunk states agree on a whole column.
spec fn same_column(a: Seq<Voxel>, b: Seq<Voxel>, lx: int, lz: int) -> bool {
    forall|yy: int| 0 <= yy < 256 ==> #[trigger] a[voxel_index(lx, yy, lz)] == b[voxel_index(lx, yy, lz)]
}

proof fn lemma_same_column_ground(a: Seq<Voxel>, b: Seq<Voxel>, lx: int, lz: int, y: int)
    requires
        same_column(a, b, lx, lz),
        y < 256,
    ensures
        ground_below(a, lx, y, lz) == ground_below(b, lx, y, lz),
{
    assert forall|yy: int| 0 <= yy <= y implies #[trigger] a[voxel_index(lx, yy, lz)] == b[voxel_index(lx, yy, lz)] by {
        assert(0 <= yy < 256);
    }
    lemma_ground_same(a, b, lx, y, lz);
}

/// The village's cells from the states after each step: well, farm, the two houses, then
/// the three path runs.
#[verifier::rlimit(60)]
proof fn lemma_village_compose(
    cr: Seq<(i32, i32)>,
    wa: Seq<bool>,
    wb: Seq<bool>,
    s0: Seq<Voxel>,
    s1: Seq<Voxel>,
    s2: Seq<Voxel>,
    s3: Seq<Voxel>,
    s4: Seq<Voxel>,
    s5: Seq<Voxel>,
    s6: Seq<Voxel>,
    s7: Seq<Voxel>,
    c: ChunkPos,
    cx: int,
    cz: int,
    b: int,
)
    requires
        9 <= b <= 97,
        s0.len() == CHUNK_VOLUME,
        s1.len() == CHUNK_VOLUME,
        s2.len() == CHUNK_VOLUME,
        s3.len() == CHUNK_VOLUME,
        s4.len() == CHUNK_VOLUME,
        s5.len() == CHUNK_VOLUME,
        s6.len() == CHUNK_VOLUME,
        forall|lx: int, ly: int, lz: int| in_chunk(lx, ly, lz) ==> #[trigger] s1[voxel_index(lx, ly, lz)] == well_voxel(s0, c, cx - 2, cz - 2, b, lx, ly, lz),
        forall|lx: int, ly: int, lz: int| in_chunk(lx, ly, lz) ==> #[trigger] farm_ok(s1, s2[voxel_index(lx, ly, lz)], c, cx - 3, cz - 10, b, cr, lx, ly, lz),
        forall|lx: int, ly: int, lz: int| in_chunk(lx, ly, lz) ==> #[trigger] house_ok(s2, s3[voxel_index(lx, ly, lz)], c, cx - 15, cz - 3, b, wa, lx, ly, lz),
        forall|lx: int, ly: int, lz: int| in_chunk(lx, ly, lz) ==> #[trigger] house_ok(s3, s4[voxel_index(lx, ly, lz)], c, cx + 8, cz - 3, b, wb, lx, ly, lz),
        forall|lx: int, ly: int, lz: int| in_chunk(lx, ly, lz) ==> #[trigger] s5[voxel_index(lx, ly, lz)] == if cx - 12 <= lx + c.x * 16 <= cx + 11 && cz + 4 <= lz + c.z * 16 <= cz + 4 {
            path_voxel(s4, lx, lz, b, ly, s4[voxel_index(lx, ly, lz)])
        } else {
            s4[voxel_index(lx, ly, lz)]
        },
        forall|lx: int, ly: int, lz: int| in_chunk(lx, ly, lz) ==> #[trigger] s6[voxel_index(lx, ly, lz)] == if cx <= lx + c.x * 16 <= cx && cz + 3 <= lz + c.z * 16 <= cz + 4 {
            path_voxel(s5, lx, lz, b, ly, s5[voxel_index(lx, ly, lz)])
        } else {
            s5[voxel_index(lx, ly, lz)]
        },
        forall|lx: int, ly: int, lz: int| in_chunk(lx, ly, lz) ==> #[trigger] s7[voxel_index(lx, ly, lz)] == if cx <= lx + c.x * 16 <= cx && cz - 5 <= lz + c.z * 16 <= cz - 3 {
            path_voxel(s6, lx, lz, b, ly, s6[voxel_index(lx, ly, lz)])
        } else {
            s6[voxel_index(lx, ly, lz)]
        },
    ensures
        forall|lx: int, ly: int, lz: int| in_chunk(lx, ly, lz) ==> #[trigger] village_ok(s0, s7[voxel_index(lx, ly, lz)], c, cx, cz, b, cr, wa, wb, lx, ly, lz),
{
    assert forall|lx: int, ly: int, lz: int| in_chunk(lx, ly, lz) implies #[trigger] village_ok(s0, s7[voxel_index(lx, ly, lz)], c, cx, cz, b, cr, wa, wb, lx, ly, lz) by {
        let x = lx + c.x * 16;
        let z = lz + c.z * 16;
        let path = on_village_path(x, z, cx, cz);
        let in_a = 0 <= x - (cx - 15) < 7 && 0 <= z - (cz - 3) < 7;
        let in_b = 0 <= x - (cx + 8) < 7 && 0 <= z - (cz - 3) < 7;
        let in_farm = 0 <= x - (cx - 3) < 7 && 0 <= z - (cz - 10) < 5;
        if path {
            assert forall|yy: int| 0 <= yy < 256 implies #[trigger] s4[voxel_index(lx, yy, lz)] == well_voxel(s0, c, cx - 2, cz - 2, b, lx, yy, lz) by {
                assert(in_chunk(lx, yy, lz));
                assert(s1[voxel_index(lx, yy, lz)] == well_voxel(s0, c, cx - 2, cz - 2, b, lx, yy, lz));
                assert(farm_ok(s1, s2[voxel_index(lx, yy, lz)], c, cx - 3, cz - 10, b, cr, lx, yy, lz));
                assert(house_ok(s2, s3[voxel_index(lx, yy, lz)], c, cx - 15, cz - 3, b, wa, lx, yy, lz));
                assert(house_ok(s3, s4[voxel_index(lx, yy, lz)], c, cx + 8, cz - 3, b, wb, lx, yy, lz));
            }
            assert forall|yy: int| 0 <= yy <= b - 3 implies #[trigger] s4[voxel_index(lx, yy, lz)] == s0[voxel_index(lx, yy, lz)] by {
                assert(s4[voxel_index(lx, yy, lz)] == well_voxel(s0, c, cx - 2, cz - 2, b, lx, yy, lz));
            }
            lemma_ground_same(s4, s0, lx, b - 3, lz);
            if z == cz + 4 && x == cx {
                assert forall|yy: int| 0 <= yy < 256 implies #[trigger] s5[voxel_index(lx, yy, lz)] == path_voxel(s4, lx, lz, b, yy, s4[voxel_index(lx, yy, lz)]) by {
                    assert(in_chunk(lx, yy, lz));
                }
                lemma_path_idempotent(s4, s5, lx, lz, b);
                assert(s6[voxel_index(lx, ly, lz)] == s5[voxel_index(lx, ly, lz)]);
            } else if z == cz + 4 {
                assert(s6[voxel_index(lx, ly, lz)] == s5[voxel_index(lx, ly, lz)]);
            } else {
                assert forall|yy: int| 0 <= yy < 256 implies #[trigger] s5[voxel_index(lx, yy, lz)] == s4[voxel_index(lx, yy, lz)] by {
                    assert(in_chunk(lx, yy, lz));
                }
                lemma_same_column_ground(s5, s4, lx, lz, b - 3);
                if cz + 3 <= z <= cz + 4 {
                    assert forall|yy: int| 0 <= yy < 256 implies #[trigger] s6[voxel_index(lx, yy, lz)] == path_voxel(s5, lx, lz, b, yy, s5[voxel_index(lx, yy, lz)]) by {
                        assert(in_chunk(lx, yy, lz));
                    }
                } else {
                    assert forall|yy: int| 0 <= yy < 256 implies #[trigger] s6[voxel_index(lx, yy, lz)] == s5[voxel_index(lx, yy, lz)] by {
                        assert(in_chunk(lx, yy, lz));
                    }
                    lemma_same_column_ground(s6, s5, lx, lz, b - 3);
                }
            }
        } else {
            assert(s7[voxel_index(lx, ly, lz)] == s4[voxel_index(lx, ly, lz)]) by {
                assert(s5[voxel_index(lx, ly, lz)] == s4[voxel_index(lx, ly, lz)]);
                assert(s6[voxel_index(lx, ly, lz)] == s5[voxel_index(lx, ly, lz)]);
            }
            if in_a {
                assert forall|yy: int| 0 <= yy < 256 implies #[trigger] s2[voxel_index(lx, yy, lz)] == s0[voxel_index(lx, yy, lz)] by {
                    assert(in_chunk(lx, yy, lz));
                    assert(s1[voxel_index(lx, yy, lz)] == well_voxel(s0, c, cx - 2, cz - 2, b, lx, yy, lz));
                    assert(farm_ok(s1, s2[voxel_index(lx, yy, lz)], c, cx - 3, cz - 10, b, cr, lx, yy, lz));
                }
                lemma_same_column_ground(s2, s0, lx, lz, b - 2);
                assert(house_ok(s2, s3[voxel_index(lx, ly, lz)], c, cx - 15, cz - 3, b, wa, lx, ly, lz));
                assert(house_ok(s3, s4[voxel_index(lx, ly, lz)], c, cx + 8, cz - 3, b, wb, lx, ly, lz));
            } else if in_b {
                assert forall|yy: int| 0 <= yy < 256 implies #[trigger] s3[voxel_index(lx, yy, lz)] == s0[voxel_index(lx, yy, lz)] by {
                    assert(in_chunk(lx, yy, lz));
                    assert(s1[voxel_index(lx, yy, lz)] == well_voxel(s0, c, cx - 2, cz - 2, b, lx, yy, lz));
                    assert(farm_ok(s1, s2[voxel_index(lx, yy, lz)], c, cx - 3, cz - 10, b, cr, lx, yy, lz));
                    assert(house_ok(s2, s3[voxel_index(lx, yy, lz)], c, cx - 15, cz - 3, b, wa, lx, yy, lz));
                }
                lemma_same_column_ground(s3, s0, lx, lz, b - 2);
                assert(house_ok(s3, s4[voxel_index(lx, ly, lz)], c, cx + 8, cz - 3, b, wb, lx, ly, lz));
            } else if in_farm {
                assert forall|yy: int| 0 <= yy < 256 implies #[trigger] s1[voxel_index(lx, yy, lz)] == s0[voxel_index(lx, yy, lz)] by {
                    assert(in_chunk(lx, yy, lz));
                    assert(s1[voxel_index(lx, yy, lz)] == well_voxel(s0, c, cx - 2, cz - 2, b, lx, yy, lz));
                }
                lemma_same_column_ground(s1, s0, lx, lz, b - 3);
                assert(farm_ok(s1, s2[voxel_index(lx, ly, lz)], c, cx - 3, cz - 10, b, cr, lx, ly, lz));
                assert(house_ok(s2, s3[voxel_index(lx, ly, lz)], c, cx - 15, cz - 3, b, wa, lx, ly, lz));
                assert(house_ok(s3, s4[voxel_index(lx, ly, lz)], c, cx + 8, cz - 3, b, wb, lx, ly, lz));
            } else {
                assert(s1[voxel_index(lx, ly, lz)] == well_voxel(s0, c, cx - 2, cz - 2, b, lx, ly, lz));
                assert(farm_ok(s1, s2[voxel_index(lx, ly, lz)], c, cx - 3, cz - 10, b, cr, lx, ly, lz));
                assert(house_ok(s2, s3[voxel_index(lx, ly, lz)], c, cx - 15, cz - 3, b, wa, lx, ly, lz));
                assert(house_ok(s3, s4[voxel_index(lx, ly, lz)], c, cx + 8, cz - 3, b, wb, lx, ly, lz));
            }
        }
    }
}

/// Whether the region's seed selects it for a village.
pub open spec fn has_village(world_seed: u64, region_x: i32, region_z: i32) -> bool {
    spec_region_seed(world_seed, region_x, region_z, VILLAGE_SEED_SALT) % VILLAGE_REGION_MODULUS == 0
}

/// Village centers the region's stream can give: at least 24 blocks inside the region.
pub open spec fn center_in_region(cx: int, cz: int, region_x: int, region_z: int) -> bool {
    region_x * 128 + 24 <= cx <= region_x * 128 + 103 && region_z * 128 + 24 <= cz <= region_z * 128 + 103
}

/// The village floor level for surface height `h` at its center: one above the surface,
/// the surface kept between 8 and 96.
pub open spec fn spec_village_base_y(h: int) -> int {
    let surface = if h < 8 {
        8
    } else if h > 96 {
        96
    } else {
        h
    };
    let raised = surface + 1;
    if raised < 8 {
        8
    } else if raised > 245 {
        245
    } else {
        raised
    }
}

/// The box of the village centered at (cx, cz) with floor level `b`: from the west house to
/// the east house, from the farm to the path south of the houses, two blocks below the
/// floor to seven above it.
pub open spec fn village_box(cx: int, cz: int, b: int) -> StructureBounds {
    StructureBounds {
        min_x: (cx - 15) as i32,
        max_x: (cx + 14) as i32,
        min_y: (b - 2) as i32,
        max_y: (b + 7) as i32,
        min_z: (cz - 10) as i32,
        max_z: (cz + 4) as i32,
    }
}

/// One outcome of generation in the chunk at `c` for a region with a village: the center
/// drawn for the region, `h` the surface height given for it, the village reported exactly
/// when its box meets the chunk, built then from the crop and window draws `cr`, `wa` and
/// `wb`, and the chunk untouched otherwise.
pub open spec fn village_outcome<H: Fn(i32, i32) -> i32>(
    old_cells: Seq<Voxel>,
    cells: Seq<Voxel>,
    c: ChunkPos,
    surface_height: H,
    cx: int,
    cz: int,
    h: i32,
    cr: Seq<(i32, i32)>,
    wa: Seq<bool>,
    wb: Seq<bool>,
    generated: bool,
) -> bool {
    let b = spec_village_base_y(h as int);
    &&& center_in_region(cx, cz, c.x / 8, c.z / 8)
    &&& call_ensures(surface_height, (cx as i32, cz as i32), h)
    &&& generated == box_meets_chunk(village_box(cx, cz, b), c)
    &&& generated ==> cells.len() == CHUNK_VOLUME && forall|lx: int, ly: int, lz: int|
        in_chunk(lx, ly, lz) ==> #[trigger] village_ok(old_cells, cells[voxel_index(lx, ly, lz)], c, cx, cz, b, cr, wa, wb, lx, ly, lz)
    &&& !generated ==> cells == old_cells
}

/// The seed of the stream a region's village center is drawn from.
pub open spec fn village_seed(world_seed: u64, region_x: i32, region_z: i32) -> u64 {
    spec_region_seed(world_seed, region_x, region_z, VILLAGE_SEED_SALT)
}

/// A region's village center, drawn from the region's stream: x and then z, 24 to 103
/// blocks into the region.
pub open spec fn village_center(world_seed: u64, region_x: i32, region_z: i32) -> (int, int) {
    let s = village_seed(world_seed, region_x, region_z);
    (
        inclusive_draw(s, Seq::empty(), region_x * 128 + 24, region_x * 128 + 103),
        inclusive_draw(s, seq![req_inclusive(region_x * 128 + 24, region_x * 128 + 103)], region_z * 128 + 24, region_z * 128 + 103),
    )
}

/// The seed of the stream a region's village blocks are drawn from.
pub open spec fn village_block_seed(world_seed: u64, region_x: i32, region_z: i32) -> u64 {
    village_seed(world_seed, region_x, region_z) ^ 0xA11C_E0DE_1234_5678u64
}

/// The first `k` farm plots' crops from the stream of `seed`, with the history after them:
/// a kind (0 to 2) and a stage (0 to the last) per plot, the water plot 17 drawing nothing.
pub open spec fn crop_draws(seed: u64, k: int) -> (Seq<(i32, i32)>, Seq<(int, int, int)>)
    decreases k,
{
    if k <= 0 {
        (Seq::empty(), Seq::empty())
    } else {
        let p = crop_draws(seed, k - 1);
        if k - 1 == 17 {
            (p.0.push((0i32, 0i32)), p.1)
        } else {
            let h1 = p.1.push(req_exclusive(0, 3));
            (
                p.0.push((exclusive_draw(seed, p.1, 0, 3) as i32, inclusive_draw(seed, h1, 0, CROP_MAX_STAGE as int) as i32)),
                h1.push(req_inclusive(0, CROP_MAX_STAGE as int)),
            )
        }
    }
}

/// Whether wall cell `k` of a house (7 by 7, z then x) is a window place.
pub open spec fn window_place(k: int) -> bool {
    let dz = k / 7;
    let dx = k % 7;
    ((dz == 0 || dz == 6) && (dx == 2 || dx == 4)) || ((dx == 0 || dx == 6) && (dz == 2 || dz == 4))
}

/// The first `k` window draws of a house from the stream of `seed` after history `h0`, with
/// the history after them: glass with three chances in four at window places, nothing drawn
/// elsewhere.
pub open spec fn window_draws(seed: u64, h0: Seq<(int, int, int)>, k: int) -> (Seq<bool>, Seq<(int, int, int)>)
    decreases k,
{
    if k <= 0 {
        (Seq::empty(), h0)
    } else {
        let p = window_draws(seed, h0, k - 1);
        if window_place(k - 1) {
            (p.0.push(ratio_draw(seed, p.1, 3, 4)), p.1.push(req_ratio(3, 4)))
        } else {
            (p.0.push(false), p.1)
        }
    }
}

/// A village's crops and the windows of its two houses, drawn in that order from the stream
/// of `seed`.
pub open spec fn village_blocks_of(seed: u64) -> (Seq<(i32, i32)>, Seq<bool>, Seq<bool>) {
    let c = crop_draws(seed, 35);
    let a = window_draws(seed, c.1, 49);
    (c.0, a.0, window_draws(seed, a.1, 49).0)
}

/// A region's village blocks.
pub open spec fn village_blocks(world_seed: u64, region_x: i32, region_z: i32) -> (Seq<(i32, i32)>, Seq<bool>, Seq<bool>) {
    village_blocks_of(village_block_seed(world_seed, region_x, region_z))
}

/// The box of a region's village: none unless the region's seed selects it; otherwise the
/// box at the center drawn from the region's stream, with the floor from a surface height
/// given for the center.
pub open spec fn village_bounds_result<H: Fn(i32, i32) -> i32>(
    world_seed: u64,
    region_x: i32,
    region_z: i32,
    surface_height: H,
    res: Option<StructureBounds>,
) -> bool {
    let (cx, cz) = village_center(world_seed, region_x, region_z);
    if has_village(world_seed, region_x, region_z) {
        &&& center_in_region(cx, cz, region_x as int, region_z as int)
        &&& exists|h: i32|
            #![trigger call_ensures(surface_height, (cx as i32, cz as i32), h)]
            call_ensures(surface_height, (cx as i32, cz as i32), h) && res == Some(village_box(cx, cz, spec_village_base_y(h as int)))
    } else {
        res is None
    }
}

/// The floor level of a village whose center has surface height `target_height`.
fn village_base_y(target_height: i32) -> (res: i32)
    ensures
        res == spec_village_base_y(target_height as int),
{
    let surface_y = if target_height < 8 {
        8
    } else if target_height > 96 {
        96
    } else {
        target_height
    };
    let raised = surface_y + 1;
    let top = CHUNK_SIZE_Y as i32 - (HOUSE_HEIGHT + 6);
    if raised < 8 {
        8
    } else if raised > top {
        top
    } else {
        raised
    }
}

fn min_i32(a: i32, b: i32) -> (res: i32)
    ensures
        res == if a <= b {
            a
        } else {
            b
        },
{
    if a <= b {
        a
    } else {
        b
    }
}

fn max_i32(a: i32, b: i32) -> (res: i32)
    ensures
        res == if a >= b {
            a
        } else {
            b
        },
{
    if a >= b {
        a
    } else {
        b
    }
}

/// Where a village goes in its region.
struct VillagePlan {
    bounds: StructureBounds,
    base_y: i32,
    center_x: i32,
    center_z: i32,
    rng_seed: u64,
}

/// The region's village plan: none unless the region's seed selects it; otherwise the center
/// drawn from the region's stream and the floor from the surface height at the center.
fn plan_village_for_region<H: Fn(i32, i32) -> i32>(world_seed: u64, region_x: i32, region_z: i32, surface_height: H) -> (res: Option<VillagePlan>)
    requires
        region_fits(region_x as int, region_z as int),
        forall|x: i32, z: i32| call_requires(surface_height, (x, z)),
    ensures
        !has_village(world_seed, region_x, region_z) ==> res is None,
        has_village(world_seed, region_x, region_z) ==> (res matches Some(p) && center_in_region(
            p.center_x as int,
            p.center_z as int,
            region_x as int,
            region_z as int,
        ) && p.bounds == village_box(p.center_x as int, p.center_z as int, p.base_y as int)
            && p.rng_seed == spec_region_seed(world_seed, region_x, region_z, VILLAGE_SEED_SALT) ^ 0xA11C_E0DE_1234_5678u64
            && p.center_x == village_center(world_seed, region_x, region_z).0
            && p.center_z == village_center(world_seed, region_x, region_z).1
            && exists|h: i32| call_ensures(surface_height, (p.center_x, p.center_z), h) && p.base_y == spec_village_base_y(h as int)),
{
    let seed = region_seed(world_seed, region_x, region_z, VILLAGE_SEED_SALT);
    if seed % VILLAGE_REGION_MODULUS != 0 {
        return None;
    }
    let mut rng = seeded_rng(seed);
    let (region_min_x, region_max_x, region_min_z, region_max_z) = region_world_bounds(region_x, region_z);
    let margin: i32 = 24;
    if region_max_x - region_min_x <= margin * 2 || region_max_z - region_min_z <= margin * 2 {
        return None;
    }
    let center_x = gen_range_inclusive(&mut rng, region_min_x + margin, region_max_x - margin);
    let center_z = gen_range_inclusive(&mut rng, region_min_z + margin, region_max_z - margin);
    let h = surface_height(center_x, center_z);
    let base_y = village_base_y(h);
    let well_origin_x = center_x - WELL_SIZE / 2;
    let well_origin_z = center_z - WELL_SIZE / 2;
    let farm_origin_x = center_x - FARM_SIZE_X / 2;
    let farm_origin_z = well_origin_z - FARM_SIZE_Z - 3;
    let house_spacing: i32 = 12;
    let house_a_origin_x = center_x - (HOUSE_SIZE / 2) - house_spacing;
    let house_a_origin_z = center_z - HOUSE_SIZE / 2;
    let house_b_origin_x = center_x + (HOUSE_SIZE / 2) + (house_spacing - HOUSE_SIZE);
    let house_b_origin_z = center_z - HOUSE_SIZE / 2;
    let path_south_z = house_a_origin_z + HOUSE_SIZE;
    let farm_path_south_z = farm_origin_z + FARM_SIZE_Z;
    let min_x = min_i32(min_i32(min_i32(house_a_origin_x, house_b_origin_x), well_origin_x), farm_origin_x);
    let min_z = min_i32(min_i32(min_i32(house_a_origin_z, house_b_origin_z), well_origin_z), farm_origin_z);
    let max_x = max_i32(
        max_i32(max_i32(house_a_origin_x + HOUSE_SIZE - 1, house_b_origin_x + HOUSE_SIZE - 1), well_origin_x + WELL_SIZE - 1),
        farm_origin_x + FARM_SIZE_X - 1,
    );
    let max_z = max_i32(
        max_i32(
            max_i32(
                max_i32(max_i32(house_a_origin_z + HOUSE_SIZE - 1, house_b_origin_z + HOUSE_SIZE - 1), well_origin_z + WELL_SIZE - 1),
                farm_origin_z + FARM_SIZE_Z - 1,
            ),
            path_south_z,
        ),
        farm_path_south_z,
    );
    let max_y = base_y + HOUSE_HEIGHT + 2;
    if base_y < 1 || max_y >= CHUNK_SIZE_Y as i32 {
        return None;
    }
    Some(
        VillagePlan {
            bounds: StructureBounds { min_x, max_x, min_y: base_y - 2, max_y, min_z, max_z },
            base_y,
            center_x,
            center_z,
            rng_seed: seed ^ 0xA11C_E0DE_1234_5678u64,
        },
    )
}

/// The box of the region's village, given the surface height function for its center:
/// `None` when the region has no village.
pub fn village_bounds_for_region<H: Fn(i32, i32) -> i32>(world_seed: u64, region_x: i32, region_z: i32, surface_height: H) -> (res: Option<StructureBounds>)
    requires
        region_fits(region_x as int, region_z as int),
        forall|x: i32, z: i32| call_requires(surface_height, (x, z)),
    ensures
        village_bounds_result(world_seed, region_x, region_z, surface_height, res),
{
    match plan_village_for_region(world_seed, region_x, region_z, surface_height) {
        Some(plan) => {
            let ghost cx = plan.center_x as int;
            let ghost cz = plan.center_z as int;
            proof {
                let h = choose|h: i32| call_ensures(surface_height, (plan.center_x, plan.center_z), h) && plan.base_y == spec_village_base_y(h as int);
                assert(center_in_region(cx, cz, region_x as int, region_z as int) && call_ensures(surface_height, (cx as i32, cz as i32), h));
                assert(cx == village_center(world_seed, region_x, region_z).0 && cz == village_center(world_seed, region_x, region_z).1);
            }
            Some(plan.bounds)
        },
        None => None,
    }
}

/// Build a village with center (`center_x`, `center_z`) and floor `base_y` from its draws:
/// well, farm (plot crops from `crops`), the two houses (windows from `win_a` and `win_b`),
/// then the gravel paths between them. Only the part in this chunk is written.
pub fn build_village(
    chunk: &mut Chunk,
    center_x: i32,
    center_z: i32,
    base_y: i32,
    crops: &Vec<(i32, i32)>,
    win_a: &Vec<bool>,
    win_b: &Vec<bool>,
)
    requires
        old(chunk).wf(),
        chunk_fits(old(chunk).spec_pos()),
        9 <= base_y <= 97,
        i32::MIN + 20 <= center_x <= i32::MAX - 20,
        i32::MIN + 20 <= center_z <= i32::MAX - 20,
        crop_draws_ok(crops@),
        win_a@.len() == 49,
        win_b@.len() == 49,
    ensures
        final(chunk).wf(),
        final(chunk).spec_pos() == old(chunk).spec_pos(),
        forall|lx: int, ly: int, lz: int|
            in_chunk(lx, ly, lz) ==> #[trigger] village_ok(
                old(chunk).cells(),
                final(chunk).cells()[voxel_index(lx, ly, lz)],
                old(chunk).spec_pos(),
                center_x as int,
                center_z as int,
                base_y as int,
                crops@, win_a@, win_b@,
                lx,
                ly,
                lz,
            ),
{
    let ghost s0 = chunk.cells();
    let ghost c = chunk.spec_pos();
    let cx = center_x;
    let cz = center_z;
    let b = base_y;
    let well_origin_x = cx - WELL_SIZE / 2;
    let well_origin_z = cz - WELL_SIZE / 2;
    let farm_origin_x = cx - FARM_SIZE_X / 2;
    let farm_origin_z = well_origin_z - FARM_SIZE_Z - 3;
    let house_a_origin_x = cx - (HOUSE_SIZE / 2) - 12;
    let house_a_origin_z = cz - HOUSE_SIZE / 2;
    let house_b_origin_x = cx + (HOUSE_SIZE / 2) + (12 - HOUSE_SIZE);
    let house_b_origin_z = cz - HOUSE_SIZE / 2;
    render_well(chunk, b, well_origin_x, well_origin_z);
    let ghost s1 = chunk.cells();
    render_farm(chunk, crops, b, farm_origin_x, farm_origin_z);
    let ghost s2 = chunk.cells();
    render_house(chunk, win_a, b, house_a_origin_x, house_a_origin_z);
    let ghost s3 = chunk.cells();
    render_house(chunk, win_b, b, house_b_origin_x, house_b_origin_z);
    let ghost s4 = chunk.cells();
    let path_y = b - 1;
    let house_a_center_x = house_a_origin_x + HOUSE_SIZE / 2;
    let house_b_center_x = house_b_origin_x + HOUSE_SIZE / 2;
    let house_path_z = house_a_origin_z + HOUSE_SIZE;
    place_path_run(
        chunk,
        path_y,
        min_i32(house_a_center_x, house_b_center_x),
        max_i32(house_a_center_x, house_b_center_x),
        house_path_z,
        house_path_z,
    );
    let ghost s5 = chunk.cells();
    let well_center_x = well_origin_x + WELL_SIZE / 2;
    let well_south_z = well_origin_z + WELL_SIZE;
    place_path_run(
        chunk,
        path_y,
        well_center_x,
        well_center_x,
        min_i32(well_south_z, house_path_z),
        max_i32(well_south_z, house_path_z),
    );
    let ghost s6 = chunk.cells();
    let well_north_z = well_origin_z - 1;
    let farm_south_z = farm_origin_z + FARM_SIZE_Z;
    place_path_run(
        chunk,
        path_y,
        well_center_x,
        well_center_x,
        min_i32(farm_south_z, well_north_z),
        max_i32(farm_south_z, well_north_z),
    );
    proof {
        lemma_village_compose(crops@, win_a@, win_b@, s0, s1, s2, s3, s4, s5, s6, chunk.cells(), c, cx as int, cz as int, b as int);
    }
}

/// Draw a house's windows from the stream, in the order they are built: for each wall cell
/// (z outer, x inner) that is a window place, glass with three chances in four; `false`
/// elsewhere.
fn draw_windows(rng: &mut SeededStream) -> (res: Vec<bool>)
    ensures
        res@.len() == 49,
        res@ == window_draws(old(rng)@.0, old(rng)@.1, 49).0,
        final(rng)@ == (old(rng)@.0, window_draws(old(rng)@.0, old(rng)@.1, 49).1),
{
    let ghost seed = rng@.0;
    let ghost h0 = rng@.1;
    let mut windows: Vec<bool> = Vec::new();
    let mut k: usize = 0;
    while k < 49
        invariant
            k <= 49,
            windows@.len() == k,
            rng@.0 == seed,
            (windows@, rng@.1) == window_draws(seed, h0, k as int),
        decreases 49 - k,
    {
        let dz = k / 7;
        let dx = k % 7;
        let is_window = ((dz == 0 || dz == 6) && (dx == 2 || dx == 4)) || ((dx == 0 || dx == 6) && (dz == 2 || dz
            == 4));
        assert(is_window == window_place(k as int));
        windows.push(is_window && gen_ratio(rng, 3, 4));
        k = k + 1;
    }
    windows
}

/// Draw a village's blocks from its stream, in the order they are built: the crop kind
/// (0..3) and growth stage of each farm plot but the water (row-major over the 7×5 farm),
/// then the windows of the first house and of the second.
fn draw_village(rng: &mut SeededStream) -> (res: (Vec<(i32, i32)>, Vec<bool>, Vec<bool>))
    requires
        old(rng)@.1 == Seq::<(int, int, int)>::empty(),
    ensures
        crop_draws_ok(res.0@),
        res.1@.len() == 49,
        res.2@.len() == 49,
        (res.0@, res.1@, res.2@) == village_blocks_of(old(rng)@.0),
{
    let ghost seed = rng@.0;
    let mut crops: Vec<(i32, i32)> = Vec::new();
    let mut k: usize = 0;
    while k < 35
        invariant
            k <= 35,
            crops@.len() == k,
            forall|j: int| 0 <= j < k ==> 0 <= (#[trigger] crops@[j]).0 < 3 && 0 <= crops@[j].1 <= CROP_MAX_STAGE,
            rng@.0 == seed,
            (crops@, rng@.1) == crop_draws(seed, k as int),
        decreases 35 - k,
    {
        if k == 2 * 7 + 3 {
            crops.push((0, 0));
        } else {
            let kind = gen_range_exclusive(rng, 0, 3);
            let stage = gen_range_inclusive(rng, 0, CROP_MAX_STAGE);
            crops.push((kind, stage));
        }
        k = k + 1;
    }
    let win_a = draw_windows(rng);
    let win_b = draw_windows(rng);
    (crops, win_a, win_b)
}

/// Build the village of a plan, drawing crops and windows from the plan's stream.
fn render_village(chunk: &mut Chunk, plan: &VillagePlan) -> (res: Ghost<(Seq<(i32, i32)>, Seq<bool>, Seq<bool>)>)
    requires
        old(chunk).wf(),
        chunk_fits(old(chunk).spec_pos()),
        9 <= plan.base_y <= 97,
        i32::MIN + 20 <= plan.center_x <= i32::MAX - 20,
        i32::MIN + 20 <= plan.center_z <= i32::MAX - 20,
    ensures
        final(chunk).wf(),
        final(chunk).spec_pos() == old(chunk).spec_pos(),
        crop_draws_ok(res@.0),
        res@.1.len() == 49,
        res@.2.len() == 49,
        res@ == village_blocks_of(plan.rng_seed),
        forall|lx: int, ly: int, lz: int|
            in_chunk(lx, ly, lz) ==> #[trigger] village_ok(
                old(chunk).cells(),
                final(chunk).cells()[voxel_index(lx, ly, lz)],
                old(chunk).spec_pos(),
                plan.center_x as int,
                plan.center_z as int,
                plan.base_y as int,
                res@.0,
                res@.1,
                res@.2,
                lx,
                ly,
                lz,
            ),
{
    let mut rng = seeded_rng(plan.rng_seed);
    let (crops, win_a, win_b) = draw_village(&mut rng);
    build_village(chunk, plan.center_x, plan.center_z, plan.base_y, &crops, &win_a, &win_b);
    Ghost((crops@, win_a@, win_b@))
}

/// Same seed, same village: two generations in the same chunk for the same world seed, with
/// the same surface height answered for the village center, report the same and leave the
/// same chunk.
pub proof fn law_village_same_seed_same_chunk<H: Fn(i32, i32) -> i32>(
    old_cells: Seq<Voxel>,
    a: Seq<Voxel>,
    b: Seq<Voxel>,
    c: ChunkPos,
    world_seed: u64,
    surface_height: H,
    h: i32,
    generated_a: bool,
    generated_b: bool,
)
    requires
        village_outcome(
            old_cells,
            a,
            c,
            surface_height,
            village_center(world_seed, (c.x as int / 8) as i32, (c.z as int / 8) as i32).0,
            village_center(world_seed, (c.x as int / 8) as i32, (c.z as int / 8) as i32).1,
            h,
            village_blocks(world_seed, (c.x as int / 8) as i32, (c.z as int / 8) as i32).0,
            village_blocks(world_seed, (c.x as int / 8) as i32, (c.z as int / 8) as i32).1,
            village_blocks(world_seed, (c.x as int / 8) as i32, (c.z as int / 8) as i32).2,
            generated_a,
        ),
        village_outcome(
            old_cells,
            b,
            c,
            surface_height,
            village_center(world_seed, (c.x as int / 8) as i32, (c.z as int / 8) as i32).0,
            village_center(world_seed, (c.x as int / 8) as i32, (c.z as int / 8) as i32).1,
            h,
            village_blocks(world_seed, (c.x as int / 8) as i32, (c.z as int / 8) as i32).0,
            village_blocks(world_seed, (c.x as int / 8) as i32, (c.z as int / 8) as i32).1,
            village_blocks(world_seed, (c.x as int / 8) as i32, (c.z as int / 8) as i32).2,
            generated_b,
        ),
    ensures
        generated_a == generated_b,
        a == b,
{
    if generated_a {
        let rx = (c.x as int / 8) as i32;
        let rz = (c.z as int / 8) as i32;
        let (cx, cz) = village_center(world_seed, rx, rz);
        let bl = village_blocks(world_seed, rx, rz);
        let by = spec_village_base_y(h as int);
        assert forall|x: int, y: int, z: int| in_chunk(x, y, z) implies a[voxel_index(x, y, z)] == #[trigger] b[voxel_index(
            x,
            y,
            z,
        )] by {
            assert(village_ok(old_cells, a[voxel_index(x, y, z)], c, cx, cz, by, bl.0, bl.1, bl.2, x, y, z));
            assert(village_ok(old_cells, b[voxel_index(x, y, z)], c, cx, cz, by, bl.0, bl.1, bl.2, x, y, z));
        }
        crate::chunk::lemma_cells_ext(a, b);
    }
}

impl VillageGenerator {
    /// The world seed the generator draws from.
    pub closed spec fn seed(&self) -> u64 {
        self.world_seed
    }

    /// A generator for the given world seed.
    pub fn new(world_seed: u64) -> (res: Self)
        ensures
            res.seed() == world_seed,
    {
        VillageGenerator { world_seed }
    }

    /// Generate the part of its region's village that falls in this chunk. `surface_height`
    /// gives the surface height of a world column (the village floor follows it at the
    /// village center). Returns whether the region has a village whose box meets the chunk;
    /// the chunk is unchanged when it does not.
    pub fn try_generate_village<H: Fn(i32, i32) -> i32>(&self, chunk: &mut Chunk, surface_height: H) -> (res: bool)
        requires
            old(chunk).wf(),
            chunk_fits(old(chunk).spec_pos()),
            forall|x: i32, z: i32| call_requires(surface_height, (x, z)),
        ensures
            final(chunk).wf(),
            final(chunk).spec_pos() == old(chunk).spec_pos(),
            !has_village(self.seed(), (old(chunk).spec_pos().x as int / 8) as i32, (old(chunk).spec_pos().z as int / 8) as i32)
                ==> !res && final(chunk).cells() == old(chunk).cells(),
            has_village(self.seed(), (old(chunk).spec_pos().x as int / 8) as i32, (old(chunk).spec_pos().z as int / 8) as i32)
                ==> exists|cx: int, cz: int, h: i32, cr: Seq<(i32, i32)>, wa: Seq<bool>, wb: Seq<bool>|
                #[trigger] village_outcome(
                    old(chunk).cells(),
                    final(chunk).cells(),
                    old(chunk).spec_pos(),
                    surface_height,
                    cx,
                    cz,
                    h,
                    cr,
                    wa,
                    wb,
                    res,
                ) && (cx, cz) == village_center(
                    self.seed(),
                    (old(chunk).spec_pos().x as int / 8) as i32,
                    (old(chunk).spec_pos().z as int / 8) as i32,
                ) && (cr, wa, wb) == village_blocks(
                    self.seed(),
                    (old(chunk).spec_pos().x as int / 8) as i32,
                    (old(chunk).spec_pos().z as int / 8) as i32,
                ),
    {
        let ghost s0 = chunk.cells();
        let chunk_pos = chunk.position();
        let (region_x, region_z) = region_coords_for_chunk(chunk_pos);
        proof {
            crate::mineshaft::lemma_chunk_region_fits(chunk_pos);
        }
        let plan = match plan_village_for_region(self.world_seed, region_x, region_z, surface_height) {
            Some(p) => p,
            None => {
                return false;
            },
        };
        let ghost h = choose|h: i32| call_ensures(surface_height, (plan.center_x, plan.center_z), h) && plan.base_y == spec_village_base_y(h as int);
        if !plan.bounds.intersects_chunk(chunk_pos) {
            let ghost bl = village_blocks(self.world_seed, region_x, region_z);
            assert(village_outcome(s0, chunk.cells(), chunk_pos, surface_height, plan.center_x as int, plan.center_z as int, h, bl.0, bl.1, bl.2, false));
            assert(region_x == (chunk_pos.x as int / 8) as i32 && region_z == (chunk_pos.z as int / 8) as i32);
            return false;
        }
        let draws = render_village(chunk, &plan);
        assert(village_outcome(s0, chunk.cells(), chunk_pos, surface_height, plan.center_x as int, plan.center_z as int, h, draws@.0, draws@.1, draws@.2, true));
        assert(region_x == (chunk_pos.x as int / 8) as i32 && region_z == (chunk_pos.z as int / 8) as i32);
        true
    }
}

} // verus!
