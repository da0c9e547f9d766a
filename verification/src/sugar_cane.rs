//! Sugar cane: the registered cane columns, the conditions under which a column grows, and
//! growing it by one block up to three.

use crate::chunk::{in_chunk, voxel_index, Chunk, ChunkMap, ChunkPos, ChunkPosSet, Voxel, BLOCK_AIR, BLOCK_DIRT, BLOCK_GRASS, BLOCK_SAND, BLOCK_SUGAR_CANE, BLOCK_WATER, BLOCK_WATER_FLOWING, CHUNK_SIZE_Y, CHUNK_VOLUME};
use crate::redstone::{world_voxel, RedstonePos};
use crate::rng::{gen_range_exclusive, gen_range_inclusive, seeded_rng, exclusive_draw, inclusive_draw, req_exclusive, req_inclusive};
use crate::structures::{chunk_fits, structure_kind_result, worldgen_structure_kind_at, StructureBounds, WorldgenStructureKind};
use vstd::prelude::*;

verus! {

/// Salt mixed into a chunk's sugar cane seed ("SUGARCAN").
pub const SUGAR_CANE_SEED_SALT: u64 = 0x5355_4741_5243_414E;

/// The seed of the stream a chunk's sugar cane is drawn from.
pub open spec fn spec_cane_seed(world_seed: u64, c: ChunkPos) -> u64 {
    world_seed ^ (c.x as u64).wrapping_mul(0xC0FF_EE00_D00D_BAAD) ^ (c.z as u64).wrapping_mul(
        0x5EED_CAFE_1234_5678,
    ) ^ SUGAR_CANE_SEED_SALT
}

/// The seed of the stream a chunk's sugar cane is drawn from.
pub fn sugar_cane_seed(world_seed: u64, c: ChunkPos) -> (res: u64)
    ensures
        res == spec_cane_seed(world_seed, c),
{
    world_seed ^ (c.x as u64).wrapping_mul(0xC0FF_EE00_D00D_BAAD) ^ (c.z as u64).wrapping_mul(
        0x5EED_CAFE_1234_5678,
    ) ^ SUGAR_CANE_SEED_SALT
}

/// Ground sugar cane is planted on: dirt, grass or sand.
pub open spec fn is_cane_ground(id: u16) -> bool {
    id == BLOCK_DIRT || id == BLOCK_GRASS || id == BLOCK_SAND
}

/// A horizontal neighbour of chunk cell (x, y, z) inside the chunk holds water.
pub open spec fn water_next_to(cells: Seq<Voxel>, x: int, y: int, z: int) -> bool {
    ||| (x + 1 < 16 && cells[voxel_index(x + 1, y, z)].id == BLOCK_WATER)
    ||| (x >= 1 && cells[voxel_index(x - 1, y, z)].id == BLOCK_WATER)
    ||| (z + 1 < 16 && cells[voxel_index(x, y, z + 1)].id == BLOCK_WATER)
    ||| (z >= 1 && cells[voxel_index(x, y, z - 1)].id == BLOCK_WATER)
}

/// A chunk cell after world generation planted sugar cane: unchanged, or air turned into
/// sugar cane (keeping its light) one to three blocks above a ground block that had water
/// beside it.
pub open spec fn cane_planted(old_cells: Seq<Voxel>, cells: Seq<Voxel>, x: int, y: int, z: int) -> bool {
    let o = old_cells[voxel_index(x, y, z)];
    let v = cells[voxel_index(x, y, z)];
    ||| v == o
    ||| {
        &&& o.id == BLOCK_AIR
        &&& v == Voxel { id: BLOCK_SUGAR_CANE, state: 0, ..o }
        &&& exists|g: int|
            1 <= g && 1 <= y - g <= 3 && is_cane_ground(#[trigger] old_cells[voxel_index(x, g, z)].id) && water_next_to(
                old_cells,
                x,
                g,
                z,
            )
    }
}

/// Whether chunk cell (x, y, z) is ground sugar cane can be planted on: dirt, grass or sand
/// with air above and water beside it.
pub open spec fn spot_ok(cells: Seq<Voxel>, x: int, y: int, z: int) -> bool {
    &&& is_cane_ground(cells[voxel_index(x, y, z)].id)
    &&& cells[voxel_index(x, y + 1, z)].id == BLOCK_AIR
    &&& water_next_to(cells, x, y, z)
}

/// The highest spot at or below `y` (down to 1) in column (x, z).
pub open spec fn highest_spot(cells: Seq<Voxel>, x: int, z: int, y: int) -> Option<int>
    decreases y,
{
    if y < 1 {
        None
    } else if spot_ok(cells, x, y, z) {
        Some(y)
    } else {
        highest_spot(cells, x, z, y - 1)
    }
}

/// Column (x, z) after growing up to `left` blocks of cane from `y` upward: each block goes
/// into air (keeping its light) and growth stops at the first cell that is not air or at
/// the top of the chunk.
pub open spec fn grow_from(cells: Seq<Voxel>, x: int, z: int, y: int, left: int) -> Seq<Voxel>
    decreases left,
{
    if left <= 0 || y < 0 || y >= 256 || cells[voxel_index(x, y, z)].id != BLOCK_AIR {
        cells
    } else {
        grow_from(
            cells.update(voxel_index(x, y, z), Voxel { id: BLOCK_SUGAR_CANE, state: 0, ..cells[voxel_index(x, y, z)] }),
            x,
            z,
            y + 1,
            left - 1,
        )
    }
}

/// One planting attempt at column (x, z) with drawn height `h`: nothing when the column has
/// no spot (y 1 to 253) or when `blocked` (the block above the spot lies in a structure),
/// else up to `h` blocks of cane above its highest spot.
pub open spec fn cane_attempt(cells: Seq<Voxel>, x: int, z: int, h: int, blocked: bool) -> Seq<Voxel> {
    match highest_spot(cells, x, z, 253) {
        None => cells,
        Some(g) => if blocked {
            cells
        } else {
            grow_from(cells, x, z, g + 1, h)
        },
    }
}

/// The first `n` planting attempts, in order: attempt `k` at column (draws[k].0, draws[k].1)
/// with height draws[k].2, blocked when blocked[k].
pub open spec fn cane_attempts(
    cells: Seq<Voxel>,
    draws: Seq<(usize, usize, i32)>,
    blocked: Seq<bool>,
    n: int,
) -> Seq<Voxel>
    decreases n,
{
    if n <= 0 {
        cells
    } else {
        cane_attempt(
            cane_attempts(cells, draws, blocked, n - 1),
            draws[n - 1].0 as int,
            draws[n - 1].1 as int,
            draws[n - 1].2 as int,
            blocked[n - 1],
        )
    }
}

/// Draws a planting pass can use: columns inside the chunk, heights 1 to 3.
pub open spec fn cane_draws_ok(draws: Seq<(usize, usize, i32)>) -> bool {
    forall|k: int| 0 <= k < draws.len() ==> (#[trigger] draws[k]).0 < 16 && draws[k].1 < 16 && 1 <= draws[k].2 <= 3
}

/// The requests the stream answered before attempt `n`: two column offsets per attempt, and
/// a height when the attempt found a spot it may plant.
pub open spec fn cane_history(
    cells: Seq<Voxel>,
    draws: Seq<(usize, usize, i32)>,
    blocked: Seq<bool>,
    n: int,
) -> Seq<(int, int, int)>
    decreases n,
{
    if n <= 0 {
        Seq::empty()
    } else {
        let h2 = cane_history(cells, draws, blocked, n - 1).push(req_exclusive(0, 16)).push(req_exclusive(0, 16));
        if highest_spot(cane_attempts(cells, draws, blocked, n - 1), draws[n - 1].0 as int, draws[n - 1].1 as int, 253) is Some
            && !blocked[n - 1] {
            h2.push(req_inclusive(1, 3))
        } else {
            h2
        }
    }
}

/// Attempt `k` drew its column and height from the stream of `seed`: the x and z offsets
/// (0 to 15) in turn, then the height (1 to 3) when the column has a spot that is not
/// blocked; the height is 1 when none was drawn.
pub open spec fn cane_draw_from(
    seed: u64,
    cells: Seq<Voxel>,
    draws: Seq<(usize, usize, i32)>,
    blocked: Seq<bool>,
    k: int,
) -> bool {
    let h = cane_history(cells, draws, blocked, k);
    let h1 = h.push(req_exclusive(0, 16));
    let h2 = h1.push(req_exclusive(0, 16));
    let before = cane_attempts(cells, draws, blocked, k);
    &&& draws[k].0 as int == exclusive_draw(seed, h, 0, 16)
    &&& draws[k].1 as int == exclusive_draw(seed, h1, 0, 16)
    &&& if highest_spot(before, draws[k].0 as int, draws[k].1 as int, 253) is Some && !blocked[k] {
        draws[k].2 as int == inclusive_draw(seed, h2, 1, 3)
    } else {
        draws[k].2 == 1
    }
}

/// `blocked` is an answer of the structure test for world block (x, y, z): whether it lies
/// in a generated structure, as `worldgen_structure_kind_at` can answer.
pub open spec fn structure_answer<H: Fn(i32, i32) -> i32>(
    world_seed: u64,
    x: int,
    y: int,
    z: int,
    surface_height: H,
    dungeon_bounds: Option<StructureBounds>,
    blocked: bool,
) -> bool {
    exists|kind: Option<WorldgenStructureKind>|
        #[trigger] structure_kind_result(world_seed, x as i32, y as i32, z as i32, surface_height, dungeon_bounds, kind)
            && blocked == kind is Some
}

/// Attempt `k` in chunk `c` was blocked exactly when the structure test said so for the
/// block above its spot; an attempt without a spot is not blocked.
pub open spec fn cane_blocked_by_structure<H: Fn(i32, i32) -> i32>(
    world_seed: u64,
    c: ChunkPos,
    surface_height: H,
    dungeon_bounds: Option<StructureBounds>,
    cells: Seq<Voxel>,
    draws: Seq<(usize, usize, i32)>,
    blocked: Seq<bool>,
    k: int,
) -> bool {
    match highest_spot(cane_attempts(cells, draws, blocked, k), draws[k].0 as int, draws[k].1 as int, 253) {
        None => !blocked[k],
        Some(g) => structure_answer(
            world_seed,
            c.x * 16 + draws[k].0,
            g + 1,
            c.z * 16 + draws[k].1,
            surface_height,
            dungeon_bounds,
            blocked[k],
        ),
    }
}

/// The first `n` attempts only read the first `n` draws and flags.
proof fn lemma_history_prefix(
    cells: Seq<Voxel>,
    d1: Seq<(usize, usize, i32)>,
    b1: Seq<bool>,
    d2: Seq<(usize, usize, i32)>,
    b2: Seq<bool>,
    n: int,
)
    requires
        0 <= n <= d1.len(),
        n <= d2.len(),
        n <= b1.len(),
        n <= b2.len(),
        forall|k: int| 0 <= k < n ==> d1[k] == d2[k] && b1[k] == b2[k],
    ensures
        cane_history(cells, d1, b1, n) == cane_history(cells, d2, b2, n),
        cane_attempts(cells, d1, b1, n) == cane_attempts(cells, d2, b2, n),
    decreases n,
{
    lemma_attempts_prefix(cells, d1, b1, d2, b2, n);
    if n > 0 {
        lemma_history_prefix(cells, d1, b1, d2, b2, n - 1);
        lemma_attempts_prefix(cells, d1, b1, d2, b2, n - 1);
    }
}

/// Extending the draws and flags by one attempt keeps what the earlier attempts satisfy.
proof fn lemma_cane_extend<H: Fn(i32, i32) -> i32>(
    seed: u64,
    world_seed: u64,
    c: ChunkPos,
    surface_height: H,
    dungeon_bounds: Option<StructureBounds>,
    cells: Seq<Voxel>,
    d0: Seq<(usize, usize, i32)>,
    b0: Seq<bool>,
    d: Seq<(usize, usize, i32)>,
    b: Seq<bool>,
)
    requires
        d0.len() == b0.len(),
        d == d0.push(d.last()),
        b == b0.push(b.last()),
        forall|k: int| 0 <= k < d0.len() ==> #[trigger] cane_draw_from(seed, cells, d0, b0, k),
        forall|k: int|
            0 <= k < d0.len() ==> #[trigger] cane_blocked_by_structure(world_seed, c, surface_height, dungeon_bounds, cells, d0, b0, k),
    ensures
        cane_history(cells, d, b, d0.len() as int) == cane_history(cells, d0, b0, d0.len() as int),
        cane_attempts(cells, d, b, d0.len() as int) == cane_attempts(cells, d0, b0, d0.len() as int),
        forall|k: int| 0 <= k < d0.len() ==> #[trigger] cane_draw_from(seed, cells, d, b, k),
        forall|k: int|
            0 <= k < d0.len() ==> #[trigger] cane_blocked_by_structure(world_seed, c, surface_height, dungeon_bounds, cells, d, b, k),
{
    assert forall|k: int| 0 <= k < d0.len() implies d0[k] == d[k] && b0[k] == b[k] by {}
    lemma_history_prefix(cells, d0, b0, d, b, d0.len() as int);
    assert forall|k: int| 0 <= k < d0.len() implies #[trigger] cane_draw_from(seed, cells, d, b, k) by {
        lemma_history_prefix(cells, d0, b0, d, b, k);
        assert(cane_draw_from(seed, cells, d0, b0, k));
        assert(d0[k] == d[k] && b0[k] == b[k]);
    }
    assert forall|k: int| 0 <= k < d0.len() implies #[trigger] cane_blocked_by_structure(
        world_seed,
        c,
        surface_height,
        dungeon_bounds,
        cells,
        d,
        b,
        k,
    ) by {
        lemma_history_prefix(cells, d0, b0, d, b, k);
        assert(cane_blocked_by_structure(world_seed, c, surface_height, dungeon_bounds, cells, d0, b0, k));
        assert(d0[k] == d[k] && b0[k] == b[k]);
    }
}

/// Same seed, same cane: two planting passes on the same chunk that drew from the stream of
/// the same seed and got the same structure answers drew the same columns and heights and
/// planted the same cane.
pub proof fn law_cane_same_seed_same_chunk(
    seed: u64,
    cells: Seq<Voxel>,
    d1: Seq<(usize, usize, i32)>,
    d2: Seq<(usize, usize, i32)>,
    blocked: Seq<bool>,
    n: int,
)
    requires
        0 <= n,
        d1.len() == n,
        d2.len() == n,
        blocked.len() == n,
        forall|k: int| 0 <= k < n ==> #[trigger] cane_draw_from(seed, cells, d1, blocked, k),
        forall|k: int| 0 <= k < n ==> #[trigger] cane_draw_from(seed, cells, d2, blocked, k),
    ensures
        d1 == d2,
        cane_attempts(cells, d1, blocked, n) == cane_attempts(cells, d2, blocked, n),
    decreases n,
{
    if n > 0 {
        let e1 = d1.drop_last();
        let e2 = d2.drop_last();
        let bb = blocked.drop_last();
        assert forall|k: int| 0 <= k < n - 1 implies #[trigger] cane_draw_from(seed, cells, e1, bb, k) by {
            assert(cane_draw_from(seed, cells, d1, blocked, k));
            lemma_history_prefix(cells, e1, bb, d1, blocked, k);
            assert(e1[k] == d1[k] && bb[k] == blocked[k]);
        }
        assert forall|k: int| 0 <= k < n - 1 implies #[trigger] cane_draw_from(seed, cells, e2, bb, k) by {
            assert(cane_draw_from(seed, cells, d2, blocked, k));
            lemma_history_prefix(cells, e2, bb, d2, blocked, k);
            assert(e2[k] == d2[k] && bb[k] == blocked[k]);
        }
        law_cane_same_seed_same_chunk(seed, cells, e1, e2, bb, n - 1);
        assert(e1 == e2);
        assert forall|k: int| 0 <= k < n - 1 implies d1[k] == d2[k] by {
            assert(d1[k] == e1[k] && d2[k] == e2[k]);
        }
        lemma_history_prefix(cells, d1, blocked, d2, blocked, n - 1);
        assert(cane_draw_from(seed, cells, d1, blocked, n - 1));
        assert(cane_draw_from(seed, cells, d2, blocked, n - 1));
        assert(d1[n - 1] == d2[n - 1]);
        assert(d1 =~= d2);
    }
}

proof fn lemma_highest_spot(cells: Seq<Voxel>, x: int, z: int, y: int)
    ensures
        highest_spot(cells, x, z, y) matches Some(g) ==> 1 <= g <= y && spot_ok(cells, x, g, z),
    decreases y,
{
    if y >= 1 && !spot_ok(cells, x, y, z) {
        lemma_highest_spot(cells, x, z, y - 1);
    }
}

/// Whether chunk cell (x, y, z) is ground with air above and water beside it.
fn cane_spot(chunk: &Chunk, x: usize, y: usize, z: usize) -> (res: bool)
    requires
        chunk.wf(),
        x < 16,
        z < 16,
        1 <= y <= 253,
    ensures
        res == spot_ok(chunk.cells(), x as int, y as int, z as int),
{
    let ground = chunk.voxel(x, y, z).id;
    if !(ground == BLOCK_DIRT || ground == BLOCK_GRASS || ground == BLOCK_SAND) {
        return false;
    }
    if chunk.voxel(x, y + 1, z).id != BLOCK_AIR {
        return false;
    }
    (x + 1 < 16 && chunk.voxel(x + 1, y, z).id == BLOCK_WATER) || (x >= 1 && chunk.voxel(x - 1, y, z).id
        == BLOCK_WATER) || (z + 1 < 16 && chunk.voxel(x, y, z + 1).id == BLOCK_WATER) || (z >= 1
        && chunk.voxel(x, y, z - 1).id == BLOCK_WATER)
}

/// The highest spot of column (x, z), scanning down from y 253 to 1.
fn find_spot(chunk: &Chunk, x: usize, z: usize) -> (res: Option<usize>)
    requires
        chunk.wf(),
        x < 16,
        z < 16,
    ensures
        match highest_spot(chunk.cells(), x as int, z as int, 253) {
            Some(g) => res == Some(g as usize),
            None => res is None,
        },
{
    let mut y: usize = CHUNK_SIZE_Y - 2;
    while y > 1
        invariant
            1 <= y <= 254,
            x < 16,
            z < 16,
            chunk.wf(),
            highest_spot(chunk.cells(), x as int, z as int, 253) == highest_spot(
                chunk.cells(),
                x as int,
                z as int,
                y - 1,
            ),
        decreases y,
    {
        y = y - 1;
        if cane_spot(chunk, x, y, z) {
            return Some(y);
        }
    }
    None
}

/// Grow up to `height` blocks of cane in column (x, z) from `y` upward (see `grow_from`).
fn grow_column(chunk: &mut Chunk, x: usize, z: usize, y: usize, height: i32)
    requires
        old(chunk).wf(),
        x < 16,
        z < 16,
        y <= 256,
        0 <= height <= 3,
    ensures
        final(chunk).wf(),
        final(chunk).spec_pos() == old(chunk).spec_pos(),
        final(chunk).cells() == grow_from(old(chunk).cells(), x as int, z as int, y as int, height as int),
{
    let mut dy: i32 = 0;
    while dy < height
        invariant
            0 <= dy <= height <= 3,
            x < 16,
            z < 16,
            y <= 256,
            chunk.wf(),
            chunk.spec_pos() == old(chunk).spec_pos(),
            grow_from(old(chunk).cells(), x as int, z as int, y as int, height as int) == grow_from(
                chunk.cells(),
                x as int,
                z as int,
                y + dy,
                height - dy,
            ),
        decreases height - dy,
    {
        let cy = y + dy as usize;
        if cy >= CHUNK_SIZE_Y {
            return;
        }
        let voxel = chunk.voxel(x, cy, z);
        if voxel.id != BLOCK_AIR {
            return;
        }
        let cane = Voxel { id: BLOCK_SUGAR_CANE, state: 0, light_sky: voxel.light_sky, light_block: voxel.light_block };
        chunk.set_voxel(x, cy, z, cane);
        dy = dy + 1;
    }
}

/// Plant sugar cane from a planting pass's draws, attempt by attempt (see `cane_attempts`):
/// attempt `k` looks for the highest spot of column (draws[k].0, draws[k].1) and, unless
/// `blocked[k]`, grows up to draws[k].2 blocks of cane above it.
pub fn plant_sugar_cane(chunk: &mut Chunk, draws: &Vec<(usize, usize, i32)>, blocked: &Vec<bool>)
    requires
        old(chunk).wf(),
        cane_draws_ok(draws@),
        blocked@.len() == draws@.len(),
    ensures
        final(chunk).wf(),
        final(chunk).spec_pos() == old(chunk).spec_pos(),
        final(chunk).cells() == cane_attempts(old(chunk).cells(), draws@, blocked@, draws@.len() as int),
{
    let mut k: usize = 0;
    while k < draws.len()
        invariant
            k <= draws@.len(),
            cane_draws_ok(draws@),
            blocked@.len() == draws@.len(),
            chunk.wf(),
            chunk.spec_pos() == old(chunk).spec_pos(),
            chunk.cells() == cane_attempts(old(chunk).cells(), draws@, blocked@, k as int),
        decreases draws@.len() - k,
    {
        let (x, z, h) = draws[k];
        assert(cane_draws_ok(draws@) ==> draws@[k as int].0 < 16);
        match find_spot(chunk, x, z) {
            Some(g) => {
                proof {
                    lemma_highest_spot(chunk.cells(), x as int, z as int, 253);
                }
                if !blocked[k] {
                    grow_column(chunk, x, z, g + 1, h);
                }
            },
            None => {},
        }
        k = k + 1;
    }
}

/// Plant sugar cane while generating a chunk: ten times, draw a column from the chunk's
/// stream, find its highest ground block (dirt, grass or sand, y 1 to 253) with air above
/// and water beside it, skip it when the block above lies in a generated structure
/// (`surface_height` and `dungeon_bounds` as for `worldgen_structure_kind_at`), and
/// otherwise grow one to three blocks of cane (drawn) into the air above it. The result is
/// `plant_sugar_cane`'s for the ten drawn columns and heights (a height of 1 stands for an
/// attempt that drew none).
pub fn populate_sugar_cane<H: Fn(i32, i32) -> i32 + Copy>(
    world_seed: u64,
    chunk: &mut Chunk,
    surface_height: H,
    dungeon_bounds: Option<StructureBounds>,
)
    requires
        old(chunk).wf(),
        chunk_fits(old(chunk).spec_pos()),
        forall|x: i32, z: i32| call_requires(surface_height, (x, z)),
    ensures
        final(chunk).wf(),
        final(chunk).spec_pos() == old(chunk).spec_pos(),
        forall|x: int, y: int, z: int|
            in_chunk(x, y, z) ==> #[trigger] cane_planted(old(chunk).cells(), final(chunk).cells(), x, y, z),
        exists|draws: Seq<(usize, usize, i32)>, blocked: Seq<bool>|
            draws.len() == 10 && blocked.len() == 10 && cane_draws_ok(draws) && final(chunk).cells()
                == #[trigger] cane_attempts(old(chunk).cells(), draws, blocked, 10) && (forall|k: int|
                0 <= k < 10 ==> #[trigger] cane_draw_from(
                    spec_cane_seed(world_seed, old(chunk).spec_pos()),
                    old(chunk).cells(),
                    draws,
                    blocked,
                    k,
                )) && (forall|k: int|
                0 <= k < 10 ==> #[trigger] cane_blocked_by_structure(
                    world_seed,
                    old(chunk).spec_pos(),
                    surface_height,
                    dungeon_bounds,
                    old(chunk).cells(),
                    draws,
                    blocked,
                    k,
                )),
{
    let ghost s0 = chunk.cells();
    let chunk_pos = chunk.position();
    let origin_x = chunk_pos.x * 16;
    let origin_z = chunk_pos.z * 16;
    let mut rng = seeded_rng(sugar_cane_seed(world_seed, chunk_pos));
    let ghost seed = spec_cane_seed(world_seed, chunk_pos);
    let ghost mut draws: Seq<(usize, usize, i32)> = Seq::empty();
    let ghost mut blocked: Seq<bool> = Seq::empty();
    let mut attempt: usize = 0;
    while attempt < 10
        invariant
            attempt <= 10,
            chunk.wf(),
            chunk.spec_pos() == chunk_pos,
            chunk_fits(chunk_pos),
            origin_x == chunk_pos.x * 16,
            origin_z == chunk_pos.z * 16,
            s0.len() == CHUNK_VOLUME,
            forall|x: i32, z: i32| call_requires(surface_height, (x, z)),
            forall|x: int, y: int, z: int| in_chunk(x, y, z) ==> #[trigger] cane_planted(s0, chunk.cells(), x, y, z),
            draws.len() == attempt,
            blocked.len() == attempt,
            cane_draws_ok(draws),
            chunk.cells() == cane_attempts(s0, draws, blocked, attempt as int),
            rng@ == (seed, cane_history(s0, draws, blocked, attempt as int)),
            forall|k: int| 0 <= k < attempt ==> #[trigger] cane_draw_from(seed, s0, draws, blocked, k),
            forall|k: int|
                0 <= k < attempt ==> #[trigger] cane_blocked_by_structure(
                    world_seed,
                    chunk_pos,
                    surface_height,
                    dungeon_bounds,
                    s0,
                    draws,
                    blocked,
                    k,
                ),
        decreases 10 - attempt,
    {
        let ghost prev = chunk.cells();
        let ghost draws0 = draws;
        let ghost blocked0 = blocked;
        let ghost h0 = rng@.1;
        attempt = attempt + 1;
        let lx = gen_range_exclusive(&mut rng, 0, 16) as usize;
        let lz = gen_range_exclusive(&mut rng, 0, 16) as usize;
        let spot = find_spot(chunk, lx, lz);
        let ground = match spot {
            Some(g) => g,
            None => {
                proof {
                    draws = draws.push((lx, lz, 1i32));
                    blocked = blocked.push(false);
                    lemma_cane_extend(seed, world_seed, chunk_pos, surface_height, dungeon_bounds, s0, draws0, blocked0, draws, blocked);
                    assert(cane_draw_from(seed, s0, draws, blocked, attempt - 1));
                    assert(cane_blocked_by_structure(world_seed, chunk_pos, surface_height, dungeon_bounds, s0, draws, blocked, attempt - 1));
                    assert(rng@.1 == cane_history(s0, draws, blocked, attempt as int));
                    assert(draws.drop_last() == draws0);
                    assert(cane_attempts(s0, draws, blocked, attempt as int) == cane_attempt(prev, lx as int, lz as int, 1, false)) by {
                        assert(draws.subrange(0, attempt - 1) =~= draws0);
                        lemma_attempts_prefix(s0, draws0, blocked0, draws, blocked, attempt - 1);
                    }
                }
                continue;
            },
        };
        proof {
            lemma_highest_spot(prev, lx as int, lz as int, 253);
        }
        let base_y = ground + 1;
        let world_x = origin_x + lx as i32;
        let world_z = origin_z + lz as i32;
        let kind = worldgen_structure_kind_at(world_seed, world_x, base_y as i32, world_z, surface_height, dungeon_bounds);
        proof {
            assert(structure_answer(world_seed, chunk_pos.x * 16 + lx, ground + 1, chunk_pos.z * 16 + lz, surface_height, dungeon_bounds, kind is Some));
        }
        if kind.is_some() {
            proof {
                draws = draws.push((lx, lz, 1i32));
                blocked = blocked.push(true);
                lemma_cane_extend(seed, world_seed, chunk_pos, surface_height, dungeon_bounds, s0, draws0, blocked0, draws, blocked);
                assert(cane_draw_from(seed, s0, draws, blocked, attempt - 1));
                assert(cane_blocked_by_structure(world_seed, chunk_pos, surface_height, dungeon_bounds, s0, draws, blocked, attempt - 1));
                assert(rng@.1 == cane_history(s0, draws, blocked, attempt as int));
                assert(cane_attempts(s0, draws, blocked, attempt as int) == cane_attempt(prev, lx as int, lz as int, 1, true)) by {
                    lemma_attempts_prefix(s0, draws0, blocked0, draws, blocked, attempt - 1);
                }
            }
            continue;
        }
        proof {
            let gi = voxel_index(lx as int, ground as int, lz as int);
            assert(cane_planted(s0, chunk.cells(), lx as int, ground as int, lz as int));
            assert(s0[gi] == chunk.cells()[gi]);
            if lx + 1 < 16 {
                assert(cane_planted(s0, chunk.cells(), lx + 1, ground as int, lz as int));
            }
            if lx >= 1 {
                assert(cane_planted(s0, chunk.cells(), lx - 1, ground as int, lz as int));
            }
            if lz + 1 < 16 {
                assert(cane_planted(s0, chunk.cells(), lx as int, ground as int, lz + 1));
            }
            if lz >= 1 {
                assert(cane_planted(s0, chunk.cells(), lx as int, ground as int, lz - 1));
            }
            assert(is_cane_ground(s0[gi].id) && water_next_to(s0, lx as int, ground as int, lz as int));
        }
        let height = gen_range_inclusive(&mut rng, 1, 3);
        let mut dy: i32 = 0;
        while dy < height
            invariant
                0 <= dy <= height <= 3,
                lx < 16,
                lz < 16,
                1 <= ground <= 253,
                base_y == ground + 1,
                chunk.wf(),
                chunk.spec_pos() == chunk_pos,
                s0.len() == CHUNK_VOLUME,
                is_cane_ground(s0[voxel_index(lx as int, ground as int, lz as int)].id),
                water_next_to(s0, lx as int, ground as int, lz as int),
                forall|x: int, y: int, z: int| in_chunk(x, y, z) ==> #[trigger] cane_planted(s0, chunk.cells(), x, y, z),
                grow_from(prev, lx as int, lz as int, base_y as int, height as int) == grow_from(
                    chunk.cells(),
                    lx as int,
                    lz as int,
                    base_y + dy,
                    height - dy,
                ),
            ensures
                chunk.wf(),
                chunk.spec_pos() == chunk_pos,
                forall|x: int, y: int, z: int| in_chunk(x, y, z) ==> #[trigger] cane_planted(s0, chunk.cells(), x, y, z),
                chunk.cells() == grow_from(prev, lx as int, lz as int, base_y as int, height as int),
            decreases height - dy,
        {
            let cy = base_y + dy as usize;
            if cy >= CHUNK_SIZE_Y {
                break;
            }
            let voxel = chunk.voxel(lx, cy, lz);
            if voxel.id != BLOCK_AIR {
                break;
            }
            let ghost before = chunk.cells();
            let cane = Voxel { id: BLOCK_SUGAR_CANE, state: 0, light_sky: voxel.light_sky, light_block: voxel.light_block };
            chunk.set_voxel(lx, cy, lz, cane);
            proof {
                let ci = voxel_index(lx as int, cy as int, lz as int);
                assert(cane_planted(s0, before, lx as int, cy as int, lz as int));
                assert(s0[ci] == before[ci]);
                assert forall|x: int, y: int, z: int| in_chunk(x, y, z) implies #[trigger] cane_planted(s0, chunk.cells(), x, y, z) by {
                    assert(cane_planted(s0, before, x, y, z));
                    if voxel_index(x, y, z) == ci {
                        crate::chunk::lemma_voxel_index_injective(x, y, z, lx as int, cy as int, lz as int);
                        assert(is_cane_ground(s0[voxel_index(x, ground as int, z)].id));
                    } else {
                        assert(chunk.cells()[voxel_index(x, y, z)] == before[voxel_index(x, y, z)]);
                    }
                }
            }
            dy = dy + 1;
        }
        proof {
            assert(chunk.cells() == grow_from(prev, lx as int, lz as int, base_y as int, height as int));
            draws = draws.push((lx, lz, height));
            blocked = blocked.push(false);
            lemma_cane_extend(seed, world_seed, chunk_pos, surface_height, dungeon_bounds, s0, draws0, blocked0, draws, blocked);
            assert(cane_draw_from(seed, s0, draws, blocked, attempt - 1));
            assert(cane_blocked_by_structure(world_seed, chunk_pos, surface_height, dungeon_bounds, s0, draws, blocked, attempt - 1));
            assert(rng@.1 == cane_history(s0, draws, blocked, attempt as int));
            assert(cane_attempts(s0, draws, blocked, attempt as int) == cane_attempt(prev, lx as int, lz as int, height as int, false)) by {
                lemma_attempts_prefix(s0, draws0, blocked0, draws, blocked, attempt - 1);
            }
        }
    }
}

/// The first `n` attempts only read the first `n` draws.
proof fn lemma_attempts_prefix(
    cells: Seq<Voxel>,
    d1: Seq<(usize, usize, i32)>,
    b1: Seq<bool>,
    d2: Seq<(usize, usize, i32)>,
    b2: Seq<bool>,
    n: int,
)
    requires
        0 <= n <= d1.len(),
        n <= d2.len(),
        n <= b1.len(),
        n <= b2.len(),
        forall|k: int| 0 <= k < n ==> d1[k] == d2[k] && b1[k] == b2[k],
    ensures
        cane_attempts(cells, d1, b1, n) == cane_attempts(cells, d2, b2, n),
    decreases n,
{
    if n > 0 {
        lemma_attempts_prefix(cells, d1, b1, d2, b2, n - 1);
    }
}

/// A chunk-local sugar cane base position.
#[derive(Debug, Clone, Copy, PartialEq, Eq, Hash, PartialOrd, Ord)]
pub struct SugarCanePosition {
    pub chunk: ChunkPos,
    pub x: u8,
    pub y: u8,
    pub z: u8,
}

/// The order of positions: chunk x, chunk z, then x, y, z.
pub open spec fn cane_pos_lt(a: SugarCanePosition, b: SugarCanePosition) -> bool {
    if a.chunk.x != b.chunk.x {
        a.chunk.x < b.chunk.x
    } else if a.chunk.z != b.chunk.z {
        a.chunk.z < b.chunk.z
    } else if a.x != b.x {
        a.x < b.x
    } else if a.y != b.y {
        a.y < b.y
    } else {
        a.z < b.z
    }
}

/// Strictly increasing in the position order.
pub open spec fn cane_sorted(s: Seq<SugarCanePosition>) -> bool {
    forall|i: int, j: int| 0 <= i < j < s.len() ==> cane_pos_lt(#[trigger] s[i], #[trigger] s[j])
}

fn cane_pos_less(a: &SugarCanePosition, b: &SugarCanePosition) -> (res: bool)
    ensures
        res == cane_pos_lt(*a, *b),
{
    if a.chunk.x != b.chunk.x {
        a.chunk.x < b.chunk.x
    } else if a.chunk.z != b.chunk.z {
        a.chunk.z < b.chunk.z
    } else if a.x != b.x {
        a.x < b.x
    } else if a.y != b.y {
        a.y < b.y
    } else {
        a.z < b.z
    }
}

fn cane_pos_same(a: &SugarCanePosition, b: &SugarCanePosition) -> (res: bool)
    ensures
        res == (*a == *b),
{
    a.chunk.same(&b.chunk) && a.x == b.x && a.y == b.y && a.z == b.z
}

/// Sugar cane columns registered for growth, kept in position order, and the chunks that
/// growth changed.
pub struct SugarCaneGrowthSystem {
    world_seed: u64,
    base_positions: Vec<SugarCanePosition>,
    dirty_chunks: ChunkPosSet,
}

pub open spec fn is_cane(v: Voxel) -> bool {
    v.id == BLOCK_SUGAR_CANE
}

pub open spec fn is_water_block(v: Voxel) -> bool {
    v.id == BLOCK_WATER || v.id == BLOCK_WATER_FLOWING
}

/// Whether world cell (x, y, z) is loaded and holds still or flowing water.
pub open spec fn water_at(chunks: ChunkMap, x: int, y: int, z: int) -> bool {
    world_voxel(chunks, RedstonePos { x: x as i32, y: y as i32, z: z as i32 }) matches Some(v) && is_water_block(v)
}

/// Chunk coordinates far enough from the i32 limits for the world cells around the chunk.
pub open spec fn chunk_inside(c: ChunkPos) -> bool {
    i32::MIN < c.x * 16 && c.x * 16 + 16 <= i32::MAX && i32::MIN < c.z * 16 && c.z * 16 + 16 <= i32::MAX
}

/// A position inside its chunk's horizontal extent.
pub open spec fn cane_pos_valid(pos: SugarCanePosition) -> bool {
    pos.x < 16 && pos.z < 16
}

/// The light a cane base at `pos` grows with, when everything but chance allows growth: its
/// chunk is loaded, it stands on dirt, grass or sand (so it is not at the bottom), the
/// brighter of its two light channels is at least 9, and water lies beside the block below
/// it.
pub open spec fn growth_light(chunks: ChunkMap, pos: SugarCanePosition) -> Option<u8> {
    let c = pos.chunk;
    let base = chunks.voxel_at(c, pos.x as int, pos.y as int, pos.z as int);
    let support = chunks.voxel_at(c, pos.x as int, pos.y - 1, pos.z as int);
    let light = if base.light_sky >= base.light_block {
        base.light_sky
    } else {
        base.light_block
    };
    let wx = c.x * 16 + pos.x;
    let wz = c.z * 16 + pos.z;
    let sy = pos.y - 1;
    if pos.y == 0 || !chunks.keys().contains(c) {
        None
    } else if !(support.id == BLOCK_DIRT || support.id == BLOCK_GRASS || support.id == BLOCK_SAND) {
        None
    } else if light < 9 {
        None
    } else if !(water_at(chunks, wx + 1, sy, wz) || water_at(chunks, wx - 1, sy, wz) || water_at(chunks, wx, sy, wz + 1)
        || water_at(chunks, wx, sy, wz - 1)) {
        None
    } else {
        Some(light)
    }
}

/// Sugar cane grows on the ground it is planted on: a loaded base above dirt, grass or sand,
/// with light 9 or more and water beside the support, grows with its brighter light; on any
/// other support it does not grow. The ground is exactly the ground of planting.
pub proof fn law_cane_grows_on_planting_ground(chunks: ChunkMap, pos: SugarCanePosition)
    ensures
        ({
            let c = pos.chunk;
            let base = chunks.voxel_at(c, pos.x as int, pos.y as int, pos.z as int);
            let support = chunks.voxel_at(c, pos.x as int, pos.y - 1, pos.z as int);
            let light = if base.light_sky >= base.light_block { base.light_sky } else { base.light_block };
            let wx = c.x * 16 + pos.x;
            let wz = c.z * 16 + pos.z;
            let sy = pos.y - 1;
            &&& (chunks.keys().contains(c) && pos.y > 0 && (support.id == BLOCK_DIRT || support.id == BLOCK_GRASS
                || support.id == BLOCK_SAND) && light >= 9 && (water_at(chunks, wx + 1, sy, wz) || water_at(
                chunks,
                wx - 1,
                sy,
                wz,
            ) || water_at(chunks, wx, sy, wz + 1) || water_at(chunks, wx, sy, wz - 1))) ==> growth_light(chunks, pos)
                == Some(light)
            &&& growth_light(chunks, pos) is Some ==> (support.id == BLOCK_DIRT || support.id == BLOCK_GRASS
                || support.id == BLOCK_SAND) && light >= 9 && pos.y > 0 && chunks.keys().contains(c) && (
            water_at(chunks, wx + 1, sy, wz) || water_at(chunks, wx - 1, sy, wz) || water_at(chunks, wx, sy, wz + 1)
                || water_at(chunks, wx, sy, wz - 1))
            &&& is_cane_ground(support.id) <==> (support.id == BLOCK_DIRT || support.id == BLOCK_GRASS
                || support.id == BLOCK_SAND)
        }),
{
}

/// The lowest y of the unbroken cane run that reaches down from y.
pub open spec fn cane_bottom(cells: Seq<Voxel>, x: int, y: int, z: int) -> int
    decreases y,
{
    if y > 0 && is_cane(cells[voxel_index(x, y - 1, z)]) {
        cane_bottom(cells, x, y - 1, z)
    } else {
        y
    }
}

/// The number of cane blocks stacked from y upwards.
pub open spec fn cane_run(cells: Seq<Voxel>, x: int, y: int, z: int) -> int
    decreases 256 - y,
{
    if y < 0 || y >= 256 {
        0
    } else if is_cane(cells[voxel_index(x, y, z)]) {
        1 + cane_run(cells, x, y + 1, z)
    } else {
        0
    }
}

/// The cane voxel grown into a cell, keeping the cell's light.
pub open spec fn grown_cane(above: Voxel) -> Voxel {
    Voxel { id: BLOCK_SUGAR_CANE, state: 0, light_sky: above.light_sky, light_block: above.light_block }
}

fn water_beside(chunks: &ChunkMap, x: i32, y: i32, z: i32) -> (res: bool)
    requires
        chunks.wf(),
    ensures
        res == water_at(*chunks, x as int, y as int, z as int),
{
    let pos = RedstonePos::new(x, y, z);
    match crate::portals::read_world(chunks, pos) {
        Some(v) => v.id == BLOCK_WATER || v.id == BLOCK_WATER_FLOWING,
        None => false,
    }
}

/// The light a cane base grows with when everything but chance allows it to grow (see
/// `growth_light`), or `None`.
pub fn base_growth_light(pos: SugarCanePosition, chunks: &ChunkMap) -> (res: Option<u8>)
    requires
        chunks.wf(),
        cane_pos_valid(pos),
        chunk_inside(pos.chunk),
    ensures
        res == growth_light(*chunks, pos),
{
    if pos.y == 0 {
        return None;
    }
    let c = pos.chunk;
    let x = pos.x as usize;
    let y = pos.y as usize;
    let z = pos.z as usize;
    let support = match chunks.voxel(&c, x, y - 1, z) {
        Some(v) => v,
        None => {
            return None;
        },
    };
    if !(support.id == BLOCK_DIRT || support.id == BLOCK_GRASS || support.id == BLOCK_SAND) {
        return None;
    }
    let base = match chunks.voxel(&c, x, y, z) {
        Some(v) => v,
        None => {
            return None;
        },
    };
    let light = if base.light_sky >= base.light_block {
        base.light_sky
    } else {
        base.light_block
    };
    if light < 9 {
        return None;
    }
    let wx = c.x * 16 + pos.x as i32;
    let wz = c.z * 16 + pos.z as i32;
    let sy = pos.y as i32 - 1;
    let has_water = water_beside(chunks, wx + 1, sy, wz) || water_beside(chunks, wx - 1, sy, wz) || water_beside(
        chunks,
        wx,
        sy,
        wz + 1,
    ) || water_beside(chunks, wx, sy, wz - 1);
    if !has_water {
        return None;
    }
    Some(light)
}

impl SugarCaneGrowthSystem {
    /// Positions are in strictly increasing order and the dirty set is well formed.
    pub closed spec fn wf(&self) -> bool {
        cane_sorted(self.base_positions@) && self.dirty_chunks.wf()
    }

    /// The registered base positions.
    pub closed spec fn bases(&self) -> Set<SugarCanePosition> {
        self.base_positions@.to_set()
    }

    /// Chunks that growth changed since they were last taken.
    pub closed spec fn dirty(&self) -> Set<ChunkPos> {
        self.dirty_chunks@
    }

    /// The world seed of the growth stream.
    pub closed spec fn seed(&self) -> u64 {
        self.world_seed
    }

    /// An empty system for the given world seed.
    pub fn new(world_seed: u64) -> (res: Self)
        ensures
            res.wf(),
            res.bases() == Set::<SugarCanePosition>::empty(),
            res.dirty() == Set::<ChunkPos>::empty(),
            res.seed() == world_seed,
    {
        let res = SugarCaneGrowthSystem { world_seed, base_positions: Vec::new(), dirty_chunks: ChunkPosSet::new() };
        assert(res.base_positions@.to_set() =~= Set::<SugarCanePosition>::empty());
        res
    }

    /// The world seed of the growth stream.
    pub fn world_seed(&self) -> (res: u64)
        ensures
            res == self.seed(),
    {
        self.world_seed
    }

    /// The registered base positions in position order.
    pub fn base_positions(&self) -> (res: Vec<SugarCanePosition>)
        requires
            self.wf(),
        ensures
            res@.to_set() == self.bases(),
            cane_sorted(res@),
    {
        let res = self.base_positions.clone();
        assert(res@ =~= self.base_positions@);
        res
    }

    /// Register a base sugar cane block for growth updates.
    pub fn register_base(&mut self, pos: SugarCanePosition)
        requires
            old(self).wf(),
        ensures
            final(self).wf(),
            final(self).bases() == old(self).bases().insert(pos),
            final(self).dirty() == old(self).dirty(),
            final(self).seed() == old(self).seed(),
    {
        let ghost s = self.base_positions@;
        let mut i: usize = 0;
        while i < self.base_positions.len() && cane_pos_less(&self.base_positions[i], &pos)
            invariant
                i <= s.len(),
                self.base_positions@ == s,
                forall|k: int| 0 <= k < i ==> cane_pos_lt(#[trigger] s[k], pos),
            decreases s.len() - i,
        {
            i = i + 1;
        }
        if i < self.base_positions.len() && cane_pos_same(&self.base_positions[i], &pos) {
            assert(s.to_set() =~= s.to_set().insert(pos)) by {
                assert(s.contains(pos));
            }
            return;
        }
        self.base_positions.insert(i, pos);
        proof {
            let t = self.base_positions@;
            assert(t == s.insert(i as int, pos));
            assert forall|a: int, b: int| 0 <= a < b < t.len() implies cane_pos_lt(#[trigger] t[a], #[trigger] t[b]) by {
                if b < i {
                } else if b == i {
                } else if a < i {
                    assert(t[b] == s[b - 1]);
                    assert(cane_pos_lt(s[a], pos));
                    if b - 1 > i {
                        assert(cane_pos_lt(s[i as int], s[b - 1]));
                    }
                    assert(!cane_pos_lt(s[i as int], pos));
                } else if a == i {
                    assert(t[b] == s[b - 1]);
                    assert(!cane_pos_lt(s[i as int], pos) && s[i as int] != pos);
                    if b - 1 > i {
                        assert(cane_pos_lt(s[i as int], s[b - 1]));
                    }
                } else {
                    assert(t[a] == s[a - 1] && t[b] == s[b - 1]);
                }
            }
            assert(t.to_set() =~= s.to_set().insert(pos)) by {
                assert forall|q: SugarCanePosition| t.contains(q) <==> (s.contains(q) || q == pos) by {
                    if t.contains(q) {
                        let k = choose|k: int| 0 <= k < t.len() && t[k] == q;
                        if k < i {
                            assert(s[k] == q);
                        } else if k > i {
                            assert(s[k - 1] == q);
                        }
                    }
                    if s.contains(q) {
                        let k = choose|k: int| 0 <= k < s.len() && s[k] == q;
                        if k < i {
                            assert(t[k] == q);
                        } else {
                            assert(t[k + 1] == q);
                        }
                    }
                    if q == pos {
                        assert(t[i as int] == q);
                    }
                }
            }
        }
    }

    /// Unregister every sugar cane base in a chunk (when it unloads).
    pub fn unregister_chunk(&mut self, chunk: ChunkPos)
        requires
            old(self).wf(),
        ensures
            final(self).wf(),
            final(self).bases() == old(self).bases().filter(|p: SugarCanePosition| p.chunk != chunk),
            final(self).dirty() == old(self).dirty(),
            final(self).seed() == old(self).seed(),
    {
        let ghost s = self.base_positions@;
        let mut kept: Vec<SugarCanePosition> = Vec::new();
        let mut i: usize = 0;
        while i < self.base_positions.len()
            invariant
                i <= s.len(),
                self.base_positions@ == s,
                cane_sorted(s),
                cane_sorted(kept@),
                forall|k: int| #![trigger kept@[k]] 0 <= k < kept@.len() ==> exists|m: int| 0 <= m < i && #[trigger] s[m] == kept@[k],
                forall|q: SugarCanePosition|
                    kept@.contains(q) <==> (exists|m: int| 0 <= m < i && s[m] == q) && q.chunk != chunk,
            decreases s.len() - i,
        {
            let p = self.base_positions[i];
            if !p.chunk.same(&chunk) {
                let ghost before = kept@;
                kept.push(p);
                proof {
                    assert forall|a: int, b: int| 0 <= a < b < kept@.len() implies cane_pos_lt(
                        #[trigger] kept@[a],
                        #[trigger] kept@[b],
                    ) by {
                        if b == before.len() {
                            let m = choose|m: int| 0 <= m < i && #[trigger] s[m] == before[a];
                            assert(cane_pos_lt(s[m], s[i as int]));
                        }
                    }
                    assert forall|k: int| #![trigger kept@[k]] 0 <= k < kept@.len() implies exists|m: int| 0 <= m < i + 1 && #[trigger] s[m] == kept@[k] by {
                        if k == before.len() {
                            assert(s[i as int] == kept@[k]);
                        } else {
                            let m = choose|m: int| 0 <= m < i && #[trigger] s[m] == before[k];
                            assert(s[m] == kept@[k]);
                        }
                    }
                    assert forall|q: SugarCanePosition|
                        kept@.contains(q) <==> (exists|m: int| 0 <= m < i + 1 && s[m] == q) && q.chunk != chunk by {
                        if kept@.contains(q) {
                            let k = choose|k: int| 0 <= k < kept@.len() && kept@[k] == q;
                            if k < before.len() {
                                assert(before.contains(q));
                            } else {
                                assert(s[i as int] == q);
                            }
                        }
                        if (exists|m: int| 0 <= m < i + 1 && s[m] == q) && q.chunk != chunk {
                            let m = choose|m: int| 0 <= m < i + 1 && s[m] == q;
                            if m < i {
                                assert(before.contains(q));
                                let k = choose|k: int| 0 <= k < before.len() && before[k] == q;
                                assert(kept@[k] == q);
                            } else {
                                assert(kept@[before.len() as int] == q);
                            }
                        }
                    }
                }
            } else {
                proof {
                    assert forall|k: int| #![trigger kept@[k]] 0 <= k < kept@.len() implies exists|m: int| 0 <= m < i + 1 && #[trigger] s[m] == kept@[k] by {
                        let m = choose|m: int| 0 <= m < i && #[trigger] s[m] == kept@[k];
                        assert(s[m] == kept@[k]);
                    }
                    assert forall|q: SugarCanePosition|
                        kept@.contains(q) <==> (exists|m: int| 0 <= m < i + 1 && s[m] == q) && q.chunk != chunk by {
                        if (exists|m: int| 0 <= m < i + 1 && s[m] == q) && q.chunk != chunk {
                            let m = choose|m: int| 0 <= m < i + 1 && s[m] == q;
                            if m == i {
                                assert(q.chunk == chunk);
                            }
                        }
                    }
                }
            }
            i = i + 1;
        }
        self.base_positions = kept;
        proof {
            assert(self.base_positions@.to_set() =~= s.to_set().filter(|p: SugarCanePosition| p.chunk != chunk)) by {
                assert forall|q: SugarCanePosition| self.base_positions@.contains(q) <==> (s.contains(q) && q.chunk != chunk) by {
                    if s.contains(q) {
                        let m = choose|m: int| 0 <= m < s.len() && s[m] == q;
                        assert(exists|m: int| 0 <= m < s.len() && s[m] == q);
                    }
                }
            }
        }
    }

    /// Unregister one base position (no effect when it is not registered).
    fn remove_base(&mut self, pos: SugarCanePosition)
        requires
            old(self).wf(),
        ensures
            final(self).wf(),
            final(self).bases() == old(self).bases().remove(pos),
            final(self).dirty() == old(self).dirty(),
            final(self).seed() == old(self).seed(),
    {
        let ghost s = self.base_positions@;
        let mut i: usize = 0;
        while i < self.base_positions.len()
            invariant
                i <= s.len(),
                self.base_positions@ == s,
                cane_sorted(s),
                s == old(self).base_positions@,
                self.dirty_chunks.wf(),
                self.dirty() == old(self).dirty(),
                self.seed() == old(self).seed(),
                forall|k: int| 0 <= k < i ==> #[trigger] s[k] != pos,
            decreases s.len() - i,
        {
            if cane_pos_same(&self.base_positions[i], &pos) {
                self.base_positions.remove(i);
                proof {
                    let t = self.base_positions@;
                    assert(t == s.remove(i as int));
                    assert forall|a: int, b: int| 0 <= a < b < t.len() implies cane_pos_lt(#[trigger] t[a], #[trigger] t[b]) by {
                        if a < i && b >= i {
                            assert(t[b] == s[b + 1]);
                        } else if a >= i {
                            assert(t[a] == s[a + 1] && t[b] == s[b + 1]);
                        }
                    }
                    assert(t.to_set() =~= s.to_set().remove(pos)) by {
                        assert forall|q: SugarCanePosition| t.contains(q) <==> (s.contains(q) && q != pos) by {
                            if t.contains(q) {
                                let k = choose|k: int| 0 <= k < t.len() && t[k] == q;
                                if k < i {
                                    assert(s[k] == q);
                                    assert(cane_pos_lt(s[k], s[i as int]));
                                } else {
                                    assert(s[k + 1] == q);
                                    assert(cane_pos_lt(s[i as int], s[k + 1]));
                                }
                            }
                            if s.contains(q) && q != pos {
                                let k = choose|k: int| 0 <= k < s.len() && s[k] == q;
                                if k < i {
                                    assert(t[k] == q);
                                } else {
                                    assert(k != i);
                                    assert(t[k - 1] == q);
                                }
                            }
                        }
                    }
                }
                return;
            }
            i = i + 1;
        }
        assert(s.to_set() =~= s.to_set().remove(pos));
    }

    /// The checks before the growth roll. A base whose chunk is not loaded is skipped; one
    /// that no longer holds cane is unregistered; one with cane below it is replaced by the
    /// bottom of its run. Returns true when the base is a true base, for which the growth
    /// roll is drawn.
    pub fn prepare_growth(&mut self, pos: SugarCanePosition, chunks: &ChunkMap) -> (rolls: bool)
        requires
            old(self).wf(),
            chunks.wf(),
            cane_pos_valid(pos),
        ensures
            final(self).wf(),
            final(self).dirty() == old(self).dirty(),
            final(self).seed() == old(self).seed(),
            ({
                let c = pos.chunk;
                let cells = chunks.cells_at(c);
                let (x, y, z) = (pos.x as int, pos.y as int, pos.z as int);
                if !chunks.keys().contains(c) {
                    !rolls && final(self).bases() == old(self).bases()
                } else if !is_cane(cells[voxel_index(x, y, z)]) {
                    !rolls && final(self).bases() == old(self).bases().remove(pos)
                } else if y > 0 && is_cane(cells[voxel_index(x, y - 1, z)]) {
                    !rolls && final(self).bases() == old(self).bases().remove(pos).insert(
                        SugarCanePosition { y: cane_bottom(cells, x, y, z) as u8, ..pos },
                    )
                } else {
                    rolls && final(self).bases() == old(self).bases()
                }
            }),
    {
        let chunk = match chunks.get(&pos.chunk) {
            Some(c) => c,
            None => {
                return false;
            },
        };
        let ghost cells = chunks.cells_at(pos.chunk);
        let x = pos.x as usize;
        let y = pos.y as usize;
        let z = pos.z as usize;
        if y >= CHUNK_SIZE_Y {
            self.remove_base(pos);
            return false;
        }
        let base_voxel = chunk.voxel(x, y, z);
        if base_voxel.id != BLOCK_SUGAR_CANE {
            self.remove_base(pos);
            return false;
        }
        if y > 0 {
            let below = chunk.voxel(x, y - 1, z);
            if below.id == BLOCK_SUGAR_CANE {
                let mut base_y = y;
                while base_y > 0 && chunk.voxel(x, base_y - 1, z).id == BLOCK_SUGAR_CANE
                    invariant
                        base_y <= y,
                        chunk.wf(),
                        chunk.cells() == cells,
                        in_chunk(x as int, y as int, z as int),
                        cane_bottom(cells, x as int, y as int, z as int) == cane_bottom(cells, x as int, base_y as int, z as int),
                    decreases base_y,
                {
                    base_y = base_y - 1;
                }
                let corrected = SugarCanePosition { chunk: pos.chunk, x: pos.x, y: base_y as u8, z: pos.z };
                self.remove_base(pos);
                self.register_base(corrected);
                return false;
            }
        }
        true
    }

    /// Grow the cane column at a base by one block: when fewer than three cane blocks stand
    /// from the base up and the cell above them holds air, it becomes cane (keeping the
    /// cell's light) and the chunk is marked dirty. Otherwise nothing changes.
    pub fn grow_column(&mut self, pos: SugarCanePosition, chunks: &mut ChunkMap)
        requires
            old(self).wf(),
            old(chunks).wf(),
            cane_pos_valid(pos),
        ensures
            final(self).wf(),
            final(self).bases() == old(self).bases(),
            final(self).seed() == old(self).seed(),
            final(chunks).wf(),
            final(chunks).keys() == old(chunks).keys(),
            ({
                let c = pos.chunk;
                let cells = old(chunks).cells_at(c);
                let (x, y, z) = (pos.x as int, pos.y as int, pos.z as int);
                let top = y + cane_run(cells, x, y, z);
                if old(chunks).keys().contains(c) && top - y < 3 && top < 256 && cells[voxel_index(x, top, z)].id
                    == BLOCK_AIR {
                    &&& final(chunks).cells_at(c) == cells.update(
                        voxel_index(x, top, z),
                        grown_cane(cells[voxel_index(x, top, z)]),
                    )
                    &&& forall|q: ChunkPos|
                        q != c && old(chunks).keys().contains(q) ==> #[trigger] final(chunks).cells_at(q)
                            == old(chunks).cells_at(q)
                    &&& final(self).dirty() == old(self).dirty().insert(c)
                } else {
                    &&& *final(chunks) == *old(chunks)
                    &&& final(self).dirty() == old(self).dirty()
                }
            }),
    {
        let ghost cells = chunks.cells_at(pos.chunk);
        let x = pos.x as usize;
        let y = pos.y as usize;
        let z = pos.z as usize;
        let chunk = match chunks.get(&pos.chunk) {
            Some(c) => c,
            None => {
                return;
            },
        };
        let mut height: usize = 0;
        while y + height < CHUNK_SIZE_Y && chunk.voxel(x, y + height, z).id == BLOCK_SUGAR_CANE
            invariant
                y + height <= CHUNK_SIZE_Y,
                y < 256,
                x < 16,
                z < 16,
                chunk.wf(),
                chunk.cells() == cells,
                cane_run(cells, x as int, y as int, z as int) == height + cane_run(cells, x as int, (y + height) as int, z as int),
            decreases CHUNK_SIZE_Y - (y + height),
        {
            height = height + 1;
        }
        if height >= 3 {
            return;
        }
        let place_y = y + height;
        if place_y >= CHUNK_SIZE_Y {
            return;
        }
        let above = chunk.voxel(x, place_y, z);
        if above.id != BLOCK_AIR {
            return;
        }
        let grown = Voxel { id: BLOCK_SUGAR_CANE, state: 0, light_sky: above.light_sky, light_block: above.light_block };
        if chunks.set_voxel(&pos.chunk, x, place_y, z, grown) {
            self.dirty_chunks.insert(pos.chunk);
        }
    }

    /// Hand over the chunks that growth changed and start a new, empty set.
    pub fn take_dirty_chunks(&mut self) -> (res: ChunkPosSet)
        requires
            old(self).wf(),
        ensures
            final(self).wf(),
            res.wf(),
            res@ == old(self).dirty(),
            final(self).dirty() == Set::<ChunkPos>::empty(),
            final(self).bases() == old(self).bases(),
            final(self).seed() == old(self).seed(),
    {
        let mut res = ChunkPosSet::new();
        std::mem::swap(&mut res, &mut self.dirty_chunks);
        res
    }
}

} // verus!
