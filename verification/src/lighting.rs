//! Two-channel flood-fill lighting: skylight and block light (0-15), propagated breadth first
//! inside a chunk, with the light that leaves the chunk collected as updates for neighbors.

use crate::chunk::{in_chunk, voxel_index, lemma_voxel_index_bounds, Chunk, ChunkMap, ChunkPos, LocalPos, Voxel, BLOCK_AIR, BlockId, CHUNK_SIZE_X, CHUNK_SIZE_Y, CHUNK_SIZE_Z, CHUNK_VOLUME};
use std::collections::VecDeque;
use vstd::prelude::*;

verus! {

/// Brightest light level.
pub const MAX_LIGHT_LEVEL: u8 = 15;

/// Complete darkness.
pub const MIN_LIGHT_LEVEL: u8 = 0;

/// Number of block ids: one opacity entry per id.
pub const BLOCK_ID_COUNT: usize = 65536;

/// A block position: a chunk and a position inside it.
#[derive(Debug, Clone, Copy, PartialEq, Eq, Hash)]
pub struct BlockPos {
    pub chunk: ChunkPos,
    pub local: LocalPos,
}

impl BlockPos {
    pub fn new(chunk: ChunkPos, local: LocalPos) -> (res: Self)
        ensures
            res.chunk == chunk,
            res.local == local,
    {
        BlockPos { chunk, local }
    }
}

/// The two light channels.
#[derive(Debug, Clone, Copy, PartialEq, Eq, Structural)]
pub enum LightType {
    Skylight,
    BlockLight,
}

/// Light that leaves a chunk and has to be applied to a neighbor.
#[derive(Debug, Clone, Copy, PartialEq, Eq)]
pub struct CrossChunkLightUpdate {
    /// The neighboring chunk.
    pub target_chunk: ChunkPos,
    /// The position inside the neighboring chunk.
    pub target_pos: LocalPos,
    /// The light level arriving there.
    pub level: u8,
    /// The channel.
    pub light_type: LightType,
}

/// Result of a propagation run.
#[derive(Debug, Clone, Default)]
pub struct LightPropagationResult {
    /// Queue entries processed inside the chunk.
    pub nodes_processed: usize,
    /// Light leaving the chunk.
    pub cross_chunk_updates: Vec<CrossChunkLightUpdate>,
}

/// Summary of a lighting run on one chunk.
#[derive(Debug, Clone)]
pub struct LightUpdate {
    pub chunk_pos: ChunkPos,
    pub light_type: LightType,
    pub nodes_processed: usize,
}

/// Light level of a voxel in a channel.
pub open spec fn level_of(v: Voxel, t: LightType) -> u8 {
    match t {
        LightType::Skylight => v.light_sky,
        LightType::BlockLight => v.light_block,
    }
}

/// A voxel with the light of one channel replaced.
pub open spec fn with_level(v: Voxel, t: LightType, l: u8) -> Voxel {
    match t {
        LightType::Skylight => Voxel { light_sky: l, ..v },
        LightType::BlockLight => Voxel { light_block: l, ..v },
    }
}

/// Light of a channel at a local position of a voxel array.
pub open spec fn light_at(cells: Seq<Voxel>, t: LightType, x: int, y: int, z: int) -> int {
    level_of(cells[voxel_index(x, y, z)], t) as int
}

/// `b` is `a` with at most the light of channel `t` changed.
pub open spec fn same_but_light(a: Voxel, b: Voxel, t: LightType) -> bool {
    b == with_level(a, t, level_of(b, t))
}

/// Offsets of the six neighbor directions: up, down, east, west, south, north.
pub open spec fn dir_dx(d: int) -> int {
    if d == 2 {
        1
    } else if d == 3 {
        -1
    } else {
        0
    }
}

pub open spec fn dir_dy(d: int) -> int {
    if d == 0 {
        1
    } else if d == 1 {
        -1
    } else {
        0
    }
}

pub open spec fn dir_dz(d: int) -> int {
    if d == 4 {
        1
    } else if d == 5 {
        -1
    } else {
        0
    }
}

/// Light passed to the neighbor in direction `d`: one less, except skylight going down,
/// which keeps its level.
pub open spec fn decayed(l: int, t: LightType, d: int) -> int {
    if t == LightType::Skylight && d == 1 {
        l
    } else if l <= 0 {
        0
    } else {
        l - 1
    }
}

/// Whether the block id is opaque according to an opacity table.
pub open spec fn opaque_id(opaque: Seq<bool>, id: BlockId) -> bool {
    opaque[id as int]
}

/// The lighting step from a changed cell to one neighbor holds: if the cell at (x, y, z)
/// gained light, its in-chunk, see-through neighbor in direction `d` is at least as bright
/// as the decayed light.
pub open spec fn spreads_from(
    before: Seq<Voxel>,
    after: Seq<Voxel>,
    opaque: Seq<bool>,
    t: LightType,
    x: int,
    y: int,
    z: int,
    d: int,
) -> bool {
    let nx = x + dir_dx(d);
    let ny = y + dir_dy(d);
    let nz = z + dir_dz(d);
    (in_chunk(x, y, z) && light_at(after, t, x, y, z) > light_at(before, t, x, y, z) && in_chunk(
        nx,
        ny,
        nz,
    ) && !opaque_id(opaque, before[voxel_index(nx, ny, nz)].id)) ==> light_at(after, t, nx, ny, nz)
        >= decayed(light_at(after, t, x, y, z), t, d)
}

/// Distance along which light of channel `t` decays from `s` to (x, y, z): skylight going
/// down costs nothing.
pub open spec fn light_dist(t: LightType, s: LocalPos, x: int, y: int, z: int) -> int {
    let ax = if x >= s.x {
        x - s.x
    } else {
        s.x - x
    };
    let az = if z >= s.z {
        z - s.z
    } else {
        s.z - z
    };
    let ay = if t == LightType::Skylight {
        if y >= s.y {
            y - s.y
        } else {
            0
        }
    } else if y >= s.y {
        y - s.y
    } else {
        s.y - y
    };
    ax + ay + az
}

/// Some seed reaches (x, y, z) with at least `l` light.
pub open spec fn seeded(seeds: Seq<(LocalPos, u8)>, t: LightType, x: int, y: int, z: int, l: int) -> bool {
    exists|k: int| 0 <= k < seeds.len() && (#[trigger] seeds[k]).1 - light_dist(t, seeds[k].0, x, y, z) >= l
}

/// The position one step from `p` in direction `d`, as plain integers.
pub open spec fn step_x(p: LocalPos, d: int) -> int {
    p.x + dir_dx(d)
}

pub open spec fn step_y(p: LocalPos, d: int) -> int {
    p.y + dir_dy(d)
}

pub open spec fn step_z(p: LocalPos, d: int) -> int {
    p.z + dir_dz(d)
}

/// A local position from integers.
pub open spec fn local(x: int, y: int, z: int) -> LocalPos {
    LocalPos { x: x as usize, y: y as usize, z: z as usize }
}

pub open spec fn local_in_chunk(p: LocalPos) -> bool {
    in_chunk(p.x as int, p.y as int, p.z as int)
}

/// The cross-chunk update sent from chunk `c`, cell `p`, in horizontal direction `d` with
/// light `l`: to the adjacent chunk, on the facing edge.
pub open spec fn crossing(c: ChunkPos, p: LocalPos, d: int, l: int, t: LightType) -> CrossChunkLightUpdate {
    let nx = step_x(p, d);
    let nz = step_z(p, d);
    CrossChunkLightUpdate {
        target_chunk: ChunkPos {
            x: (if nx < 0 {
                c.x - 1
            } else if nx >= 16 {
                c.x + 1
            } else {
                c.x as int
            }) as i32,
            z: (if nz < 0 {
                c.z - 1
            } else if nz >= 16 {
                c.z + 1
            } else {
                c.z as int
            }) as i32,
        },
        target_pos: local(
            if nx < 0 {
                15
            } else if nx >= 16 {
                0
            } else {
                nx
            },
            step_y(p, d),
            if nz < 0 {
                15
            } else if nz >= 16 {
                0
            } else {
                nz
            },
        ),
        level: l as u8,
        light_type: t,
    }
}

/// Whether the step from `p` in direction `d` leaves the chunk sideways (but not vertically).
pub open spec fn leaves_sideways(p: LocalPos, d: int) -> bool {
    0 <= step_y(p, d) < 256 && !(0 <= step_x(p, d) < 16 && 0 <= step_z(p, d) < 16)
}

/// Chunk coordinates that can step to a neighbor chunk without overflow.
pub open spec fn pos_has_neighbors(c: ChunkPos) -> bool {
    i32::MIN < c.x < i32::MAX && i32::MIN < c.z < i32::MAX
}

/// `node` occurs in `q` at an index in `[lo, hi)`.
pub open spec fn queued_between(q: Seq<(LocalPos, u8)>, lo: int, hi: int, node: (LocalPos, u8)) -> bool {
    exists|j: int| lo <= j < hi && q[j] == node
}

/// `u` occurs in `us` at an index in `[lo, hi)`.
pub open spec fn recorded_between(
    us: Seq<CrossChunkLightUpdate>,
    lo: int,
    hi: int,
    u: CrossChunkLightUpdate,
) -> bool {
    exists|j: int| lo <= j < hi && us[j] == u
}

/// `n` is the entry queued for a neighbor of `pos` lit at `level`.
pub open spec fn neighbor_node(pos: LocalPos, level: u8, t: LightType, n: (LocalPos, u8)) -> bool {
    exists|d: int|
        0 <= d < 6 && in_chunk(step_x(pos, d), step_y(pos, d), step_z(pos, d)) && n.0 == local(
            step_x(pos, d),
            step_y(pos, d),
            step_z(pos, d),
        ) && n.1 == decayed(level as int, t, d) && n.1 > 0
}

/// The entry queued for the neighbor of `pos` in direction `d`.
pub open spec fn node_toward(pos: LocalPos, level: u8, t: LightType, d: int) -> (LocalPos, u8) {
    (local(step_x(pos, d), step_y(pos, d), step_z(pos, d)), decayed(level as int, t, d) as u8)
}

/// The neighbor of `pos` in direction `d` is inside the chunk and lets light through.
pub open spec fn open_toward(chunk: Chunk, opaque: Seq<bool>, pos: LocalPos, d: int) -> bool {
    in_chunk(step_x(pos, d), step_y(pos, d), step_z(pos, d)) && !opaque_id(
        opaque,
        chunk.at(step_x(pos, d), step_y(pos, d), step_z(pos, d)).id,
    )
}

/// Total missing light of a channel over a voxel array (255 minus each level); it shrinks
/// whenever a cell gets brighter.
pub open spec fn deficit(cells: Seq<Voxel>, t: LightType) -> int
    decreases cells.len(),
{
    if cells.len() == 0 {
        0
    } else {
        deficit(cells.drop_last(), t) + (255 - level_of(cells.last(), t))
    }
}

proof fn lemma_deficit_nonneg(cells: Seq<Voxel>, t: LightType)
    ensures
        deficit(cells, t) >= 0,
    decreases cells.len(),
{
    if cells.len() > 0 {
        lemma_deficit_nonneg(cells.drop_last(), t);
    }
}

proof fn lemma_deficit_update(cells: Seq<Voxel>, t: LightType, i: int, v: Voxel)
    requires
        0 <= i < cells.len(),
    ensures
        deficit(cells.update(i, v), t) == deficit(cells, t) + level_of(cells[i], t) - level_of(v, t),
    decreases cells.len(),
{
    if i == cells.len() - 1 {
        assert(cells.update(i, v).drop_last() =~= cells.drop_last());
    } else {
        lemma_deficit_update(cells.drop_last(), t, i, v);
        assert(cells.update(i, v).drop_last() =~= cells.drop_last().update(i, v));
    }
}

proof fn lemma_same_cell(x: int, y: int, z: int, p: LocalPos)
    requires
        in_chunk(x, y, z),
        local_in_chunk(p),
        voxel_index(x, y, z) == voxel_index(p.x as int, p.y as int, p.z as int),
    ensures
        p == local(x, y, z),
        x == p.x && y == p.y && z == p.z,
{
}

/// A cell that gained light holds no more than some seed can deliver over the distance.
pub open spec fn seed_bounded(
    before: Seq<Voxel>,
    after: Seq<Voxel>,
    seeds: Seq<(LocalPos, u8)>,
    t: LightType,
    x: int,
    y: int,
    z: int,
) -> bool {
    (in_chunk(x, y, z) && light_at(after, t, x, y, z) > light_at(before, t, x, y, z)) ==> seeded(
        seeds,
        t,
        x,
        y,
        z,
        light_at(after, t, x, y, z),
    )
}

/// A cell that gained light has sent its decayed light across the chunk edge in direction
/// `d`, when that direction leaves the chunk sideways.
pub open spec fn sent_across(
    before: Seq<Voxel>,
    after: Seq<Voxel>,
    us: Seq<CrossChunkLightUpdate>,
    lo: int,
    c: ChunkPos,
    t: LightType,
    x: int,
    y: int,
    z: int,
    d: int,
) -> bool {
    let dl = decayed(light_at(after, t, x, y, z), t, d);
    (in_chunk(x, y, z) && light_at(after, t, x, y, z) > light_at(before, t, x, y, z)
        && leaves_sideways(local(x, y, z), d) && dl > 0) ==> recorded_between(
        us,
        lo,
        us.len() as int,
        crossing(c, local(x, y, z), d, dl, t),
    )
}

proof fn lemma_seeded_step(seeds: Seq<(LocalPos, u8)>, t: LightType, pos: LocalPos, level: u8, d: int)
    requires
        0 <= d < 6,
        level > 0,
        seeded(seeds, t, pos.x as int, pos.y as int, pos.z as int, level as int),
    ensures
        seeded(
            seeds,
            t,
            step_x(pos, d),
            step_y(pos, d),
            step_z(pos, d),
            decayed(level as int, t, d),
        ),
{
    let k = choose|k: int|
        0 <= k < seeds.len() && (#[trigger] seeds[k]).1 - light_dist(
            t,
            seeds[k].0,
            pos.x as int,
            pos.y as int,
            pos.z as int,
        ) >= level;
    assert(seeds[k].1 - light_dist(t, seeds[k].0, step_x(pos, d), step_y(pos, d), step_z(pos, d))
        >= decayed(level as int, t, d));
}

/// Like `spreads_from`, but the step may still be owed by an entry waiting in the queue.
pub open spec fn spread_or_pending(
    before: Seq<Voxel>,
    after: Seq<Voxel>,
    q: Seq<(LocalPos, u8)>,
    opaque: Seq<bool>,
    t: LightType,
    x: int,
    y: int,
    z: int,
    d: int,
) -> bool {
    let nx = x + dir_dx(d);
    let ny = y + dir_dy(d);
    let nz = z + dir_dz(d);
    let dl = decayed(light_at(after, t, x, y, z), t, d);
    (in_chunk(x, y, z) && light_at(after, t, x, y, z) > light_at(before, t, x, y, z) && in_chunk(
        nx,
        ny,
        nz,
    ) && !opaque_id(opaque, before[voxel_index(nx, ny, nz)].id)) ==> (light_at(after, t, nx, ny, nz)
        >= dl || queued_between(q, 0, q.len() as int, (local(nx, ny, nz), dl as u8)))
}

proof fn lemma_spread_after_set(
    s0: Seq<Voxel>,
    cells_b: Seq<Voxel>,
    cells_a: Seq<Voxel>,
    q_b: Seq<(LocalPos, u8)>,
    q_s: Seq<(LocalPos, u8)>,
    q_a: Seq<(LocalPos, u8)>,
    opq: Seq<bool>,
    t: LightType,
    pos: LocalPos,
    level: u8,
    chunk: Chunk,
)
    requires
        s0.len() == CHUNK_VOLUME,
        cells_b.len() == CHUNK_VOLUME,
        local_in_chunk(pos),
        light_at(cells_b, t, pos.x as int, pos.y as int, pos.z as int) < level,
        cells_a == cells_b.update(
            voxel_index(pos.x as int, pos.y as int, pos.z as int),
            with_level(cells_b[voxel_index(pos.x as int, pos.y as int, pos.z as int)], t, level),
        ),
        chunk.cells() == cells_a,
        forall|i: int|
            0 <= i < CHUNK_VOLUME ==> same_but_light(s0[i], #[trigger] cells_b[i], t) && level_of(
                cells_b[i],
                t,
            ) >= level_of(s0[i], t),
        q_b.len() > 0,
        q_b[0] == (pos, level),
        q_s == q_b.drop_first(),
        q_s.len() <= q_a.len(),
        forall|j: int| 0 <= j < q_s.len() ==> #[trigger] q_a[j] == q_s[j],
        forall|d: int|
            0 <= d < 6 && open_toward(chunk, opq, pos, d) && decayed(level as int, t, d) > 0
                ==> #[trigger] queued_between(
                q_a,
                q_s.len() as int,
                q_a.len() as int,
                node_toward(pos, level, t, d),
            ),
        forall|x: int, y: int, z: int, d: int|
            0 <= d < 6 ==> #[trigger] spread_or_pending(s0, cells_b, q_b, opq, t, x, y, z, d),
    ensures
        forall|x: int, y: int, z: int, d: int|
            0 <= d < 6 ==> #[trigger] spread_or_pending(s0, cells_a, q_a, opq, t, x, y, z, d),
{
    let pidx = voxel_index(pos.x as int, pos.y as int, pos.z as int);
    assert forall|x: int, y: int, z: int, d: int|
        0 <= d < 6 implies #[trigger] spread_or_pending(s0, cells_a, q_a, opq, t, x, y, z, d) by {
        assert(spread_or_pending(s0, cells_b, q_b, opq, t, x, y, z, d));
        let nx = x + dir_dx(d);
        let ny = y + dir_dy(d);
        let nz = z + dir_dz(d);
        if in_chunk(x, y, z) && in_chunk(nx, ny, nz) {
            let xi = voxel_index(x, y, z);
            let ni = voxel_index(nx, ny, nz);
            if xi == pidx {
                lemma_same_cell(x, y, z, pos);
                let dl = decayed(level as int, t, d);
                if dl > 0 && !opaque_id(opq, s0[ni].id) {
                    assert(cells_a[ni].id == s0[ni].id) by {
                        assert(same_but_light(s0[ni], cells_b[ni], t));
                        if ni != pidx {
                            assert(cells_a[ni] == cells_b[ni]);
                        }
                    }
                    assert(open_toward(chunk, opq, pos, d));
                    assert(queued_between(q_a, q_s.len() as int, q_a.len() as int, node_toward(pos, level, t, d)));
                    let j = choose|j: int| q_s.len() <= j < q_a.len() && q_a[j] == node_toward(pos, level, t, d);
                    assert(queued_between(q_a, 0, q_a.len() as int, (local(nx, ny, nz), dl as u8)));
                }
            } else {
                assert(cells_a[xi] == cells_b[xi]);
                let dl = decayed(light_at(cells_b, t, x, y, z), t, d);
                let node = (local(nx, ny, nz), dl as u8);
                if queued_between(q_b, 0, q_b.len() as int, node) {
                    let j = choose|j: int| 0 <= j < q_b.len() && q_b[j] == node;
                    if j > 0 {
                        assert(q_a[j - 1] == node);
                    } else {
                        lemma_same_cell(nx, ny, nz, pos);
                    }
                } else if ni != pidx {
                    assert(cells_a[ni] == cells_b[ni]);
                }
            }
        }
    }
}

proof fn lemma_seeds_after_set(
    s0: Seq<Voxel>,
    cells_b: Seq<Voxel>,
    cells_a: Seq<Voxel>,
    q0: Seq<(LocalPos, u8)>,
    q_b: Seq<(LocalPos, u8)>,
    q_s: Seq<(LocalPos, u8)>,
    q_a: Seq<(LocalPos, u8)>,
    t: LightType,
    pos: LocalPos,
    level: u8,
)
    requires
        cells_b.len() == CHUNK_VOLUME,
        local_in_chunk(pos),
        level > 0,
        cells_a == cells_b.update(
            voxel_index(pos.x as int, pos.y as int, pos.z as int),
            with_level(cells_b[voxel_index(pos.x as int, pos.y as int, pos.z as int)], t, level),
        ),
        seeded(q0, t, pos.x as int, pos.y as int, pos.z as int, level as int),
        q_b.len() > 0,
        q_s == q_b.drop_first(),
        q_s.len() <= q_a.len(),
        forall|j: int| 0 <= j < q_s.len() ==> #[trigger] q_a[j] == q_s[j],
        forall|j: int|
            q_s.len() <= j < q_a.len() ==> local_in_chunk((#[trigger] q_a[j]).0) && neighbor_node(
                pos,
                level,
                t,
                q_a[j],
            ),
        forall|j: int|
            0 <= j < q_b.len() ==> #[trigger] seeded(
                q0,
                t,
                q_b[j].0.x as int,
                q_b[j].0.y as int,
                q_b[j].0.z as int,
                q_b[j].1 as int,
            ),
        forall|x: int, y: int, z: int| #[trigger] seed_bounded(s0, cells_b, q0, t, x, y, z),
    ensures
        forall|j: int|
            0 <= j < q_a.len() ==> #[trigger] seeded(
                q0,
                t,
                q_a[j].0.x as int,
                q_a[j].0.y as int,
                q_a[j].0.z as int,
                q_a[j].1 as int,
            ),
        forall|x: int, y: int, z: int| #[trigger] seed_bounded(s0, cells_a, q0, t, x, y, z),
{
    let pidx = voxel_index(pos.x as int, pos.y as int, pos.z as int);
    assert forall|j: int| 0 <= j < q_a.len() implies #[trigger] seeded(
        q0,
        t,
        q_a[j].0.x as int,
        q_a[j].0.y as int,
        q_a[j].0.z as int,
        q_a[j].1 as int,
    ) by {
        if j < q_s.len() {
            assert(q_a[j] == q_s[j]);
            assert(q_s[j] == q_b[j + 1]);
            assert(seeded(
                q0,
                t,
                q_b[j + 1].0.x as int,
                q_b[j + 1].0.y as int,
                q_b[j + 1].0.z as int,
                q_b[j + 1].1 as int,
            ));
        } else {
            assert(neighbor_node(pos, level, t, q_a[j]));
            let d = choose|d: int|
                0 <= d < 6 && in_chunk(step_x(pos, d), step_y(pos, d), step_z(pos, d)) && q_a[j].0
                    == local(step_x(pos, d), step_y(pos, d), step_z(pos, d)) && q_a[j].1 == decayed(
                    level as int,
                    t,
                    d,
                ) && q_a[j].1 > 0;
            lemma_seeded_step(q0, t, pos, level, d);
        }
    }
    assert forall|x: int, y: int, z: int| #[trigger] seed_bounded(s0, cells_a, q0, t, x, y, z) by {
        assert(seed_bounded(s0, cells_b, q0, t, x, y, z));
        if in_chunk(x, y, z) {
            let xi = voxel_index(x, y, z);
            if xi == pidx {
                lemma_same_cell(x, y, z, pos);
            } else {
                assert(cells_a[xi] == cells_b[xi]);
            }
        }
    }
}

proof fn lemma_sent_after_set(
    s0: Seq<Voxel>,
    cells_b: Seq<Voxel>,
    cells_a: Seq<Voxel>,
    lo: int,
    u_b: Seq<CrossChunkLightUpdate>,
    u_a: Seq<CrossChunkLightUpdate>,
    c: ChunkPos,
    t: LightType,
    pos: LocalPos,
    level: u8,
)
    requires
        cells_b.len() == CHUNK_VOLUME,
        local_in_chunk(pos),
        0 <= lo <= u_b.len() <= u_a.len(),
        cells_a == cells_b.update(
            voxel_index(pos.x as int, pos.y as int, pos.z as int),
            with_level(cells_b[voxel_index(pos.x as int, pos.y as int, pos.z as int)], t, level),
        ),
        forall|j: int| 0 <= j < u_b.len() ==> #[trigger] u_a[j] == u_b[j],
        forall|d: int|
            0 <= d < 6 && leaves_sideways(pos, d) && decayed(level as int, t, d) > 0
                ==> #[trigger] recorded_between(
                u_a,
                u_b.len() as int,
                u_a.len() as int,
                crossing(c, pos, d, decayed(level as int, t, d), t),
            ),
        forall|x: int, y: int, z: int, d: int|
            0 <= d < 6 ==> #[trigger] sent_across(s0, cells_b, u_b, lo, c, t, x, y, z, d),
    ensures
        forall|x: int, y: int, z: int, d: int|
            0 <= d < 6 ==> #[trigger] sent_across(s0, cells_a, u_a, lo, c, t, x, y, z, d),
{
    let pidx = voxel_index(pos.x as int, pos.y as int, pos.z as int);
    assert forall|x: int, y: int, z: int, d: int|
        0 <= d < 6 implies #[trigger] sent_across(s0, cells_a, u_a, lo, c, t, x, y, z, d) by {
        assert(sent_across(s0, cells_b, u_b, lo, c, t, x, y, z, d));
        if in_chunk(x, y, z) {
            let xi = voxel_index(x, y, z);
            if xi == pidx {
                lemma_same_cell(x, y, z, pos);
                let dl = decayed(level as int, t, d);
                if leaves_sideways(local(x, y, z), d) && dl > 0 {
                    let cr = crossing(c, pos, d, dl, t);
                    assert(recorded_between(u_a, u_b.len() as int, u_a.len() as int, cr));
                    let j = choose|j: int| u_b.len() <= j < u_a.len() && u_a[j] == cr;
                    assert(recorded_between(u_a, lo, u_a.len() as int, cr));
                }
            } else {
                assert(cells_a[xi] == cells_b[xi]);
                let dl = decayed(light_at(cells_b, t, x, y, z), t, d);
                let cr = crossing(c, local(x, y, z), d, dl, t);
                if recorded_between(u_b, lo, u_b.len() as int, cr) {
                    let j = choose|j: int| lo <= j < u_b.len() && u_b[j] == cr;
                    assert(u_a[j] == cr);
                }
            }
        }
    }
}

/// `after` extends `before`: same prefix, possibly more at the end.
pub open spec fn extends<T>(before: Seq<T>, after: Seq<T>) -> bool {
    before.len() <= after.len() && forall|j: int| 0 <= j < before.len() ==> #[trigger] after[j] == before[j]
}

/// What a propagation run in one chunk guarantees, for channel `t`, from the voxels `before`
/// and the queued `seeds` to the voxels `after`, with opacity by block id from `opaque`:
/// only the channel's light changed and only upward; every seed cell is at least as bright as
/// its seed; every cell that got brighter lit each see-through in-chunk neighbor to at least
/// the decayed light; and no cell got brighter than some seed can deliver over the distance.
pub open spec fn lit_from(
    before: Seq<Voxel>,
    after: Seq<Voxel>,
    seeds: Seq<(LocalPos, u8)>,
    opaque: Seq<bool>,
    t: LightType,
) -> bool {
    &&& after.len() == CHUNK_VOLUME
    &&& forall|i: int|
        0 <= i < CHUNK_VOLUME ==> same_but_light(before[i], #[trigger] after[i], t) && level_of(
            after[i],
            t,
        ) >= level_of(before[i], t)
    &&& forall|k: int|
        0 <= k < seeds.len() ==> light_at(
            after,
            t,
            (#[trigger] seeds[k]).0.x as int,
            seeds[k].0.y as int,
            seeds[k].0.z as int,
        ) >= seeds[k].1
    &&& forall|x: int, y: int, z: int, d: int|
        0 <= d < 6 ==> #[trigger] spreads_from(before, after, opaque, t, x, y, z, d)
    &&& forall|x: int, y: int, z: int| #[trigger] seed_bounded(before, after, seeds, t, x, y, z)
}

/// Every cell that got brighter sent its decayed light over each chunk edge it touches,
/// as a cross-chunk update recorded in `us` from index `lo` on.
pub open spec fn sends_across(
    before: Seq<Voxel>,
    after: Seq<Voxel>,
    us: Seq<CrossChunkLightUpdate>,
    lo: int,
    c: ChunkPos,
    t: LightType,
) -> bool {
    forall|x: int, y: int, z: int, d: int|
        0 <= d < 6 ==> #[trigger] sent_across(before, after, us, lo, c, t, x, y, z, d)
}

/// Queries on block opacity, implemented by the block registry.
pub trait BlockOpacityProvider {
    /// The registry's answer for a block id: whether that block stops light.
    spec fn opaque_of(&self, block_id: BlockId) -> bool;

    /// Whether the block stops light; the same answer for the same id every time.
    fn is_opaque(&self, block_id: BlockId) -> (res: bool)
        ensures
            res == self.opaque_of(block_id),
    ;

    /// How much light the block absorbs (15 for opaque blocks, 0 otherwise, by default).
    fn light_opacity(&self, block_id: BlockId) -> (res: u8)
        default_ensures
            res == (if self.opaque_of(block_id) { 15u8 } else { 0u8 }),
    {
        if self.is_opaque(block_id) {
            15
        } else {
            0
        }
    }

    /// The registry's base emission for a block id.
    spec fn base_emission_of(&self, block_id: BlockId) -> u8;

    /// Light the block emits by itself; the same answer for the same id every time.
    fn base_block_light_emission(&self, block_id: BlockId) -> (res: u8)
        ensures
            res == self.base_emission_of(block_id),
    ;
}

/// The registry's opacity for every block id, as a table indexed by id.
pub open spec fn registry_opacity<R: BlockOpacityProvider>(registry: &R) -> Seq<bool> {
    Seq::new(BLOCK_ID_COUNT as nat, |i: int| registry.opaque_of(i as u16))
}

/// Ask the registry once for every block id; the table is what the lighting functions use.
pub fn opacity_table<R: BlockOpacityProvider>(registry: &R) -> (res: Vec<bool>)
    ensures
        res@ == registry_opacity(registry),
{
    let mut table: Vec<bool> = Vec::with_capacity(BLOCK_ID_COUNT);
    let mut id: usize = 0;
    while id < BLOCK_ID_COUNT
        invariant
            id <= BLOCK_ID_COUNT,
            table@.len() == id,
            forall|k: int| 0 <= k < id ==> table@[k] == registry.opaque_of(k as u16),
        decreases BLOCK_ID_COUNT - id,
    {
        table.push(registry.is_opaque(id as u16));
        id = id + 1;
    }
    assert(table@ =~= registry_opacity(registry));
    table
}

impl LightType {
    fn voxel_level(voxel: &Voxel, light_type: LightType) -> (res: u8)
        ensures
            res == level_of(*voxel, light_type),
    {
        match light_type {
            LightType::Skylight => voxel.light_sky,
            LightType::BlockLight => voxel.light_block,
        }
    }

    fn set_voxel_level(voxel: &mut Voxel, light_type: LightType, level: u8)
        ensures
            *final(voxel) == with_level(*old(voxel), light_type, level),
    {
        match light_type {
            LightType::Skylight => voxel.light_sky = level,
            LightType::BlockLight => voxel.light_block = level,
        }
    }
}

fn dir_offset(d: usize) -> (res: (i32, i32, i32))
    requires
        d < 6,
    ensures
        res.0 == dir_dx(d as int),
        res.1 == dir_dy(d as int),
        res.2 == dir_dz(d as int),
{
    if d == 0 {
        (0, 1, 0)
    } else if d == 1 {
        (0, -1, 0)
    } else if d == 2 {
        (1, 0, 0)
    } else if d == 3 {
        (-1, 0, 0)
    } else if d == 4 {
        (0, 0, 1)
    } else {
        (0, 0, -1)
    }
}

/// Breadth-first light propagation queue for one chunk.
pub struct LightQueue {
    queue: VecDeque<(LocalPos, u8)>,
    chunk_pos: ChunkPos,
    cross_chunk_updates: Vec<CrossChunkLightUpdate>,
}

impl LightQueue {
    /// Queued (position, level) entries, front first.
    pub closed spec fn pending(&self) -> Seq<(LocalPos, u8)> {
        self.queue@
    }

    /// The chunk this queue propagates in.
    pub closed spec fn spec_chunk_pos(&self) -> ChunkPos {
        self.chunk_pos
    }

    /// Light collected for neighboring chunks.
    pub closed spec fn updates(&self) -> Seq<CrossChunkLightUpdate> {
        self.cross_chunk_updates@
    }

    /// An empty queue for the given chunk.
    pub fn new_for_chunk(chunk_pos: ChunkPos) -> (res: Self)
        ensures
            res.pending() == Seq::<(LocalPos, u8)>::empty(),
            res.spec_chunk_pos() == chunk_pos,
            res.updates() == Seq::<CrossChunkLightUpdate>::empty(),
    {
        LightQueue {
            queue: VecDeque::with_capacity(256),
            chunk_pos,
            cross_chunk_updates: Vec::new(),
        }
    }

    /// An empty queue for the chunk at (0, 0).
    pub fn new() -> (res: Self)
        ensures
            res.pending() == Seq::<(LocalPos, u8)>::empty(),
            res.spec_chunk_pos() == (ChunkPos { x: 0, z: 0 }),
            res.updates() == Seq::<CrossChunkLightUpdate>::empty(),
    {
        Self::new_for_chunk(ChunkPos::new(0, 0))
    }

    /// Queue a light source.
    pub fn enqueue(&mut self, pos: LocalPos, level: u8)
        ensures
            final(self).pending() == old(self).pending().push((pos, level)),
            final(self).spec_chunk_pos() == old(self).spec_chunk_pos(),
            final(self).updates() == old(self).updates(),
    {
        self.queue.push_back((pos, level));
    }

    /// Hand out the collected cross-chunk updates and clear them.
    pub fn take_cross_chunk_updates(&mut self) -> (res: Vec<CrossChunkLightUpdate>)
        ensures
            res@ == old(self).updates(),
            final(self).updates() == Seq::<CrossChunkLightUpdate>::empty(),
            final(self).pending() == old(self).pending(),
            final(self).spec_chunk_pos() == old(self).spec_chunk_pos(),
    {
        let mut taken: Vec<CrossChunkLightUpdate> = Vec::new();
        std::mem::swap(&mut taken, &mut self.cross_chunk_updates);
        taken
    }

    /// Process all queued entries as skylight, with the registry's opacity.
    pub fn propagate_skylight<R: BlockOpacityProvider>(&mut self, chunk: &mut Chunk, registry: &R) -> (processed: usize)
        requires
            old(chunk).wf(),
            forall|j: int|
                0 <= j < old(self).pending().len() ==> local_in_chunk(
                    (#[trigger] old(self).pending()[j]).0,
                ),
            pos_has_neighbors(old(self).spec_chunk_pos()),
        ensures
            final(chunk).wf(),
            final(chunk).spec_pos() == old(chunk).spec_pos(),
            final(self).pending().len() == 0,
            final(self).spec_chunk_pos() == old(self).spec_chunk_pos(),
            lit_from(
                    old(chunk).cells(),
                    final(chunk).cells(),
                    old(self).pending(),
                    registry_opacity(registry),
                    LightType::Skylight,
                ),
            opaque_kept(
                    old(chunk).cells(),
                    final(chunk).cells(),
                    old(self).pending(),
                    registry_opacity(registry),
                    LightType::Skylight,
                ),
            flood_supported(old(chunk).cells(), final(chunk).cells(), old(self).pending(), LightType::Skylight),
            sends_across(
                old(chunk).cells(),
                final(chunk).cells(),
                final(self).updates(),
                old(self).updates().len() as int,
                old(self).spec_chunk_pos(),
                LightType::Skylight,
            ),
            extends(old(self).updates(), final(self).updates()),
            processed >= old(self).pending().len() || processed == usize::MAX,
    {
        let table = opacity_table(registry);
        let processed = self.propagate_with_opacity(chunk, &table, LightType::Skylight);
        proof {
            assert(lit_from(old(chunk).cells(), chunk.cells(), old(self).pending(), table@, LightType::Skylight));
        }
        processed
    }

    /// Process all queued entries as block light, with the registry's opacity.
    pub fn propagate_blocklight<R: BlockOpacityProvider>(&mut self, chunk: &mut Chunk, registry: &R) -> (processed: usize)
        requires
            old(chunk).wf(),
            forall|j: int|
                0 <= j < old(self).pending().len() ==> local_in_chunk(
                    (#[trigger] old(self).pending()[j]).0,
                ),
            pos_has_neighbors(old(self).spec_chunk_pos()),
        ensures
            final(chunk).wf(),
            final(chunk).spec_pos() == old(chunk).spec_pos(),
            final(self).pending().len() == 0,
            final(self).spec_chunk_pos() == old(self).spec_chunk_pos(),
            lit_from(
                    old(chunk).cells(),
                    final(chunk).cells(),
                    old(self).pending(),
                    registry_opacity(registry),
                    LightType::BlockLight,
                ),
            opaque_kept(
                    old(chunk).cells(),
                    final(chunk).cells(),
                    old(self).pending(),
                    registry_opacity(registry),
                    LightType::BlockLight,
                ),
            flood_supported(old(chunk).cells(), final(chunk).cells(), old(self).pending(), LightType::BlockLight),
            sends_across(
                old(chunk).cells(),
                final(chunk).cells(),
                final(self).updates(),
                old(self).updates().len() as int,
                old(self).spec_chunk_pos(),
                LightType::BlockLight,
            ),
            extends(old(self).updates(), final(self).updates()),
            processed >= old(self).pending().len() || processed == usize::MAX,
    {
        let table = opacity_table(registry);
        let processed = self.propagate_with_opacity(chunk, &table, LightType::BlockLight);
        proof {
            assert(lit_from(old(chunk).cells(), chunk.cells(), old(self).pending(), table@, LightType::BlockLight));
        }
        processed
    }

    /// Run the queue to exhaustion in one channel, using `opaque` (indexed by block id) for
    /// opacity. Each entry raises its cell to the entry's level when that is brighter, and a
    /// raised cell passes the decayed light on to its neighbors (sideways out of the chunk as
    /// cross-chunk updates). Afterwards: only the channel's light changed, and only upward;
    /// every queued source is at least as bright as its level; and every cell that got
    /// brighter has lit each see-through neighbor inside the chunk to at least its decayed
    /// level. Returns the number of entries processed.
    pub fn propagate_with_opacity(
        &mut self,
        chunk: &mut Chunk,
        opaque: &Vec<bool>,
        light_type: LightType,
    ) -> (processed: usize)
        requires
            old(chunk).wf(),
            opaque@.len() == BLOCK_ID_COUNT,
            forall|j: int|
                0 <= j < old(self).pending().len() ==> local_in_chunk(
                    (#[trigger] old(self).pending()[j]).0,
                ),
            pos_has_neighbors(old(self).spec_chunk_pos()),
        ensures
            final(chunk).wf(),
            final(chunk).spec_pos() == old(chunk).spec_pos(),
            final(self).pending().len() == 0,
            final(self).spec_chunk_pos() == old(self).spec_chunk_pos(),
            lit_from(old(chunk).cells(), final(chunk).cells(), old(self).pending(), opaque@, light_type),
            opaque_kept(old(chunk).cells(), final(chunk).cells(), old(self).pending(), opaque@, light_type),
            flood_supported(old(chunk).cells(), final(chunk).cells(), old(self).pending(), light_type),
            sends_across(
                old(chunk).cells(),
                final(chunk).cells(),
                final(self).updates(),
                old(self).updates().len() as int,
                old(self).spec_chunk_pos(),
                light_type,
            ),
            extends(old(self).updates(), final(self).updates()),
            forall|j: int|
                old(self).updates().len() <= j < final(self).updates().len() ==> local_in_chunk(
                    (#[trigger] final(self).updates()[j]).target_pos,
                ),
            final(self).updates().len() - old(self).updates().len() <= 6 * (deficit(
                old(chunk).cells(),
                light_type,
            ) - deficit(final(chunk).cells(), light_type)),
            processed >= old(self).pending().len() || processed == usize::MAX,
    {
        let ghost s0 = chunk.cells();
        let ghost q0 = self.queue@;
        let ghost u0 = self.cross_chunk_updates@;
        let ghost opq = opaque@;
        let ghost t = light_type;
        let ghost mut popped: int = 0;
        let mut processed: usize = 0;
        proof {
            lemma_deficit_nonneg(chunk.cells(), t);
            assert(q0 == old(self).pending());
            assert forall|j: int| 0 <= j < q0.len() implies local_in_chunk((#[trigger] q0[j]).0) by {
                assert(local_in_chunk(old(self).pending()[j].0));
            }
            assert forall|j: int| 0 <= j < self.queue@.len() implies local_in_chunk((#[trigger] self.queue@[j]).0) by {
                assert(local_in_chunk(q0[j].0));
            }
            assert forall|x: int, y: int, z: int, d: int|
                0 <= d < 6 implies #[trigger] spread_or_pending(s0, chunk.cells(), self.queue@, opq, t, x, y, z, d) by {
            }
            assert forall|j: int| 0 <= j < self.queue@.len() implies seed_at(q0, lp((#[trigger] self.queue@[j]).0)) by {
                assert(lp(q0[j].0) == lp(self.queue@[j].0));
            }
            assert forall|j: int| 0 <= j < q0.len() implies #[trigger] seeded(
                q0, t, q0[j].0.x as int, q0[j].0.y as int, q0[j].0.z as int, q0[j].1 as int) by {
                assert(q0[j].1 - light_dist(t, q0[j].0, q0[j].0.x as int, q0[j].0.y as int, q0[j].0.z as int) >= q0[j].1);
            }
            assert forall|j: int| 0 <= j < q0.len() implies #[trigger] explained(
                s0, s0, q0, t, q0[j].0.x as int, q0[j].0.y as int, q0[j].0.z as int, q0[j].1 as int) by {
                assert(lp(q0[j].0) == (q0[j].0.x as int, q0[j].0.y as int, q0[j].0.z as int));
            }
            assert(self.queue@ == q0);
        }
        while self.queue.len() > 0
            invariant
                chunk.wf(),
                chunk.spec_pos() == old(chunk).spec_pos(),
                s0 == old(chunk).cells(),
                s0.len() == CHUNK_VOLUME,
                q0 == old(self).pending(),
                u0 == old(self).updates(),
                opq == opaque@,
                t == light_type,
                opaque@.len() == BLOCK_ID_COUNT,
                self.chunk_pos == old(self).spec_chunk_pos(),
                pos_has_neighbors(self.chunk_pos),
                forall|i: int|
                    0 <= i < CHUNK_VOLUME ==> same_but_light(s0[i], #[trigger] chunk.cells()[i], t)
                        && level_of(chunk.cells()[i], t) >= level_of(s0[i], t),
                forall|j: int| 0 <= j < self.queue@.len() ==> local_in_chunk((#[trigger] self.queue@[j]).0),
                forall|j: int| 0 <= j < q0.len() ==> local_in_chunk((#[trigger] q0[j]).0),
                0 <= popped,
                popped <= q0.len() ==> self.queue@.len() >= q0.len() - popped && forall|j: int|
                    0 <= j < q0.len() - popped ==> #[trigger] self.queue@[j] == q0[popped + j],
                forall|k: int|
                    0 <= k < popped && k < q0.len() ==> light_at(
                        chunk.cells(),
                        t,
                        (#[trigger] q0[k]).0.x as int,
                        q0[k].0.y as int,
                        q0[k].0.z as int,
                    ) >= q0[k].1,
                forall|x: int, y: int, z: int, d: int|
                    0 <= d < 6 ==> #[trigger] spread_or_pending(s0, chunk.cells(), self.queue@, opq, t, x, y, z, d),
                u0.len() <= self.cross_chunk_updates@.len(),
                forall|j: int| 0 <= j < u0.len() ==> #[trigger] self.cross_chunk_updates@[j] == u0[j],
                processed >= popped || processed == usize::MAX,
                deficit(chunk.cells(), t) >= 0,
                self.cross_chunk_updates@.len() - u0.len() <= 6 * (deficit(s0, t) - deficit(chunk.cells(), t)),
                forall|j: int|
                    u0.len() <= j < self.cross_chunk_updates@.len() ==> local_in_chunk(
                        (#[trigger] self.cross_chunk_updates@[j]).target_pos,
                    ),
                forall|j: int|
                    0 <= j < self.queue@.len() ==> #[trigger] seeded(
                        q0,
                        t,
                        self.queue@[j].0.x as int,
                        self.queue@[j].0.y as int,
                        self.queue@[j].0.z as int,
                        self.queue@[j].1 as int,
                    ),
                forall|x: int, y: int, z: int| #[trigger] seed_bounded(s0, chunk.cells(), q0, t, x, y, z),
                entries_clear(self.queue@, q0, s0, opq),
                opaque_kept(s0, chunk.cells(), q0, opq, t),
                flood_supported(s0, chunk.cells(), q0, t),
                entries_explained(s0, chunk.cells(), q0, t, self.queue@),
                forall|x: int, y: int, z: int, d: int|
                    0 <= d < 6 ==> #[trigger] sent_across(
                        s0,
                        chunk.cells(),
                        self.cross_chunk_updates@,
                        u0.len() as int,
                        self.chunk_pos,
                        t,
                        x,
                        y,
                        z,
                        d,
                    ),
            decreases 7 * deficit(chunk.cells(), light_type) + self.queue@.len(),
        {
            let ghost cells_b = chunk.cells();
            let ghost q_b = self.queue@;
            let ghost u_b = self.cross_chunk_updates@;
            let ghost popped_b = popped;
            let (pos, level) = self.queue.pop_front().unwrap();
            let ghost q_p = self.queue@;
            proof {
                assert(q_b[0] == (pos, level));
                assert(q_p =~= q_b.drop_first());
                popped = popped + 1;
            }
            if processed < usize::MAX {
                processed = processed + 1;
            }
            let ghost pidx = voxel_index(pos.x as int, pos.y as int, pos.z as int);
            let current = LightType::voxel_level(&chunk.voxel(pos.x, pos.y, pos.z), light_type);
            if current >= level {
                proof {
                    assert forall|x: int, y: int, z: int, d: int|
                        0 <= d < 6 implies #[trigger] spread_or_pending(s0, chunk.cells(), self.queue@, opq, t, x, y, z, d) by {
                        assert(spread_or_pending(s0, cells_b, q_b, opq, t, x, y, z, d));
                        let nx = x + dir_dx(d);
                        let ny = y + dir_dy(d);
                        let nz = z + dir_dz(d);
                        let dl = decayed(light_at(cells_b, t, x, y, z), t, d);
                        let node = (local(nx, ny, nz), dl as u8);
                        if queued_between(q_b, 0, q_b.len() as int, node) {
                            let j = choose|j: int| 0 <= j < q_b.len() && q_b[j] == node;
                            if j > 0 {
                                assert(q_p[j - 1] == node);
                            }
                        }
                    }
                    if popped_b < q0.len() {
                        assert(q0[popped_b] == (pos, level));
                    }
                    assert forall|j: int| 0 <= j < q_p.len() implies #[trigger] seeded(
                        q0, t, q_p[j].0.x as int, q_p[j].0.y as int, q_p[j].0.z as int, q_p[j].1 as int) by {
                        assert(q_p[j] == q_b[j + 1]);
                    }
                    assert forall|j: int| 0 <= j < q_p.len() implies #[trigger] explained(
                        s0, cells_b, q0, t, q_p[j].0.x as int, q_p[j].0.y as int, q_p[j].0.z as int, q_p[j].1 as int) by {
                        assert(q_p[j] == q_b[j + 1]);
                    }
                    assert(entries_clear(q_p, q0, s0, opq)) by {
                        assert forall|j: int| 0 <= j < q_p.len() implies seed_at(q0, lp((#[trigger] q_p[j]).0)) || !opaque_id(
                            opq,
                            s0[voxel_index(q_p[j].0.x as int, q_p[j].0.y as int, q_p[j].0.z as int)].id,
                        ) by {
                            assert(q_p[j] == q_b[j + 1]);
                        }
                    }
                }
            } else {
                let mut voxel = chunk.voxel(pos.x, pos.y, pos.z);
                LightType::set_voxel_level(&mut voxel, light_type, level);
                chunk.set_voxel(pos.x, pos.y, pos.z, voxel);
                let ghost cells_s = chunk.cells();
                proof {
                    lemma_deficit_update(cells_b, t, pidx, voxel);
                    assert(cells_s == cells_b.update(pidx, voxel));
                }
                let ghost q_s = self.queue@;
                self.propagate_to_neighbors(pos, level, chunk, opaque, light_type);
                proof {
                    let cells_a = chunk.cells();
                    let q_a = self.queue@;
                    let u_a = self.cross_chunk_updates@;
                    assert(q_b[0] == (pos, level));
                    assert(q_s =~= q_b.drop_first());
                    lemma_deficit_nonneg(cells_a, t);
                    assert forall|i: int| 0 <= i < CHUNK_VOLUME implies same_but_light(s0[i], #[trigger] cells_a[i], t)
                        && level_of(cells_a[i], t) >= level_of(s0[i], t) by {
                        assert(same_but_light(s0[i], cells_b[i], t));
                    }
                    assert forall|j: int| 0 <= j < q_a.len() implies local_in_chunk((#[trigger] q_a[j]).0) by {
                        if j < q_s.len() {
                            assert(q_a[j] == q_s[j]);
                            assert(q_s[j] == q_b[j + 1]);
                        }
                    }
                    if popped <= q0.len() {
                        assert forall|j: int| 0 <= j < q0.len() - popped implies #[trigger] q_a[j] == q0[popped + j] by {
                            assert(popped_b <= q0.len());
                            assert(q_a[j] == q_s[j]);
                            assert(q_s[j] == q_b[j + 1]);
                            assert(q_b[j + 1] == q0[popped_b + (j + 1)]);
                        }
                    }
                    assert forall|k: int|
                        0 <= k < popped && k < q0.len() implies light_at(
                            cells_a,
                            t,
                            (#[trigger] q0[k]).0.x as int,
                            q0[k].0.y as int,
                            q0[k].0.z as int,
                        ) >= q0[k].1 by {
                        let ki = voxel_index(q0[k].0.x as int, q0[k].0.y as int, q0[k].0.z as int);
                        if k == popped_b {
                            assert(q_b[0] == q0[popped_b + 0]);
                            assert(cells_a[pidx] == voxel);
                        } else {
                            assert(light_at(cells_b, t, q0[k].0.x as int, q0[k].0.y as int, q0[k].0.z as int) >= q0[k].1);
                            if ki != pidx {
                                assert(cells_a[ki] == cells_b[ki]);
                            }
                        }
                    }
                    lemma_spread_after_set(s0, cells_b, cells_a, q_b, q_s, q_a, opq, t, pos, level, *chunk);
                    assert(seeded(q0, t, pos.x as int, pos.y as int, pos.z as int, level as int)) by {
                        assert(q_b.len() > 0);
                    }
                    lemma_seeds_after_set(s0, cells_b, cells_a, q0, q_b, q_s, q_a, t, pos, level);
                    lemma_sent_after_set(s0, cells_b, cells_a, u0.len() as int, u_b, u_a, self.chunk_pos, t, pos, level);
                    lemma_clear_after_set(s0, cells_b, cells_s, cells_a, q0, q_b, q_s, q_a, opq, t, pos, level, voxel);
                    assert forall|i: int| 0 <= i < CHUNK_VOLUME implies level_of(#[trigger] cells_b[i], t) >= level_of(s0[i], t) by {
                    }
                    lemma_flood_step(s0, cells_b, cells_a, q0, q_b, q_s, q_a, t, pos, level, voxel);
                }
            }
        }
        proof {
            assert forall|x: int, y: int, z: int, d: int|
                0 <= d < 6 implies #[trigger] spreads_from(s0, chunk.cells(), opq, t, x, y, z, d) by {
                assert(spread_or_pending(s0, chunk.cells(), self.queue@, opq, t, x, y, z, d));
            }
        }
        processed
    }

    /// Queue the six neighbors of a cell just set to `level`: in-chunk, see-through
    /// neighbors get the decayed level; light leaving the chunk sideways is recorded as a
    /// cross-chunk update.
    fn propagate_to_neighbors(
        &mut self,
        pos: LocalPos,
        level: u8,
        chunk: &Chunk,
        opaque: &Vec<bool>,
        light_type: LightType,
    )
        requires
            chunk.wf(),
            opaque@.len() == BLOCK_ID_COUNT,
            local_in_chunk(pos),
            pos_has_neighbors(old(self).spec_chunk_pos()),
        ensures
            final(self).spec_chunk_pos() == old(self).spec_chunk_pos(),
            old(self).pending().len() <= final(self).pending().len() <= old(self).pending().len() + 6,
            forall|j: int|
                0 <= j < old(self).pending().len() ==> #[trigger] final(self).pending()[j] == old(
                    self,
                ).pending()[j],
            forall|j: int|
                old(self).pending().len() <= j < final(self).pending().len() ==> local_in_chunk(
                    (#[trigger] final(self).pending()[j]).0,
                ) && neighbor_node(pos, level, light_type, final(self).pending()[j]) && !opaque_id(
                    opaque@,
                    chunk.cells()[voxel_index(
                        final(self).pending()[j].0.x as int,
                        final(self).pending()[j].0.y as int,
                        final(self).pending()[j].0.z as int,
                    )].id,
                ),
            forall|d: int|
                0 <= d < 6 && open_toward(*chunk, opaque@, pos, d) && decayed(level as int, light_type, d)
                    > 0 ==> #[trigger] queued_between(
                    final(self).pending(),
                    old(self).pending().len() as int,
                    final(self).pending().len() as int,
                    node_toward(pos, level, light_type, d),
                ),
            old(self).updates().len() <= final(self).updates().len() <= old(self).updates().len() + 6,
            forall|j: int|
                0 <= j < old(self).updates().len() ==> #[trigger] final(self).updates()[j] == old(
                    self,
                ).updates()[j],
            forall|j: int|
                old(self).updates().len() <= j < final(self).updates().len() ==> local_in_chunk(
                    (#[trigger] final(self).updates()[j]).target_pos,
                ),
            forall|d: int|
                0 <= d < 6 && leaves_sideways(pos, d) && decayed(level as int, light_type, d) > 0
                    ==> #[trigger] recorded_between(
                    final(self).updates(),
                    old(self).updates().len() as int,
                    final(self).updates().len() as int,
                    crossing(
                        old(self).spec_chunk_pos(),
                        pos,
                        d,
                        decayed(level as int, light_type, d),
                        light_type,
                    ),
                ),
    {
        let ghost q0 = self.queue@;
        let ghost u0 = self.cross_chunk_updates@;
        let mut d: usize = 0;
        while d < 6
            invariant
                d <= 6,
                chunk.wf(),
                opaque@.len() == BLOCK_ID_COUNT,
                local_in_chunk(pos),
                pos_has_neighbors(self.chunk_pos),
                self.chunk_pos == old(self).spec_chunk_pos(),
                q0 == old(self).pending(),
                u0 == old(self).updates(),
                q0.len() <= self.queue@.len() <= q0.len() + d,
                forall|j: int| 0 <= j < q0.len() ==> #[trigger] self.queue@[j] == q0[j],
                forall|j: int|
                    q0.len() <= j < self.queue@.len() ==> local_in_chunk((#[trigger] self.queue@[j]).0)
                        && neighbor_node(pos, level, light_type, self.queue@[j]) && !opaque_id(
                        opaque@,
                        chunk.cells()[voxel_index(
                            self.queue@[j].0.x as int,
                            self.queue@[j].0.y as int,
                            self.queue@[j].0.z as int,
                        )].id,
                    ),
                forall|e: int|
                    0 <= e < d && open_toward(*chunk, opaque@, pos, e) && decayed(level as int, light_type, e)
                        > 0 ==> #[trigger] queued_between(
                        self.queue@,
                        q0.len() as int,
                        self.queue@.len() as int,
                        node_toward(pos, level, light_type, e),
                    ),
                u0.len() <= self.cross_chunk_updates@.len() <= u0.len() + d,
                forall|j: int| 0 <= j < u0.len() ==> #[trigger] self.cross_chunk_updates@[j] == u0[j],
                forall|j: int|
                    u0.len() <= j < self.cross_chunk_updates@.len() ==> local_in_chunk(
                        (#[trigger] self.cross_chunk_updates@[j]).target_pos,
                    ),
                forall|e: int|
                    0 <= e < d && leaves_sideways(pos, e) && decayed(level as int, light_type, e) > 0
                        ==> #[trigger] recorded_between(
                        self.cross_chunk_updates@,
                        u0.len() as int,
                        self.cross_chunk_updates@.len() as int,
                        crossing(self.chunk_pos, pos, e, decayed(level as int, light_type, e), light_type),
                    ),
            decreases 6 - d,
        {
            let (dx, dy, dz) = dir_offset(d);
            let nx = pos.x as i32 + dx;
            let ny = pos.y as i32 + dy;
            let nz = pos.z as i32 + dz;
            let new_level = if light_type == LightType::Skylight && dy == -1 {
                level
            } else {
                level.saturating_sub(1)
            };
            let ghost qd = self.queue@;
            let ghost ud = self.cross_chunk_updates@;
            assert(new_level == decayed(level as int, light_type, d as int));
            if new_level == 0 {
            } else if ny < 0 || ny >= CHUNK_SIZE_Y as i32 {
            } else {
                let mut target_x = self.chunk_pos.x;
                let mut target_z = self.chunk_pos.z;
                let mut local_x = nx;
                let mut local_z = nz;
                if nx < 0 {
                    target_x = target_x - 1;
                    local_x = CHUNK_SIZE_X as i32 - 1;
                } else if nx >= CHUNK_SIZE_X as i32 {
                    target_x = target_x + 1;
                    local_x = 0;
                }
                if nz < 0 {
                    target_z = target_z - 1;
                    local_z = CHUNK_SIZE_Z as i32 - 1;
                } else if nz >= CHUNK_SIZE_Z as i32 {
                    target_z = target_z + 1;
                    local_z = 0;
                }
                if target_x != self.chunk_pos.x || target_z != self.chunk_pos.z {
                    let update = CrossChunkLightUpdate {
                        target_chunk: ChunkPos { x: target_x, z: target_z },
                        target_pos: LocalPos {
                            x: local_x as usize,
                            y: ny as usize,
                            z: local_z as usize,
                        },
                        level: new_level,
                        light_type,
                    };
                    assert(update == crossing(self.chunk_pos, pos, d as int, new_level as int, light_type));
                    self.cross_chunk_updates.push(update);
                    proof {
                        let us = self.cross_chunk_updates@;
                        assert(us[ud.len() as int] == update);
                        assert forall|j: int| u0.len() <= j < us.len() implies local_in_chunk((#[trigger] us[j]).target_pos) by {
                            if j < ud.len() {
                                assert(us[j] == ud[j]);
                            }
                        }
                        assert(recorded_between(us, u0.len() as int, us.len() as int, update));
                        assert forall|e: int|
                            0 <= e < d && leaves_sideways(pos, e) && decayed(level as int, light_type, e) > 0
                                implies #[trigger] recorded_between(
                                us,
                                u0.len() as int,
                                us.len() as int,
                                crossing(self.chunk_pos, pos, e, decayed(level as int, light_type, e), light_type),
                            ) by {
                            let c = crossing(self.chunk_pos, pos, e, decayed(level as int, light_type, e), light_type);
                            assert(recorded_between(ud, u0.len() as int, ud.len() as int, c));
                            let j = choose|j: int| u0.len() <= j < ud.len() && ud[j] == c;
                            assert(us[j] == c);
                        }
                    }
                } else {
                    let npos = LocalPos { x: nx as usize, y: ny as usize, z: nz as usize };
                    let neighbor = chunk.voxel(npos.x, npos.y, npos.z);
                    if !opaque[neighbor.id as usize] {
                        self.queue.push_back((npos, new_level));
                        proof {
                            let qs = self.queue@;
                            assert(npos == local(step_x(pos, d as int), step_y(pos, d as int), step_z(pos, d as int)));
                            assert(qs[qd.len() as int] == (npos, new_level));
                            assert(in_chunk(step_x(pos, d as int), step_y(pos, d as int), step_z(pos, d as int)));
                            assert(neighbor_node(pos, level, light_type, qs[qd.len() as int]));
                            assert(queued_between(qs, q0.len() as int, qs.len() as int, node_toward(pos, level, light_type, d as int)));
                            assert forall|e: int|
                                0 <= e < d && open_toward(*chunk, opaque@, pos, e) && decayed(level as int, light_type, e)
                                    > 0 implies #[trigger] queued_between(
                                    qs,
                                    q0.len() as int,
                                    qs.len() as int,
                                    node_toward(pos, level, light_type, e),
                                ) by {
                                let nd = node_toward(pos, level, light_type, e);
                                assert(queued_between(qd, q0.len() as int, qd.len() as int, nd));
                                let j = choose|j: int| q0.len() <= j < qd.len() && qd[j] == nd;
                                assert(qs[j] == nd);
                            }
                        }
                    }
                }
            }
            d = d + 1;
        }
    }
}

impl Default for LightQueue {
    fn default() -> (res: Self)
        ensures
            res.pending() == Seq::<(LocalPos, u8)>::empty(),
            res.spec_chunk_pos() == (ChunkPos { x: 0, z: 0 }),
            res.updates() == Seq::<CrossChunkLightUpdate>::empty(),
    {
        Self::new()
    }
}

/// The skylight seeds: every cell of the top layer at full light, X outer, Z inner.
pub open spec fn top_layer() -> Seq<(LocalPos, u8)> {
    Seq::new(256, |i: int| (local(i / 16, 255, i % 16), 15u8))
}

/// A queue for `chunk_pos` holding the full-light top layer.
fn top_layer_queue(chunk_pos: ChunkPos) -> (res: LightQueue)
    ensures
        res.pending() == top_layer(),
        res.spec_chunk_pos() == chunk_pos,
        res.updates() == Seq::<CrossChunkLightUpdate>::empty(),
        forall|j: int| 0 <= j < res.pending().len() ==> local_in_chunk((#[trigger] res.pending()[j]).0),
{
    let mut queue = LightQueue::new_for_chunk(chunk_pos);
    let mut x: usize = 0;
    while x < CHUNK_SIZE_X
        invariant
            x <= CHUNK_SIZE_X,
            queue.pending() == top_layer().take(16 * x as int),
            queue.spec_chunk_pos() == chunk_pos,
            queue.updates() == Seq::<CrossChunkLightUpdate>::empty(),
        decreases CHUNK_SIZE_X - x,
    {
        let mut z: usize = 0;
        while z < CHUNK_SIZE_Z
            invariant
                x < CHUNK_SIZE_X,
                z <= CHUNK_SIZE_Z,
                queue.pending() == top_layer().take(16 * x + z),
                queue.spec_chunk_pos() == chunk_pos,
                queue.updates() == Seq::<CrossChunkLightUpdate>::empty(),
            decreases CHUNK_SIZE_Z - z,
        {
            let pos = LocalPos { x, y: CHUNK_SIZE_Y - 1, z };
            queue.enqueue(pos, MAX_LIGHT_LEVEL);
            proof {
                let i = 16 * x + z;
                assert(i / 16 == x && i % 16 == z);
                assert(top_layer()[i] == (pos, 15u8));
                assert(queue.pending() =~= top_layer().take(i + 1));
            }
            z = z + 1;
        }
        x = x + 1;
    }
    assert(queue.pending() =~= top_layer());
    proof {
        assert forall|j: int| 0 <= j < queue.pending().len() implies local_in_chunk((#[trigger] queue.pending()[j]).0) by {
            assert(queue.pending()[j] == top_layer()[j]);
        }
    }
    queue
}

/// A seed sits at position `p`.
pub open spec fn seed_at(seeds: Seq<(LocalPos, u8)>, p: (int, int, int)) -> bool {
    exists|k: int| 0 <= k < seeds.len() && lp((#[trigger] seeds[k]).0) == p
}

/// Opaque cells that hold no seed keep the channel's light.
pub open spec fn opaque_kept(
    before: Seq<Voxel>,
    after: Seq<Voxel>,
    seeds: Seq<(LocalPos, u8)>,
    opaque: Seq<bool>,
    t: LightType,
) -> bool {
    forall|x: int, y: int, z: int|
        in_chunk(x, y, z) && opaque_id(opaque, before[voxel_index(x, y, z)].id) && !seed_at(seeds, (x, y, z))
            ==> #[trigger] level_of(after[voxel_index(x, y, z)], t) == level_of(before[voxel_index(x, y, z)], t)
}

/// The cell (nx, ny, nz) got brighter and passes at least `l` of its light one step in
/// direction `d`.
pub open spec fn fed_by(
    before: Seq<Voxel>,
    after: Seq<Voxel>,
    t: LightType,
    nx: int,
    ny: int,
    nz: int,
    d: int,
    l: int,
) -> bool {
    &&& 0 <= d < 6
    &&& in_chunk(nx, ny, nz)
    &&& light_at(after, t, nx, ny, nz) > light_at(before, t, nx, ny, nz)
    &&& decayed(light_at(after, t, nx, ny, nz), t, d) >= l
}

/// Light `l` at (x, y, z) has a source: a seed there at least as bright, or a neighbour that
/// got brighter and passes at least `l` on to it.
pub open spec fn explained(
    before: Seq<Voxel>,
    after: Seq<Voxel>,
    seeds: Seq<(LocalPos, u8)>,
    t: LightType,
    x: int,
    y: int,
    z: int,
    l: int,
) -> bool {
    ||| exists|k: int| 0 <= k < seeds.len() && lp((#[trigger] seeds[k]).0) == (x, y, z) && seeds[k].1 >= l
    ||| exists|d: int| #[trigger] fed_by(before, after, t, x - dir_dx(d), y - dir_dy(d), z - dir_dz(d), d, l)
}

/// No light appears without a source: every in-chunk cell that got brighter holds light
/// that a seed put there or that a brighter neighbour passed on, less the step's decay.
/// Each step away from a seed costs a level, and skylight going down costs nothing but
/// moves down, so following the sources back always ends at a seed: a cell is no brighter
/// than the best path of cells that got brighter leading to it from a seed.
pub open spec fn flood_supported(
    before: Seq<Voxel>,
    after: Seq<Voxel>,
    seeds: Seq<(LocalPos, u8)>,
    t: LightType,
) -> bool {
    forall|x: int, y: int, z: int|
        in_chunk(x, y, z) && light_at(after, t, x, y, z) > light_at(before, t, x, y, z) ==> #[trigger] explained(
            before,
            after,
            seeds,
            t,
            x,
            y,
            z,
            light_at(after, t, x, y, z),
        )
}

proof fn lemma_decayed_mono(a: int, b: int, t: LightType, d: int)
    requires
        a >= b,
    ensures
        decayed(a, t, d) >= decayed(b, t, d),
{
}

/// Brightening cells keeps every source a source.
proof fn lemma_explained_mono(
    before: Seq<Voxel>,
    b: Seq<Voxel>,
    a: Seq<Voxel>,
    seeds: Seq<(LocalPos, u8)>,
    t: LightType,
    x: int,
    y: int,
    z: int,
    l: int,
)
    requires
        a.len() == CHUNK_VOLUME,
        b.len() == CHUNK_VOLUME,
        forall|i: int| 0 <= i < CHUNK_VOLUME ==> level_of(#[trigger] a[i], t) >= level_of(b[i], t),
        explained(before, b, seeds, t, x, y, z, l),
    ensures
        explained(before, a, seeds, t, x, y, z, l),
{
    if !(exists|k: int| 0 <= k < seeds.len() && lp((#[trigger] seeds[k]).0) == (x, y, z) && seeds[k].1 >= l) {
        let d = choose|d: int| #[trigger] fed_by(before, b, t, x - dir_dx(d), y - dir_dy(d), z - dir_dz(d), d, l);
        let nx = x - dir_dx(d);
        let ny = y - dir_dy(d);
        let nz = z - dir_dz(d);
        lemma_voxel_index_bounds(nx, ny, nz);
        let ni = voxel_index(nx, ny, nz);
        assert(level_of(a[ni], t) >= level_of(b[ni], t));
        lemma_decayed_mono(light_at(a, t, nx, ny, nz), light_at(b, t, nx, ny, nz), t, d);
        assert(fed_by(before, a, t, nx, ny, nz, d, l));
    }
}

/// The cell reached from `p` by stepping in the directions `ds` in turn.
pub open spec fn walk_end(p: (int, int, int), ds: Seq<int>) -> (int, int, int)
    decreases ds.len(),
{
    if ds.len() == 0 {
        p
    } else {
        tstep(walk_end(p, ds.drop_last()), ds.last())
    }
}

/// Light of channel `t` at level `l` after it decayed along the steps `ds`.
pub open spec fn walk_level(l: int, t: LightType, ds: Seq<int>) -> int
    decreases ds.len(),
{
    if ds.len() == 0 {
        l
    } else {
        decayed(walk_level(l, t, ds.drop_last()), t, ds.last())
    }
}

/// Every cell the walk from `p` along `ds` enters, after its start, is in the chunk and
/// got brighter.
pub open spec fn walk_lit(before: Seq<Voxel>, after: Seq<Voxel>, t: LightType, p: (int, int, int), ds: Seq<int>) -> bool {
    forall|i: int| 1 <= i <= ds.len() ==> #[trigger] walk_step_lit(before, after, t, p, ds, i)
}

/// Step `i` of the walk from `p` along `ds` goes in one of the six directions and enters a
/// cell that got brighter.
pub open spec fn walk_step_lit(
    before: Seq<Voxel>,
    after: Seq<Voxel>,
    t: LightType,
    p: (int, int, int),
    ds: Seq<int>,
    i: int,
) -> bool {
    0 <= ds[i - 1] < 6 && brighter_cell(before, after, t, walk_end(p, ds.take(i)))
}

/// The cell is in the chunk and got brighter in channel `t`.
pub open spec fn brighter_cell(before: Seq<Voxel>, after: Seq<Voxel>, t: LightType, c: (int, int, int)) -> bool {
    in_chunk(c.0, c.1, c.2) && light_at(after, t, c.0, c.1, c.2) > light_at(before, t, c.0, c.1, c.2)
}

proof fn lemma_walk_push(
    before: Seq<Voxel>,
    after: Seq<Voxel>,
    t: LightType,
    p: (int, int, int),
    ds: Seq<int>,
    d: int,
)
    requires
        0 <= d < 6,
        walk_lit(before, after, t, p, ds),
        brighter_cell(before, after, t, tstep(walk_end(p, ds), d)),
    ensures
        walk_end(p, ds.push(d)) == tstep(walk_end(p, ds), d),
        forall|l: int| #[trigger] walk_level(l, t, ds.push(d)) == decayed(walk_level(l, t, ds), t, d),
        walk_lit(before, after, t, p, ds.push(d)),
{
    let e = ds.push(d);
    assert(e.drop_last() =~= ds);
    assert forall|i: int| 1 <= i <= e.len() implies #[trigger] walk_step_lit(before, after, t, p, e, i) by {
        if i <= ds.len() {
            assert(walk_step_lit(before, after, t, p, ds, i));
            assert(e.take(i) =~= ds.take(i));
            assert(e[i - 1] == ds[i - 1]);
            assert(walk_end(p, e.take(i)) == walk_end(p, ds.take(i)));
        } else {
            assert(e.take(i) =~= e);
            assert(walk_end(p, e) == tstep(walk_end(p, ds), d));
        }
    }
}

/// Following the sources back from a cell that got brighter reaches a seed: there is a walk
/// from a seed to it through cells that got brighter, along which the seed's light decays
/// to at least the cell's light.
proof fn lemma_seed_walk(
    before: Seq<Voxel>,
    after: Seq<Voxel>,
    seeds: Seq<(LocalPos, u8)>,
    t: LightType,
    x: int,
    y: int,
    z: int,
) -> (w: (int, Seq<int>))
    requires
        flood_supported(before, after, seeds, t),
        in_chunk(x, y, z),
        light_at(after, t, x, y, z) > light_at(before, t, x, y, z),
    ensures
        0 <= w.0 < seeds.len(),
        walk_end(lp(seeds[w.0].0), w.1) == (x, y, z),
        walk_lit(before, after, t, lp(seeds[w.0].0), w.1),
        walk_level(seeds[w.0].1 as int, t, w.1) >= light_at(after, t, x, y, z),
    decreases (256 - light_at(after, t, x, y, z)) * 512 + (256 - y),
{
    let l = light_at(after, t, x, y, z);
    assert(explained(before, after, seeds, t, x, y, z, l));
    if exists|k: int| 0 <= k < seeds.len() && lp((#[trigger] seeds[k]).0) == (x, y, z) && seeds[k].1 >= l {
        let k = choose|k: int| 0 <= k < seeds.len() && lp((#[trigger] seeds[k]).0) == (x, y, z) && seeds[k].1 >= l;
        let ds = Seq::<int>::empty();
        assert(walk_lit(before, after, t, lp(seeds[k].0), ds));
        (k, ds)
    } else {
        let d = choose|d: int| #[trigger] fed_by(before, after, t, x - dir_dx(d), y - dir_dy(d), z - dir_dz(d), d, l);
        let nx = x - dir_dx(d);
        let ny = y - dir_dy(d);
        let nz = z - dir_dz(d);
        let ln = light_at(after, t, nx, ny, nz);
        assert(ln <= 255);
        if t == LightType::Skylight && d == 1 {
            assert(ny == y + 1);
            assert(ln >= l);
        } else {
            assert(ln >= l + 1);
        }
        let (k, ds) = lemma_seed_walk(before, after, seeds, t, nx, ny, nz);
        assert(tstep((nx, ny, nz), d) == (x, y, z));
        lemma_walk_push(before, after, t, lp(seeds[k].0), ds, d);
        lemma_decayed_mono(walk_level(seeds[k].1 as int, t, ds), ln, t, d);
        assert(walk_level(seeds[k].1 as int, t, ds.push(d)) == decayed(walk_level(seeds[k].1 as int, t, ds), t, d));
        (k, ds.push(d))
    }
}

/// No light without a path from a seed: after a flood, each cell that got brighter is
/// reached from some seed by a walk of single steps through cells that got brighter, and
/// is no brighter than the seed's light decayed along that walk.
pub proof fn law_flood_light_comes_from_a_seed(
    before: Seq<Voxel>,
    after: Seq<Voxel>,
    seeds: Seq<(LocalPos, u8)>,
    t: LightType,
    x: int,
    y: int,
    z: int,
)
    requires
        flood_supported(before, after, seeds, t),
        in_chunk(x, y, z),
        light_at(after, t, x, y, z) > light_at(before, t, x, y, z),
    ensures
        exists|k: int, ds: Seq<int>|
            0 <= k < seeds.len() && #[trigger] walk_end(lp(seeds[k].0), ds) == (x, y, z) && walk_lit(
                before,
                after,
                t,
                lp(seeds[k].0),
                ds,
            ) && light_at(after, t, x, y, z) <= walk_level(seeds[k].1 as int, t, ds),
{
    let (k, ds) = lemma_seed_walk(before, after, seeds, t, x, y, z);
    assert(walk_end(lp(seeds[k].0), ds) == (x, y, z));
}

/// The queued entries all have a source.
pub open spec fn entries_explained(
    before: Seq<Voxel>,
    after: Seq<Voxel>,
    seeds: Seq<(LocalPos, u8)>,
    t: LightType,
    q: Seq<(LocalPos, u8)>,
) -> bool {
    forall|j: int|
        0 <= j < q.len() ==> #[trigger] explained(
            before,
            after,
            seeds,
            t,
            q[j].0.x as int,
            q[j].0.y as int,
            q[j].0.z as int,
            q[j].1 as int,
        )
}

/// Raising the dequeued cell to its entry's level and queueing its neighbours keeps every
/// brighter cell and every queued entry explained.
proof fn lemma_flood_step(
    s0: Seq<Voxel>,
    cells_b: Seq<Voxel>,
    cells_a: Seq<Voxel>,
    q0: Seq<(LocalPos, u8)>,
    q_b: Seq<(LocalPos, u8)>,
    q_s: Seq<(LocalPos, u8)>,
    q_a: Seq<(LocalPos, u8)>,
    t: LightType,
    pos: LocalPos,
    level: u8,
    v: Voxel,
)
    requires
        s0.len() == CHUNK_VOLUME,
        cells_b.len() == CHUNK_VOLUME,
        local_in_chunk(pos),
        cells_a == cells_b.update(voxel_index(pos.x as int, pos.y as int, pos.z as int), v),
        level_of(v, t) == level,
        level > light_at(cells_b, t, pos.x as int, pos.y as int, pos.z as int),
        forall|i: int| 0 <= i < CHUNK_VOLUME ==> level_of(#[trigger] cells_b[i], t) >= level_of(s0[i], t),
        flood_supported(s0, cells_b, q0, t),
        entries_explained(s0, cells_b, q0, t, q_b),
        q_b.len() > 0,
        q_b[0] == (pos, level),
        q_s == q_b.drop_first(),
        q_s.len() <= q_a.len(),
        forall|j: int| 0 <= j < q_s.len() ==> #[trigger] q_a[j] == q_s[j],
        forall|j: int| q_s.len() <= j < q_a.len() ==> neighbor_node(pos, level, t, #[trigger] q_a[j]),
    ensures
        flood_supported(s0, cells_a, q0, t),
        entries_explained(s0, cells_a, q0, t, q_a),
{
    let pidx = voxel_index(pos.x as int, pos.y as int, pos.z as int);
    lemma_voxel_index_bounds(pos.x as int, pos.y as int, pos.z as int);
    assert forall|i: int| 0 <= i < CHUNK_VOLUME implies level_of(#[trigger] cells_a[i], t) >= level_of(cells_b[i], t) by {
        if i != pidx {
            assert(cells_a[i] == cells_b[i]);
        }
    }
    assert(explained(s0, cells_b, q0, t, pos.x as int, pos.y as int, pos.z as int, level as int)) by {
        assert(explained(s0, cells_b, q0, t, q_b[0].0.x as int, q_b[0].0.y as int, q_b[0].0.z as int, q_b[0].1 as int));
    }
    assert forall|x: int, y: int, z: int|
        in_chunk(x, y, z) && light_at(cells_a, t, x, y, z) > light_at(s0, t, x, y, z) implies #[trigger] explained(
            s0,
            cells_a,
            q0,
            t,
            x,
            y,
            z,
            light_at(cells_a, t, x, y, z),
        ) by {
        lemma_voxel_index_bounds(x, y, z);
        if (x, y, z) == (pos.x as int, pos.y as int, pos.z as int) {
            lemma_explained_mono(s0, cells_b, cells_a, q0, t, x, y, z, level as int);
        } else {
            if voxel_index(x, y, z) == pidx {
                crate::chunk::lemma_voxel_index_injective(x, y, z, pos.x as int, pos.y as int, pos.z as int);
            }
            assert(cells_a[voxel_index(x, y, z)] == cells_b[voxel_index(x, y, z)]);
            assert(explained(s0, cells_b, q0, t, x, y, z, light_at(cells_b, t, x, y, z)));
            lemma_explained_mono(s0, cells_b, cells_a, q0, t, x, y, z, light_at(cells_a, t, x, y, z));
        }
    }
    assert forall|j: int| 0 <= j < q_a.len() implies #[trigger] explained(
        s0,
        cells_a,
        q0,
        t,
        q_a[j].0.x as int,
        q_a[j].0.y as int,
        q_a[j].0.z as int,
        q_a[j].1 as int,
    ) by {
        if j < q_s.len() {
            assert(q_a[j] == q_b[j + 1]);
            assert(explained(s0, cells_b, q0, t, q_b[j + 1].0.x as int, q_b[j + 1].0.y as int, q_b[j + 1].0.z as int, q_b[j + 1].1 as int));
            lemma_explained_mono(s0, cells_b, cells_a, q0, t, q_a[j].0.x as int, q_a[j].0.y as int, q_a[j].0.z as int, q_a[j].1 as int);
        } else {
            let e = q_a[j];
            let d = choose|d: int|
                0 <= d < 6 && in_chunk(step_x(pos, d), step_y(pos, d), step_z(pos, d)) && e.0 == local(
                    step_x(pos, d),
                    step_y(pos, d),
                    step_z(pos, d),
                ) && e.1 == decayed(level as int, t, d) && e.1 > 0;
            assert(e.0.x as int - dir_dx(d) == pos.x as int);
            assert(e.0.y as int - dir_dy(d) == pos.y as int);
            assert(e.0.z as int - dir_dz(d) == pos.z as int);
            assert(cells_a[pidx] == v);
            assert(fed_by(s0, cells_a, t, e.0.x as int - dir_dx(d), e.0.y as int - dir_dy(d), e.0.z as int - dir_dz(d), d, e.1 as int));
        }
    }
}

/// Every queued entry sits at a seed or in a see-through cell.
spec fn entries_clear(q: Seq<(LocalPos, u8)>, seeds: Seq<(LocalPos, u8)>, before: Seq<Voxel>, opaque: Seq<bool>) -> bool {
    forall|j: int|
        0 <= j < q.len() ==> seed_at(seeds, lp((#[trigger] q[j]).0)) || !opaque_id(
            opaque,
            before[voxel_index(q[j].0.x as int, q[j].0.y as int, q[j].0.z as int)].id,
        )
}

/// Raising a dequeued cell and queueing its see-through neighbours keeps opaque non-seed
/// cells dark and every queued entry at a seed or a see-through cell.
proof fn lemma_clear_after_set(
    s0: Seq<Voxel>,
    cells_b: Seq<Voxel>,
    cells_s: Seq<Voxel>,
    cells_a: Seq<Voxel>,
    q0: Seq<(LocalPos, u8)>,
    q_b: Seq<(LocalPos, u8)>,
    q_s: Seq<(LocalPos, u8)>,
    q_a: Seq<(LocalPos, u8)>,
    opq: Seq<bool>,
    t: LightType,
    pos: LocalPos,
    level: u8,
    voxel: Voxel,
)
    requires
        s0.len() == CHUNK_VOLUME,
        local_in_chunk(pos),
        q_b.len() > 0,
        q_b[0] == (pos, level),
        q_s == q_b.drop_first(),
        entries_clear(q_b, q0, s0, opq),
        opaque_kept(s0, cells_b, q0, opq, t),
        cells_s == cells_b.update(voxel_index(pos.x as int, pos.y as int, pos.z as int), voxel),
        cells_a == cells_s,
        cells_b.len() == CHUNK_VOLUME,
        same_but_light(s0[voxel_index(pos.x as int, pos.y as int, pos.z as int)], voxel, t),
        forall|i: int| 0 <= i < CHUNK_VOLUME ==> same_but_light(s0[i], #[trigger] cells_s[i], t),
        q_s.len() <= q_a.len(),
        forall|j: int| 0 <= j < q_s.len() ==> #[trigger] q_a[j] == q_s[j],
        forall|j: int|
            q_s.len() <= j < q_a.len() ==> local_in_chunk((#[trigger] q_a[j]).0) && !opaque_id(
                opq,
                cells_s[voxel_index(q_a[j].0.x as int, q_a[j].0.y as int, q_a[j].0.z as int)].id,
            ),
    ensures
        entries_clear(q_a, q0, s0, opq),
        opaque_kept(s0, cells_a, q0, opq, t),
{
    let pidx = voxel_index(pos.x as int, pos.y as int, pos.z as int);
    assert(seed_at(q0, lp(q_b[0].0)) || !opaque_id(opq, s0[pidx].id));
    assert forall|j: int| 0 <= j < q_a.len() implies seed_at(q0, lp((#[trigger] q_a[j]).0)) || !opaque_id(
        opq,
        s0[voxel_index(q_a[j].0.x as int, q_a[j].0.y as int, q_a[j].0.z as int)].id,
    ) by {
        if j < q_s.len() {
            assert(q_a[j] == q_b[j + 1]);
        } else {
            let ji = voxel_index(q_a[j].0.x as int, q_a[j].0.y as int, q_a[j].0.z as int);
            crate::chunk::lemma_voxel_index_bounds(q_a[j].0.x as int, q_a[j].0.y as int, q_a[j].0.z as int);
            assert(same_but_light(s0[ji], cells_s[ji], t));
        }
    }
    assert forall|x: int, y: int, z: int|
        in_chunk(x, y, z) && opaque_id(opq, s0[voxel_index(x, y, z)].id) && !seed_at(q0, (x, y, z)) implies #[trigger] level_of(
        cells_a[voxel_index(x, y, z)],
        t,
    ) == level_of(s0[voxel_index(x, y, z)], t) by {
        if voxel_index(x, y, z) == pidx {
            crate::chunk::lemma_voxel_index_injective(x, y, z, pos.x as int, pos.y as int, pos.z as int);
            assert(lp(pos) == (x, y, z));
        } else {
            assert(cells_a[voxel_index(x, y, z)] == cells_b[voxel_index(x, y, z)]);
        }
    }
}

/// Light a chunk from the sky: the whole top layer at full light, flooded downward and
/// sideways. Returns the run's summary.
pub fn init_skylight<R: BlockOpacityProvider>(chunk: &mut Chunk, registry: &R) -> (res: LightUpdate)
    requires
        old(chunk).wf(),
        pos_has_neighbors(old(chunk).spec_pos()),
    ensures
        final(chunk).wf(),
        final(chunk).spec_pos() == old(chunk).spec_pos(),
        res.chunk_pos == old(chunk).spec_pos(),
        res.light_type == LightType::Skylight,
        res.nodes_processed >= 256,
        lit_from(
                old(chunk).cells(),
                final(chunk).cells(),
                top_layer(),
                registry_opacity(registry),
                LightType::Skylight,
            ),
        opaque_kept(
                old(chunk).cells(),
                final(chunk).cells(),
                top_layer(),
                registry_opacity(registry),
                LightType::Skylight,
            ),
        flood_supported(old(chunk).cells(), final(chunk).cells(), top_layer(), LightType::Skylight),
{
    let chunk_pos = chunk.position();
    let mut queue = top_layer_queue(chunk_pos);
    let nodes_processed = queue.propagate_skylight(chunk, registry);
    LightUpdate { chunk_pos, light_type: LightType::Skylight, nodes_processed }
}

/// `init_skylight`, also returning the light that leaves the chunk.
pub fn init_skylight_with_neighbors<R: BlockOpacityProvider>(chunk: &mut Chunk, registry: &R) -> (res: (
    LightUpdate,
    Vec<CrossChunkLightUpdate>,
))
    requires
        old(chunk).wf(),
        pos_has_neighbors(old(chunk).spec_pos()),
    ensures
        final(chunk).wf(),
        final(chunk).spec_pos() == old(chunk).spec_pos(),
        res.0.chunk_pos == old(chunk).spec_pos(),
        res.0.light_type == LightType::Skylight,
        res.0.nodes_processed >= 256,
        lit_from(
                old(chunk).cells(),
                final(chunk).cells(),
                top_layer(),
                registry_opacity(registry),
                LightType::Skylight,
            ),
        opaque_kept(
                old(chunk).cells(),
                final(chunk).cells(),
                top_layer(),
                registry_opacity(registry),
                LightType::Skylight,
            ),
        flood_supported(old(chunk).cells(), final(chunk).cells(), top_layer(), LightType::Skylight),
        sends_across(
            old(chunk).cells(),
            final(chunk).cells(),
            res.1@,
            0,
            old(chunk).spec_pos(),
            LightType::Skylight,
        ),
{
    let chunk_pos = chunk.position();
    let mut queue = top_layer_queue(chunk_pos);
    let nodes_processed = queue.propagate_skylight(chunk, registry);
    let cross_chunk_updates = queue.take_cross_chunk_updates();
    (LightUpdate { chunk_pos, light_type: LightType::Skylight, nodes_processed }, cross_chunk_updates)
}

/// The single seed of a block light source: the intensity capped at 15.
pub open spec fn source_seed(pos: LocalPos, intensity: u8) -> Seq<(LocalPos, u8)> {
    seq![(pos, if intensity < 15 { intensity } else { 15u8 })]
}

/// Add a block light source of the given intensity (capped at 15) and flood it.
pub fn add_block_light<R: BlockOpacityProvider>(
    chunk: &mut Chunk,
    pos: LocalPos,
    intensity: u8,
    registry: &R,
) -> (res: LightUpdate)
    requires
        old(chunk).wf(),
        local_in_chunk(pos),
        pos_has_neighbors(old(chunk).spec_pos()),
    ensures
        final(chunk).wf(),
        final(chunk).spec_pos() == old(chunk).spec_pos(),
        res.chunk_pos == old(chunk).spec_pos(),
        res.light_type == LightType::BlockLight,
        res.nodes_processed >= 1,
        lit_from(
                old(chunk).cells(),
                final(chunk).cells(),
                source_seed(pos, intensity),
                registry_opacity(registry),
                LightType::BlockLight,
            ),
        opaque_kept(
                old(chunk).cells(),
                final(chunk).cells(),
                source_seed(pos, intensity),
                registry_opacity(registry),
                LightType::BlockLight,
            ),
        flood_supported(old(chunk).cells(), final(chunk).cells(), source_seed(pos, intensity), LightType::BlockLight),
{
    let chunk_pos = chunk.position();
    let mut queue = LightQueue::new_for_chunk(chunk_pos);
    let level = if intensity < MAX_LIGHT_LEVEL {
        intensity
    } else {
        MAX_LIGHT_LEVEL
    };
    queue.enqueue(pos, level);
    proof {
        assert(queue.pending() =~= source_seed(pos, intensity));
    }
    let nodes_processed = queue.propagate_blocklight(chunk, registry);
    LightUpdate { chunk_pos, light_type: LightType::BlockLight, nodes_processed }
}

/// `add_block_light`, also returning the light that leaves the chunk.
pub fn add_block_light_with_neighbors<R: BlockOpacityProvider>(
    chunk: &mut Chunk,
    pos: LocalPos,
    intensity: u8,
    registry: &R,
) -> (res: (LightUpdate, Vec<CrossChunkLightUpdate>))
    requires
        old(chunk).wf(),
        local_in_chunk(pos),
        pos_has_neighbors(old(chunk).spec_pos()),
    ensures
        final(chunk).wf(),
        final(chunk).spec_pos() == old(chunk).spec_pos(),
        res.0.chunk_pos == old(chunk).spec_pos(),
        res.0.light_type == LightType::BlockLight,
        res.0.nodes_processed >= 1,
        lit_from(
                old(chunk).cells(),
                final(chunk).cells(),
                source_seed(pos, intensity),
                registry_opacity(registry),
                LightType::BlockLight,
            ),
        opaque_kept(
                old(chunk).cells(),
                final(chunk).cells(),
                source_seed(pos, intensity),
                registry_opacity(registry),
                LightType::BlockLight,
            ),
        flood_supported(old(chunk).cells(), final(chunk).cells(), source_seed(pos, intensity), LightType::BlockLight),
        sends_across(
            old(chunk).cells(),
            final(chunk).cells(),
            res.1@,
            0,
            old(chunk).spec_pos(),
            LightType::BlockLight,
        ),
{
    let chunk_pos = chunk.position();
    let mut queue = LightQueue::new_for_chunk(chunk_pos);
    let level = if intensity < MAX_LIGHT_LEVEL {
        intensity
    } else {
        MAX_LIGHT_LEVEL
    };
    queue.enqueue(pos, level);
    proof {
        assert(queue.pending() =~= source_seed(pos, intensity));
    }
    let nodes_processed = queue.propagate_blocklight(chunk, registry);
    let cross_chunk_updates = queue.take_cross_chunk_updates();
    (LightUpdate { chunk_pos, light_type: LightType::BlockLight, nodes_processed }, cross_chunk_updates)
}

/// Number of cells with block light above zero.
pub open spec fn lit_count(cells: Seq<Voxel>) -> int
    decreases cells.len(),
{
    if cells.len() == 0 {
        0
    } else {
        lit_count(cells.drop_last()) + if cells.last().light_block > 0 {
            1int
        } else {
            0int
        }
    }
}

proof fn lemma_lit_count_nonneg(cells: Seq<Voxel>)
    ensures
        lit_count(cells) >= 0,
    decreases cells.len(),
{
    if cells.len() > 0 {
        lemma_lit_count_nonneg(cells.drop_last());
    }
}

proof fn lemma_lit_count_bound(cells: Seq<Voxel>)
    ensures
        lit_count(cells) <= cells.len(),
    decreases cells.len(),
{
    if cells.len() > 0 {
        lemma_lit_count_bound(cells.drop_last());
    }
}

proof fn lemma_lit_count_update(cells: Seq<Voxel>, i: int, v: Voxel)
    requires
        0 <= i < cells.len(),
    ensures
        lit_count(cells.update(i, v)) == lit_count(cells) - (if cells[i].light_block > 0 {
            1int
        } else {
            0int
        }) + (if v.light_block > 0 {
            1int
        } else {
            0int
        }),
    decreases cells.len(),
{
    if i == cells.len() - 1 {
        assert(cells.update(i, v).drop_last() =~= cells.drop_last());
    } else {
        lemma_lit_count_update(cells.drop_last(), i, v);
        assert(cells.update(i, v).drop_last() =~= cells.drop_last().update(i, v));
    }
}

/// A local position as an integer triple.
pub open spec fn lp(p: LocalPos) -> (int, int, int) {
    (p.x as int, p.y as int, p.z as int)
}

/// The integer position one step from `p` in direction `d`.
pub open spec fn tstep(p: (int, int, int), d: int) -> (int, int, int) {
    (p.0 + dir_dx(d), p.1 + dir_dy(d), p.2 + dir_dz(d))
}

pub open spec fn tin_chunk(p: (int, int, int)) -> bool {
    in_chunk(p.0, p.1, p.2)
}

/// Block light at an integer position.
pub open spec fn blk(cells: Seq<Voxel>, p: (int, int, int)) -> int {
    light_at(cells, LightType::BlockLight, p.0, p.1, p.2)
}

/// The direction back: up and down, east and west, south and north swap.
pub open spec fn back_dir(d: int) -> int {
    if d % 2 == 0 {
        d + 1
    } else {
        d - 1
    }
}

proof fn lemma_step_back(p: (int, int, int), d: int)
    requires
        0 <= d < 6,
    ensures
        0 <= back_dir(d) < 6,
        tstep(tstep(p, d), back_dir(d)) == p,
{
}

/// The region is closed toward direction `d` from `p`: a lit neighbor dimmer than `p` is in
/// the region too.
pub open spec fn region_closed_at(s0: Seq<Voxel>, r: Set<(int, int, int)>, p: (int, int, int), d: int) -> bool {
    (tin_chunk(tstep(p, d)) && 0 < blk(s0, tstep(p, d)) < blk(s0, p)) ==> r.contains(tstep(p, d))
}

/// A neighbor of `p` (direction `d`) outside the region that is at least as bright as `p`
/// is re-lit from: it is queued with its own light.
pub open spec fn seed_covers(s0: Seq<Voxel>, r: Set<(int, int, int)>, seeds: Seq<(LocalPos, u8)>, p: (int, int, int), d: int) -> bool {
    (tin_chunk(tstep(p, d)) && !r.contains(tstep(p, d)) && blk(s0, tstep(p, d)) >= blk(s0, p)) ==> exists|k: int|
        0 <= k < seeds.len() && lp((#[trigger] seeds[k]).0) == tstep(p, d) && seeds[k].1 == blk(s0, tstep(p, d))
}

/// `p` has a neighbor in the region that was brighter than it.
pub open spec fn has_brighter_parent(s0: Seq<Voxel>, r: Set<(int, int, int)>, p: (int, int, int)) -> bool {
    exists|d: int| 0 <= d < 6 && r.contains(#[trigger] tstep(p, d)) && blk(s0, p) < blk(s0, tstep(p, d))
}

/// A re-light seed: a lit cell with its own light, next to a region cell no brighter than it.
pub open spec fn seed_ok(s0: Seq<Voxel>, r: Set<(int, int, int)>, s: (LocalPos, u8)) -> bool {
    &&& local_in_chunk(s.0)
    &&& s.1 == blk(s0, lp(s.0))
    &&& s.1 > 0
    &&& exists|d: int|
        0 <= d < 6 && r.contains(#[trigger] tstep(lp(s.0), d)) && blk(s0, lp(s.0)) >= blk(s0, tstep(lp(s.0), d))
}

/// The region darkened by removing the light at `src`: lit cells, containing `src`, closed
/// under dimmer lit neighbors, and each cell but `src` dimmer than a neighbor in it (so it is
/// the least such set).
pub open spec fn removal_region(s0: Seq<Voxel>, src: (int, int, int), r: Set<(int, int, int)>) -> bool {
    &&& r.contains(src)
    &&& forall|p: (int, int, int)| #[trigger] r.contains(p) ==> tin_chunk(p) && blk(s0, p) > 0
    &&& forall|p: (int, int, int), d: int| r.contains(p) && 0 <= d < 6 ==> #[trigger] region_closed_at(s0, r, p, d)
    &&& forall|p: (int, int, int)| r.contains(p) && p != src ==> #[trigger] has_brighter_parent(s0, r, p)
}

/// The re-light seeds of a removal: each is a valid seed, and every neighbor outside the
/// region at least as bright as its region cell is one of them.
pub open spec fn relight_seeds(s0: Seq<Voxel>, r: Set<(int, int, int)>, seeds: Seq<(LocalPos, u8)>) -> bool {
    &&& forall|k: int| 0 <= k < seeds.len() ==> #[trigger] seed_ok(s0, r, seeds[k])
    &&& forall|p: (int, int, int), d: int| r.contains(p) && 0 <= d < 6 ==> #[trigger] seed_covers(s0, r, seeds, p, d)
}

/// `mid` is `s0` with the block light of the region's cells set to zero.
pub open spec fn cleared_by(s0: Seq<Voxel>, mid: Seq<Voxel>, r: Set<(int, int, int)>) -> bool {
    &&& mid.len() == CHUNK_VOLUME
    &&& forall|x: int, y: int, z: int|
        in_chunk(x, y, z) ==> #[trigger] mid[voxel_index(x, y, z)] == if r.contains((x, y, z)) {
            with_level(s0[voxel_index(x, y, z)], LightType::BlockLight, 0)
        } else {
            s0[voxel_index(x, y, z)]
        }
}

/// Every seed lit each see-through in-chunk neighbour (see-through in `cells`) to at least
/// its decayed block light in `fin`.
pub open spec fn seeds_spread(cells: Seq<Voxel>, fin: Seq<Voxel>, seeds: Seq<(LocalPos, u8)>, opaque: Seq<bool>) -> bool {
    forall|k: int, d: int|
        0 <= k < seeds.len() && 0 <= d < 6 && in_chunk(
            #[trigger] step_x(seeds[k].0, d),
            step_y(seeds[k].0, d),
            step_z(seeds[k].0, d),
        ) && !opaque_id(opaque, cells[voxel_index(step_x(seeds[k].0, d), step_y(seeds[k].0, d), step_z(seeds[k].0, d))].id)
            && decayed(seeds[k].1 as int, LightType::BlockLight, d) > 0 ==> light_at(
            fin,
            LightType::BlockLight,
            step_x(seeds[k].0, d),
            step_y(seeds[k].0, d),
            step_z(seeds[k].0, d),
        ) >= decayed(seeds[k].1 as int, LightType::BlockLight, d)
}

/// `n` is the decayed block light that one of the seeds passes to a neighbour.
pub open spec fn from_seed(seeds: Seq<(LocalPos, u8)>, n: (LocalPos, u8)) -> bool {
    exists|k: int| 0 <= k < seeds.len() && #[trigger] neighbor_node(seeds[k].0, seeds[k].1, LightType::BlockLight, n)
}

/// Every entry of `spread` is the decayed block light a seed passes to a neighbour.
pub open spec fn spread_of(seeds: Seq<(LocalPos, u8)>, spread: Seq<(LocalPos, u8)>) -> bool {
    forall|j: int| 0 <= j < spread.len() ==> #[trigger] from_seed(seeds, spread[j])
}

/// One removal from `s0` to `fin`: the region around `src` is cleared to `mid`, and block
/// light is re-flooded from the seeds into `fin`: each seed passes its decayed light to its
/// see-through neighbours (the entries `spread`), which are flooded from there.
pub open spec fn removal_outcome(
    s0: Seq<Voxel>,
    mid: Seq<Voxel>,
    fin: Seq<Voxel>,
    src: (int, int, int),
    r: Set<(int, int, int)>,
    seeds: Seq<(LocalPos, u8)>,
    spread: Seq<(LocalPos, u8)>,
    opaque: Seq<bool>,
) -> bool {
    &&& removal_region(s0, src, r)
    &&& cleared_by(s0, mid, r)
    &&& relight_seeds(s0, r, seeds)
    &&& opaque.len() == BLOCK_ID_COUNT
    &&& spread_of(seeds, spread)
    &&& seeds_spread(mid, fin, seeds, opaque)
    &&& lit_from(mid, fin, spread, opaque, LightType::BlockLight)
    &&& opaque_kept(mid, fin, spread, opaque, LightType::BlockLight)
    &&& flood_supported(mid, fin, spread, LightType::BlockLight)
}

/// Whether a queue holds an entry at position `p`.
pub open spec fn queued(q: Seq<(LocalPos, u8)>, p: (int, int, int)) -> bool {
    exists|j: int| 0 <= j < q.len() && lp((#[trigger] q[j]).0) == p
}

proof fn lemma_cleared_insert(s0: Seq<Voxel>, cb: Seq<Voxel>, cells: Seq<Voxel>, removed_b: Set<(int, int, int)>, nb: (int, int, int))
    requires
        cleared_by(s0, cb, removed_b),
        tin_chunk(nb),
        cells == cb.update(voxel_index(nb.0, nb.1, nb.2), with_level(cb[voxel_index(nb.0, nb.1, nb.2)], LightType::BlockLight, 0)),
        !removed_b.contains(nb),
    ensures
        cleared_by(s0, cells, removed_b.insert(nb)),
{
    let removed = removed_b.insert(nb);
    assert forall|x: int, y: int, z: int| in_chunk(x, y, z) implies #[trigger] cells[voxel_index(x, y, z)] == if removed.contains((x, y, z)) {
        with_level(s0[voxel_index(x, y, z)], LightType::BlockLight, 0)
    } else {
        s0[voxel_index(x, y, z)]
    } by {
        crate::chunk::lemma_voxel_index_bounds(x, y, z);
        crate::chunk::lemma_voxel_index_bounds(nb.0, nb.1, nb.2);
        if voxel_index(x, y, z) == voxel_index(nb.0, nb.1, nb.2) {
            crate::chunk::lemma_voxel_index_injective(x, y, z, nb.0, nb.1, nb.2);
        }
        assert(cb[voxel_index(x, y, z)] == cb[voxel_index(x, y, z)]);
        assert(cb[voxel_index(nb.0, nb.1, nb.2)] == cb[voxel_index(nb.0, nb.1, nb.2)]);
    }
}

proof fn lemma_parents_insert(s0: Seq<Voxel>, removed_b: Set<(int, int, int)>, src: (int, int, int), cur: (int, int, int), nb: (int, int, int), d: int)
    requires
        0 <= d < 6,
        nb == tstep(cur, d),
        removed_b.contains(cur),
        blk(s0, nb) < blk(s0, cur),
        forall|p: (int, int, int)| removed_b.contains(p) && p != src ==> #[trigger] has_brighter_parent(s0, removed_b, p),
    ensures
        forall|p: (int, int, int)| removed_b.insert(nb).contains(p) && p != src ==> #[trigger] has_brighter_parent(s0, removed_b.insert(nb), p),
{
    let removed = removed_b.insert(nb);
    lemma_step_back(cur, d);
    assert forall|p: (int, int, int)| removed.contains(p) && p != src implies #[trigger] has_brighter_parent(s0, removed, p) by {
        if p == nb {
            assert(removed.contains(tstep(nb, back_dir(d))));
        } else {
            assert(has_brighter_parent(s0, removed_b, p));
            let e = choose|e: int| 0 <= e < 6 && removed_b.contains(#[trigger] tstep(p, e)) && blk(s0, p) < blk(s0, tstep(p, e));
            assert(removed.contains(tstep(p, e)));
        }
    }
}

proof fn lemma_seeds_ok_insert(s0: Seq<Voxel>, removed_b: Set<(int, int, int)>, nb: (int, int, int), seeds: Seq<(LocalPos, u8)>)
    requires
        forall|k: int| 0 <= k < seeds.len() ==> #[trigger] seed_ok(s0, removed_b, seeds[k]),
    ensures
        forall|k: int| 0 <= k < seeds.len() ==> #[trigger] seed_ok(s0, removed_b.insert(nb), seeds[k]),
{
    let removed = removed_b.insert(nb);
    assert forall|k: int| 0 <= k < seeds.len() implies #[trigger] seed_ok(s0, removed, seeds[k]) by {
        let sk = seeds[k];
        assert(seed_ok(s0, removed_b, sk));
        let e = choose|e: int| 0 <= e < 6 && removed_b.contains(#[trigger] tstep(lp(sk.0), e)) && blk(s0, lp(sk.0)) >= blk(s0, tstep(lp(sk.0), e));
        assert(removed.contains(tstep(lp(sk.0), e)));
    }
}

/// The closure facts of a removal in progress: every finished region cell other than the
/// current one is closed and covered in all directions, the current one in directions
/// below `d`.
pub open spec fn removal_progress(
    s0: Seq<Voxel>,
    removed: Set<(int, int, int)>,
    rq: Seq<(LocalPos, u8)>,
    seeds: Seq<(LocalPos, u8)>,
    cur: (int, int, int),
    d: int,
) -> bool {
    &&& forall|p: (int, int, int), e: int|
        removed.contains(p) && !queued(rq, p) && p != cur && 0 <= e < 6 ==> #[trigger] region_closed_at(s0, removed, p, e)
            && seed_covers(s0, removed, seeds, p, e)
    &&& forall|e: int|
        0 <= e < d ==> #[trigger] region_closed_at(s0, removed, cur, e) && seed_covers(s0, removed, seeds, cur, e)
}

proof fn lemma_removal_step(
    s0: Seq<Voxel>,
    removed_b: Set<(int, int, int)>,
    rq_d: Seq<(LocalPos, u8)>,
    seeds: Seq<(LocalPos, u8)>,
    cur: (int, int, int),
    d: int,
    npos: LocalPos,
    l: u8,
)
    requires
        0 <= d < 6,
        lp(npos) == tstep(cur, d),
        !removed_b.contains(lp(npos)),
        removed_b.contains(cur),
        removal_progress(s0, removed_b, rq_d, seeds, cur, d),
    ensures
        removal_progress(s0, removed_b.insert(lp(npos)), rq_d.push((npos, l)), seeds, cur, d + 1),
{
    let nb = lp(npos);
    let removed = removed_b.insert(nb);
    let rq = rq_d.push((npos, l));
    assert forall|p: (int, int, int), e: int|
        removed.contains(p) && !queued(rq, p) && p != cur && 0 <= e < 6 implies #[trigger] region_closed_at(s0, removed, p, e)
            && seed_covers(s0, removed, seeds, p, e) by {
        if p != nb {
            assert(!queued(rq_d, p)) by {
                if queued(rq_d, p) {
                    let j = choose|j: int| 0 <= j < rq_d.len() && lp((#[trigger] rq_d[j]).0) == p;
                    assert(rq[j] == rq_d[j]);
                    assert(queued(rq, p));
                }
            }
            assert(region_closed_at(s0, removed_b, p, e) && seed_covers(s0, removed_b, seeds, p, e));
        } else {
            assert(rq[rq_d.len() as int] == (npos, l));
            assert(queued(rq, p));
        }
    }
    assert forall|e: int| 0 <= e < d + 1 implies #[trigger] region_closed_at(s0, removed, cur, e) && seed_covers(s0, removed, seeds, cur, e) by {
        if e < d {
            assert(region_closed_at(s0, removed_b, cur, e) && seed_covers(s0, removed_b, seeds, cur, e));
        }
    }
}

proof fn lemma_covers_push(
    s0: Seq<Voxel>,
    removed: Set<(int, int, int)>,
    seeds_b: Seq<(LocalPos, u8)>,
    x: (LocalPos, u8),
    p: (int, int, int),
    e: int,
)
    requires
        seed_covers(s0, removed, seeds_b, p, e),
    ensures
        seed_covers(s0, removed, seeds_b.push(x), p, e),
{
    let seeds = seeds_b.push(x);
    if tin_chunk(tstep(p, e)) && !removed.contains(tstep(p, e)) && blk(s0, tstep(p, e)) >= blk(s0, p) {
        let k = choose|k: int| 0 <= k < seeds_b.len() && lp((#[trigger] seeds_b[k]).0) == tstep(p, e) && seeds_b[k].1 == blk(s0, tstep(p, e));
        assert(seeds[k] == seeds_b[k]);
    }
}

#[verifier::spinoff_prover]
proof fn lemma_seed_step(
    s0: Seq<Voxel>,
    removed: Set<(int, int, int)>,
    rq: Seq<(LocalPos, u8)>,
    seeds_b: Seq<(LocalPos, u8)>,
    cur: (int, int, int),
    d: int,
    npos: LocalPos,
    l: u8,
)
    requires
        0 <= d < 6,
        lp(npos) == tstep(cur, d),
        local_in_chunk(npos),
        !removed.contains(lp(npos)),
        removed.contains(cur),
        l == blk(s0, lp(npos)),
        l > 0,
        blk(s0, lp(npos)) >= blk(s0, cur),
        removal_progress(s0, removed, rq, seeds_b, cur, d),
        forall|k: int| 0 <= k < seeds_b.len() ==> #[trigger] seed_ok(s0, removed, seeds_b[k]),
    ensures
        removal_progress(s0, removed, rq, seeds_b.push((npos, l)), cur, d + 1),
        forall|k: int|
            0 <= k < seeds_b.push((npos, l)).len() ==> #[trigger] seed_ok(s0, removed, seeds_b.push((npos, l))[k]),
{
    let seeds = seeds_b.push((npos, l));
    lemma_step_back(cur, d);
    assert(seeds[seeds_b.len() as int] == (npos, l));
    assert(seed_ok(s0, removed, (npos, l))) by {
        assert(tstep(lp(npos), back_dir(d)) == cur);
        assert(0 <= back_dir(d) < 6 && removed.contains(tstep(lp(npos), back_dir(d))) && blk(s0, lp(npos)) >= blk(
            s0,
            tstep(lp(npos), back_dir(d)),
        ));
    }
    assert forall|k: int| 0 <= k < seeds.len() implies #[trigger] seed_ok(s0, removed, seeds[k]) by {
        if k < seeds_b.len() {
            assert(seeds[k] == seeds_b[k]);
        }
    }
    assert forall|p: (int, int, int), e: int|
        removed.contains(p) && !queued(rq, p) && p != cur && 0 <= e < 6 implies #[trigger] region_closed_at(s0, removed, p, e)
            && seed_covers(s0, removed, seeds, p, e) by {
        assert(region_closed_at(s0, removed, p, e) && seed_covers(s0, removed, seeds_b, p, e));
        lemma_covers_push(s0, removed, seeds_b, (npos, l), p, e);
    }
    assert forall|e: int| 0 <= e < d + 1 implies #[trigger] region_closed_at(s0, removed, cur, e) && seed_covers(s0, removed, seeds, cur, e) by {
        if e < d {
            assert(region_closed_at(s0, removed, cur, e) && seed_covers(s0, removed, seeds_b, cur, e));
            lemma_covers_push(s0, removed, seeds_b, (npos, l), cur, e);
        } else {
            assert(lp(seeds[seeds_b.len() as int].0) == tstep(cur, e));
        }
    }
}

proof fn lemma_quiet_step(
    s0: Seq<Voxel>,
    removed: Set<(int, int, int)>,
    rq: Seq<(LocalPos, u8)>,
    seeds: Seq<(LocalPos, u8)>,
    cur: (int, int, int),
    d: int,
)
    requires
        0 <= d < 6,
        !tin_chunk(tstep(cur, d)) || removed.contains(tstep(cur, d)) || blk(s0, tstep(cur, d)) == 0,
        blk(s0, cur) > 0,
        removal_progress(s0, removed, rq, seeds, cur, d),
    ensures
        removal_progress(s0, removed, rq, seeds, cur, d + 1),
{
    assert forall|e: int| 0 <= e < d + 1 implies #[trigger] region_closed_at(s0, removed, cur, e) && seed_covers(s0, removed, seeds, cur, e) by {
        if e < d {
            assert(region_closed_at(s0, removed, cur, e) && seed_covers(s0, removed, seeds, cur, e));
        }
    }
}

/// Remove the block light at a position: clear it, clear (breadth first) every in-chunk
/// neighbor lit more dimly than the light that reached it, and re-flood from the neighbors
/// that are at least as bright. Only block light changes. A position without block light
/// is left alone and reported with no work done.
pub fn remove_block_light<R: BlockOpacityProvider>(chunk: &mut Chunk, pos: LocalPos, registry: &R) -> (res:
    LightUpdate)
    requires
        old(chunk).wf(),
        local_in_chunk(pos),
    ensures
        final(chunk).wf(),
        final(chunk).spec_pos() == old(chunk).spec_pos(),
        res.chunk_pos == old(chunk).spec_pos(),
        res.light_type == LightType::BlockLight,
        forall|i: int|
            0 <= i < CHUNK_VOLUME ==> same_but_light(
                old(chunk).cells()[i],
                #[trigger] final(chunk).cells()[i],
                LightType::BlockLight,
            ),
        old(chunk).at(pos.x as int, pos.y as int, pos.z as int).light_block == 0 ==> final(chunk).cells()
            == old(chunk).cells() && res.nodes_processed == 0,
        old(chunk).at(pos.x as int, pos.y as int, pos.z as int).light_block > 0 ==> res.nodes_processed
            >= 1 && exists|
            mid: Seq<Voxel>,
            r: Set<(int, int, int)>,
            seeds: Seq<(LocalPos, u8)>,
            spread: Seq<(LocalPos, u8)>,
        | #[trigger] removal_outcome(
            old(chunk).cells(),
            mid,
            final(chunk).cells(),
            lp(pos),
            r,
            seeds,
            spread,
            registry_opacity(registry),
        ),
{
    let ghost s0 = chunk.cells();
    let ghost src = lp(pos);
    let old_light = chunk.voxel(pos.x, pos.y, pos.z).light_block;
    if old_light == 0 {
        return LightUpdate {
            chunk_pos: chunk.position(),
            light_type: LightType::BlockLight,
            nodes_processed: 0,
        };
    }
    let mut voxel = chunk.voxel(pos.x, pos.y, pos.z);
    voxel.light_block = 0;
    chunk.set_voxel(pos.x, pos.y, pos.z, voxel);
    let mut removal_queue: VecDeque<(LocalPos, u8)> = VecDeque::new();
    removal_queue.push_back((pos, old_light));
    let mut nodes_processed: usize = 1;
    let mut relight_queue = LightQueue::new();
    let ghost mut removed: Set<(int, int, int)> = Set::empty().insert(src);
    proof {
        lemma_lit_count_nonneg(chunk.cells());
        lemma_lit_count_bound(chunk.cells());
        assert forall|x: int, y: int, z: int| in_chunk(x, y, z) implies #[trigger] chunk.cells()[voxel_index(x, y, z)] == if removed.contains((x, y, z)) {
            with_level(s0[voxel_index(x, y, z)], LightType::BlockLight, 0)
        } else {
            s0[voxel_index(x, y, z)]
        } by {
            crate::chunk::lemma_voxel_index_bounds(x, y, z);
            if voxel_index(x, y, z) == voxel_index(pos.x as int, pos.y as int, pos.z as int) {
                crate::chunk::lemma_voxel_index_injective(x, y, z, pos.x as int, pos.y as int, pos.z as int);
            }
        }
        assert(removal_queue@[0] == (pos, old_light));
        assert forall|p: (int, int, int)| removed.contains(p) && p != src implies #[trigger] has_brighter_parent(s0, removed, p) by {}
    }
    while removal_queue.len() > 0
        invariant
            chunk.wf(),
            chunk.spec_pos() == old(chunk).spec_pos(),
            s0 == old(chunk).cells(),
            s0.len() == CHUNK_VOLUME,
            src == lp(pos),
            forall|i: int|
                0 <= i < CHUNK_VOLUME ==> same_but_light(s0[i], #[trigger] chunk.cells()[i], LightType::BlockLight),
            forall|j: int| 0 <= j < removal_queue@.len() ==> local_in_chunk((#[trigger] removal_queue@[j]).0),
            forall|j: int|
                0 <= j < removal_queue@.len() ==> removed.contains(lp((#[trigger] removal_queue@[j]).0))
                    && removal_queue@[j].1 == blk(s0, lp(removal_queue@[j].0)),
            forall|j: int|
                0 <= j < relight_queue.pending().len() ==> local_in_chunk(
                    (#[trigger] relight_queue.pending()[j]).0,
                ),
            relight_queue.spec_chunk_pos() == (ChunkPos { x: 0, z: 0 }),
            nodes_processed >= 1,
            nodes_processed + lit_count(chunk.cells()) <= CHUNK_VOLUME + 1,
            lit_count(chunk.cells()) >= 0,
            cleared_by(s0, chunk.cells(), removed),
            removed.contains(src),
            forall|p: (int, int, int)| #[trigger] removed.contains(p) ==> tin_chunk(p) && blk(s0, p) > 0,
            forall|p: (int, int, int)| removed.contains(p) && p != src ==> #[trigger] has_brighter_parent(s0, removed, p),
            forall|p: (int, int, int), d: int|
                removed.contains(p) && !queued(removal_queue@, p) && 0 <= d < 6 ==> #[trigger] region_closed_at(s0, removed, p, d)
                    && seed_covers(s0, removed, relight_queue.pending(), p, d),
            forall|k: int| 0 <= k < relight_queue.pending().len() ==> #[trigger] seed_ok(s0, removed, relight_queue.pending()[k]),
        decreases 3 * lit_count(chunk.cells()) + removal_queue@.len(),
    {
        let ghost rq_b = removal_queue@;
        let ghost lit_b = lit_count(chunk.cells());
        let (current, light_level) = removal_queue.pop_front().unwrap();
        let ghost cur = lp(current);
        proof {
            assert(rq_b[0] == (current, light_level));
            assert(local_in_chunk(current));
            assert(removed.contains(cur) && light_level == blk(s0, cur));
            assert(removal_queue@ == rq_b.subrange(1, rq_b.len() as int));
            assert forall|p: (int, int, int), d: int|
                removed.contains(p) && !queued(removal_queue@, p) && p != cur && 0 <= d < 6 implies #[trigger] region_closed_at(s0, removed, p, d)
                    && seed_covers(s0, removed, relight_queue.pending(), p, d) by {
                if queued(rq_b, p) {
                    let j = choose|j: int| 0 <= j < rq_b.len() && lp((#[trigger] rq_b[j]).0) == p;
                    if j > 0 {
                        assert(removal_queue@[j - 1] == rq_b[j]);
                    }
                }
            }
        }
        let mut d: usize = 0;
        while d < 6
            invariant
                d <= 6,
                chunk.wf(),
                chunk.spec_pos() == old(chunk).spec_pos(),
                s0 == old(chunk).cells(),
                s0.len() == CHUNK_VOLUME,
                src == lp(pos),
                cur == lp(current),
                local_in_chunk(current),
                removed.contains(cur),
                light_level == blk(s0, cur),
                forall|i: int|
                    0 <= i < CHUNK_VOLUME ==> same_but_light(s0[i], #[trigger] chunk.cells()[i], LightType::BlockLight),
                forall|j: int| 0 <= j < removal_queue@.len() ==> local_in_chunk((#[trigger] removal_queue@[j]).0),
                forall|j: int|
                    0 <= j < removal_queue@.len() ==> removed.contains(lp((#[trigger] removal_queue@[j]).0))
                        && removal_queue@[j].1 == blk(s0, lp(removal_queue@[j].0)),
                forall|j: int|
                    0 <= j < relight_queue.pending().len() ==> local_in_chunk(
                        (#[trigger] relight_queue.pending()[j]).0,
                    ),
                relight_queue.spec_chunk_pos() == (ChunkPos { x: 0, z: 0 }),
                nodes_processed >= 1,
                nodes_processed + lit_count(chunk.cells()) <= CHUNK_VOLUME + 1,
                lit_count(chunk.cells()) >= 0,
                rq_b.len() > 0,
                removal_queue@.len() >= rq_b.len() - 1,
                removal_queue@.len() + 2 * lit_count(chunk.cells()) <= rq_b.len() - 1 + 2 * lit_b,
                cleared_by(s0, chunk.cells(), removed),
                removed.contains(src),
                forall|p: (int, int, int)| #[trigger] removed.contains(p) ==> tin_chunk(p) && blk(s0, p) > 0,
                forall|p: (int, int, int)| removed.contains(p) && p != src ==> #[trigger] has_brighter_parent(s0, removed, p),
                removal_progress(s0, removed, removal_queue@, relight_queue.pending(), cur, d as int),
                forall|k: int| 0 <= k < relight_queue.pending().len() ==> #[trigger] seed_ok(s0, removed, relight_queue.pending()[k]),
            decreases 6 - d,
        {
            let (dx, dy, dz) = dir_offset(d);
            let nx = current.x as i32 + dx;
            let ny = current.y as i32 + dy;
            let nz = current.z as i32 + dz;
            let ghost nb = tstep(cur, d as int);
            let ghost removed_b = removed;
            let ghost seeds_b = relight_queue.pending();
            let ghost rq_d = removal_queue@;
            proof {
                lemma_step_back(cur, d as int);
            }
            if nx >= 0 && nx < CHUNK_SIZE_X as i32 && ny >= 0 && ny < CHUNK_SIZE_Y as i32 && nz >= 0
                && nz < CHUNK_SIZE_Z as i32 {
                let npos = LocalPos { x: nx as usize, y: ny as usize, z: nz as usize };
                assert(lp(npos) == nb);
                let neighbor_light = chunk.voxel(npos.x, npos.y, npos.z).light_block;
                proof {
                    assert(chunk.cells()[voxel_index(nb.0, nb.1, nb.2)] == chunk.cells()[voxel_index(nb.0, nb.1, nb.2)]);
                    assert(removed.contains(nb) ==> neighbor_light == 0);
                    assert(!removed.contains(nb) ==> neighbor_light == blk(s0, nb));
                }
                if neighbor_light > 0 {
                    if neighbor_light < light_level {
                        let ghost cb = chunk.cells();
                        let mut v = chunk.voxel(npos.x, npos.y, npos.z);
                        v.light_block = 0;
                        chunk.set_voxel(npos.x, npos.y, npos.z, v);
                        proof {
                            let ni = voxel_index(nx as int, ny as int, nz as int);
                            lemma_lit_count_update(cb, ni, v);
                            lemma_lit_count_nonneg(chunk.cells());
                            assert forall|i: int|
                                0 <= i < CHUNK_VOLUME implies same_but_light(s0[i], #[trigger] chunk.cells()[i], LightType::BlockLight) by {
                                assert(same_but_light(s0[i], cb[i], LightType::BlockLight));
                            }
                            removed = removed.insert(nb);
                            lemma_cleared_insert(s0, cb, chunk.cells(), removed_b, nb);
                            lemma_parents_insert(s0, removed_b, src, cur, nb, d as int);
                            lemma_seeds_ok_insert(s0, removed_b, nb, seeds_b);
                        }
                        removal_queue.push_back((npos, neighbor_light));
                        nodes_processed = nodes_processed + 1;
                        proof {
                            assert(removal_queue@ == rq_d.push((npos, neighbor_light)));
                            assert forall|j: int| 0 <= j < removal_queue@.len() implies removed.contains(lp((#[trigger] removal_queue@[j]).0))
                                && removal_queue@[j].1 == blk(s0, lp(removal_queue@[j].0)) by {
                                if j < rq_d.len() {
                                    assert(removal_queue@[j] == rq_d[j]);
                                }
                            }
                            lemma_removal_step(s0, removed_b, rq_d, seeds_b, cur, d as int, npos, neighbor_light);
                        }
                    } else {
                        relight_queue.enqueue(npos, neighbor_light);
                        proof {
                            lemma_seed_step(s0, removed, rq_d, seeds_b, cur, d as int, npos, neighbor_light);
                        }
                    }
                } else {
                    proof {
                        lemma_quiet_step(s0, removed, rq_d, seeds_b, cur, d as int);
                    }
                }
            } else {
                proof {
                    assert(!tin_chunk(nb));
                    lemma_quiet_step(s0, removed, rq_d, seeds_b, cur, d as int);
                }
            }
            d = d + 1;
        }
        proof {
            assert forall|p: (int, int, int), e: int|
                removed.contains(p) && !queued(removal_queue@, p) && 0 <= e < 6 implies #[trigger] region_closed_at(s0, removed, p, e)
                    && seed_covers(s0, removed, relight_queue.pending(), p, e) by {
                if p == cur {
                    assert(region_closed_at(s0, removed, cur, e) && seed_covers(s0, removed, relight_queue.pending(), cur, e));
                }
            }
        }
    }
    let ghost mid = chunk.cells();
    let ghost seeds = relight_queue.pending();
    proof {
        assert forall|p: (int, int, int), e: int| removed.contains(p) && 0 <= e < 6 implies #[trigger] region_closed_at(s0, removed, p, e) by {
            assert(!queued(removal_queue@, p));
        }
        assert forall|p: (int, int, int), e: int| removed.contains(p) && 0 <= e < 6 implies #[trigger] seed_covers(s0, removed, seeds, p, e) by {
            assert(!queued(removal_queue@, p));
            assert(region_closed_at(s0, removed, p, e) && seed_covers(s0, removed, seeds, p, e));
        }
    }
    let table = opacity_table(registry);
    let mut spread = LightQueue::new();
    let mut i: usize = 0;
    let seed_count = relight_queue.queue.len();
    while relight_queue.queue.len() > 0
        invariant
            chunk.wf(),
            chunk.cells() == mid,
            mid.len() == CHUNK_VOLUME,
            table@ == registry_opacity(registry),
            table@.len() == BLOCK_ID_COUNT,
            i <= seeds.len(),
            seeds.len() == seed_count,
            relight_queue.pending() == seeds.subrange(i as int, seeds.len() as int),
            forall|j: int| 0 <= j < seeds.len() ==> local_in_chunk((#[trigger] seeds[j]).0),
            spread.spec_chunk_pos() == (ChunkPos { x: 0, z: 0 }),
            spread_of(seeds, spread.pending()),
            forall|j: int| 0 <= j < spread.pending().len() ==> local_in_chunk((#[trigger] spread.pending()[j]).0),
            forall|k: int, d: int|
                0 <= k < i && 0 <= d < 6 && #[trigger] open_toward(*chunk, table@, seeds[k].0, d) && decayed(
                    seeds[k].1 as int,
                    LightType::BlockLight,
                    d,
                ) > 0 ==> queued_between(
                    spread.pending(),
                    0,
                    spread.pending().len() as int,
                    node_toward(seeds[k].0, seeds[k].1, LightType::BlockLight, d),
                ),
        decreases seeds.len() - i,
    {
        let ghost rq = relight_queue.pending();
        let ghost sp = spread.pending();
        let (p, l) = relight_queue.queue.pop_front().unwrap();
        proof {
            assert(rq[0] == seeds[i as int]);
            assert(relight_queue.pending() =~= seeds.subrange(i + 1, seeds.len() as int));
        }
        spread.propagate_to_neighbors(p, l, chunk, &table, LightType::BlockLight);
        proof {
            let sa = spread.pending();
            assert forall|j: int| 0 <= j < sa.len() implies local_in_chunk((#[trigger] sa[j]).0) by {
                if j < sp.len() {
                    assert(sa[j] == sp[j]);
                }
            }
            assert forall|j: int| 0 <= j < sa.len() implies #[trigger] from_seed(seeds, sa[j]) by {
                if j < sp.len() {
                    assert(sa[j] == sp[j]);
                    assert(from_seed(seeds, sp[j]));
                } else {
                    assert(neighbor_node(seeds[i as int].0, seeds[i as int].1, LightType::BlockLight, sa[j]));
                }
            }
            assert forall|k: int, d: int|
                0 <= k < i + 1 && 0 <= d < 6 && #[trigger] open_toward(*chunk, table@, seeds[k].0, d) && decayed(
                    seeds[k].1 as int,
                    LightType::BlockLight,
                    d,
                ) > 0 implies queued_between(
                    sa,
                    0,
                    sa.len() as int,
                    node_toward(seeds[k].0, seeds[k].1, LightType::BlockLight, d),
                ) by {
                let nd = node_toward(seeds[k].0, seeds[k].1, LightType::BlockLight, d);
                if k < i {
                    assert(queued_between(sp, 0, sp.len() as int, nd));
                    let j = choose|j: int| 0 <= j < sp.len() && sp[j] == nd;
                    assert(sa[j] == nd);
                } else {
                    assert(queued_between(sa, sp.len() as int, sa.len() as int, nd));
                }
            }
        }
        i = i + 1;
    }
    let ghost spread_entries = spread.pending();
    let ghost chunk_mid = *chunk;
    proof {
        assert(i == seeds.len()) by {
            assert(relight_queue.pending().len() == 0);
        }
    }
    let relit = spread.propagate_with_opacity(chunk, &table, LightType::BlockLight);
    nodes_processed = nodes_processed.saturating_add(relit);
    proof {
        let fin = chunk.cells();
        assert forall|k: int, d: int|
            0 <= k < seeds.len() && 0 <= d < 6 && in_chunk(
                #[trigger] step_x(seeds[k].0, d),
                step_y(seeds[k].0, d),
                step_z(seeds[k].0, d),
            ) && !opaque_id(table@, mid[voxel_index(step_x(seeds[k].0, d), step_y(seeds[k].0, d), step_z(seeds[k].0, d))].id)
                && decayed(seeds[k].1 as int, LightType::BlockLight, d) > 0 implies light_at(
                fin,
                LightType::BlockLight,
                step_x(seeds[k].0, d),
                step_y(seeds[k].0, d),
                step_z(seeds[k].0, d),
            ) >= decayed(seeds[k].1 as int, LightType::BlockLight, d) by {
            let nd = node_toward(seeds[k].0, seeds[k].1, LightType::BlockLight, d);
            assert(open_toward(chunk_mid, table@, seeds[k].0, d));
            assert(queued_between(spread_entries, 0, spread_entries.len() as int, nd));
            let j = choose|j: int| 0 <= j < spread_entries.len() && spread_entries[j] == nd;
            assert(light_at(fin, LightType::BlockLight, spread_entries[j].0.x as int, spread_entries[j].0.y as int, spread_entries[j].0.z as int) >= spread_entries[j].1);
        }
        assert(removal_region(s0, src, removed));
        assert(cleared_by(s0, mid, removed));
        assert(relight_seeds(s0, removed, seeds));
        assert(seeds_spread(mid, fin, seeds, registry_opacity(registry)));
        assert(lit_from(mid, fin, spread_entries, registry_opacity(registry), LightType::BlockLight));
        assert(opaque_kept(mid, fin, spread_entries, registry_opacity(registry), LightType::BlockLight));
        assert(flood_supported(mid, fin, spread_entries, LightType::BlockLight));
        assert(registry_opacity(registry).len() == BLOCK_ID_COUNT);
        assert(spread_of(seeds, spread_entries));
        assert(removal_outcome(s0, mid, fin, src, removed, seeds, spread_entries, registry_opacity(registry)));
        assert forall|i: int| 0 <= i < CHUNK_VOLUME implies same_but_light(s0[i], #[trigger] chunk.cells()[i], LightType::BlockLight) by {
            assert(same_but_light(s0[i], mid[i], LightType::BlockLight));
            assert(same_but_light(mid[i], chunk.cells()[i], LightType::BlockLight));
        }
    }
    LightUpdate { chunk_pos: chunk.position(), light_type: LightType::BlockLight, nodes_processed }
}

/// `w` holds the same block as `v`, and neither light got darker.
pub open spec fn brightened(v: Voxel, w: Voxel) -> bool {
    w.id == v.id && w.state == v.state && w.light_sky >= v.light_sky && w.light_block >= v.light_block
}

/// The same chunks are loaded, with the same blocks, and no light got darker.
pub open spec fn map_brightened(before: ChunkMap, after: ChunkMap) -> bool {
    &&& after.keys() == before.keys()
    &&& forall|q: ChunkPos|
        before.keys().contains(q) ==> #[trigger] after.chunk_pos_at(q) == before.chunk_pos_at(q)
    &&& forall|q: ChunkPos, i: int|
        before.keys().contains(q) && 0 <= i < CHUNK_VOLUME ==> brightened(
            before.cells_at(q)[i],
            #[trigger] after.cells_at(q)[i],
        )
}

/// A cross-chunk update has arrived: where its target chunk is loaded and the target block
/// lets light through, the target holds at least the update's light.
pub open spec fn update_reached(m: ChunkMap, opaque: Seq<bool>, u: CrossChunkLightUpdate) -> bool {
    let v = m.voxel_at(
        u.target_chunk,
        u.target_pos.x as int,
        u.target_pos.y as int,
        u.target_pos.z as int,
    );
    (m.keys().contains(u.target_chunk) && !opaque_id(opaque, v.id)) ==> level_of(v, u.light_type)
        >= u.level
}

/// The deficit of one channel as a measure on voxel arrays.
pub open spec fn deficit_of(t: LightType) -> spec_fn(Seq<Voxel>) -> int {
    |c: Seq<Voxel>| deficit(c, t)
}

pub open spec fn other_channel(t: LightType) -> LightType {
    match t {
        LightType::Skylight => LightType::BlockLight,
        LightType::BlockLight => LightType::Skylight,
    }
}

proof fn lemma_deficit_same_other(a: Seq<Voxel>, b: Seq<Voxel>, t: LightType)
    requires
        a.len() == b.len(),
        forall|i: int| 0 <= i < a.len() ==> same_but_light(a[i], #[trigger] b[i], t),
    ensures
        deficit(a, other_channel(t)) == deficit(b, other_channel(t)),
    decreases a.len(),
{
    if a.len() > 0 {
        assert forall|i: int| 0 <= i < a.drop_last().len() implies same_but_light(a.drop_last()[i], #[trigger] b.drop_last()[i], t) by {
            assert(same_but_light(a[i], b[i], t));
        }
        lemma_deficit_same_other(a.drop_last(), b.drop_last(), t);
        assert(same_but_light(a[a.len() - 1], b[b.len() - 1], t));
    }
}

proof fn lemma_deficit_fns_nonneg()
    ensures
        forall|c: Seq<Voxel>| #[trigger] deficit_of(LightType::Skylight)(c) >= 0,
        forall|c: Seq<Voxel>| #[trigger] deficit_of(LightType::BlockLight)(c) >= 0,
{
    assert forall|c: Seq<Voxel>| #[trigger] deficit_of(LightType::Skylight)(c) >= 0 by {
        lemma_deficit_nonneg(c, LightType::Skylight);
    }
    assert forall|c: Seq<Voxel>| #[trigger] deficit_of(LightType::BlockLight)(c) >= 0 by {
        lemma_deficit_nonneg(c, LightType::BlockLight);
    }
}

/// Total missing light of both channels over all loaded chunks.
pub open spec fn map_deficit(m: ChunkMap) -> int {
    m.total(deficit_of(LightType::Skylight)) + m.total(deficit_of(LightType::BlockLight))
}

proof fn lemma_map_same_cells(
    m0: ChunkMap,
    m_b: ChunkMap,
    m: ChunkMap,
    opq: Seq<bool>,
    us: Seq<CrossChunkLightUpdate>,
    popped_b: int,
)
    requires
        m.keys() == m_b.keys(),
        forall|q: ChunkPos|
            m_b.keys().contains(q) ==> #[trigger] m.cells_at(q) == m_b.cells_at(q) && m.chunk_pos_at(q)
                == m_b.chunk_pos_at(q),
        map_brightened(m0, m_b),
        forall|k: int| 0 <= k < popped_b && k < us.len() ==> #[trigger] update_reached(m_b, opq, us[k]),
    ensures
        map_brightened(m0, m),
        forall|k: int| 0 <= k < popped_b && k < us.len() ==> #[trigger] update_reached(m, opq, us[k]),
        forall|q: ChunkPos| m_b.keys().contains(q) ==> #[trigger] m.cells_at(q) == m_b.cells_at(q),
{
    assert forall|q: ChunkPos, i: int|
        m0.keys().contains(q) && 0 <= i < CHUNK_VOLUME implies brightened(
            m0.cells_at(q)[i],
            #[trigger] m.cells_at(q)[i],
        ) by {
        assert(m.cells_at(q) == m_b.cells_at(q));
        assert(brightened(m0.cells_at(q)[i], m_b.cells_at(q)[i]));
    }
    assert forall|q: ChunkPos| m0.keys().contains(q) implies #[trigger] m.chunk_pos_at(q) == m0.chunk_pos_at(q) by {
        assert(m.cells_at(q) == m_b.cells_at(q));
        assert(m_b.chunk_pos_at(q) == m0.chunk_pos_at(q));
    }
    assert forall|k: int| 0 <= k < popped_b && k < us.len() implies #[trigger] update_reached(m, opq, us[k]) by {
        assert(update_reached(m_b, opq, us[k]));
        if m.keys().contains(us[k].target_chunk) {
            assert(m.cells_at(us[k].target_chunk) == m_b.cells_at(us[k].target_chunk));
        }
    }
}

proof fn lemma_pending_pop(
    us: Seq<CrossChunkLightUpdate>,
    popped: int,
    p_b: Seq<CrossChunkLightUpdate>,
    p: Seq<CrossChunkLightUpdate>,
)
    requires
        popped >= 1,
        p_b.len() > 0,
        p == p_b.drop_first(),
        popped - 1 <= us.len() ==> p_b.len() >= us.len() - (popped - 1) && forall|j: int|
            0 <= j < us.len() - (popped - 1) ==> #[trigger] p_b[j] == us[(popped - 1) + j],
    ensures
        popped <= us.len() ==> p.len() >= us.len() - popped && forall|j: int|
            0 <= j < us.len() - popped ==> #[trigger] p[j] == us[popped + j],
{
    if popped <= us.len() {
        assert forall|j: int| 0 <= j < us.len() - popped implies #[trigger] p[j] == us[popped + j] by {
            assert(p[j] == p_b[j + 1]);
            assert(p_b[j + 1] == us[(popped - 1) + (j + 1)]);
        }
    }
}

proof fn lemma_pending_pop_grow(
    us: Seq<CrossChunkLightUpdate>,
    popped: int,
    p_b: Seq<CrossChunkLightUpdate>,
    p: Seq<CrossChunkLightUpdate>,
)
    requires
        popped >= 1,
        p_b.len() > 0,
        p.len() >= p_b.len() - 1,
        forall|k: int| 0 <= k < p_b.len() - 1 ==> #[trigger] p[k] == p_b[k + 1],
        popped - 1 <= us.len() ==> p_b.len() >= us.len() - (popped - 1) && forall|j: int|
            0 <= j < us.len() - (popped - 1) ==> #[trigger] p_b[j] == us[(popped - 1) + j],
    ensures
        popped <= us.len() ==> p.len() >= us.len() - popped && forall|j: int|
            0 <= j < us.len() - popped ==> #[trigger] p[j] == us[popped + j],
{
    if popped <= us.len() {
        assert forall|j: int| 0 <= j < us.len() - popped implies #[trigger] p[j] == us[popped + j] by {
            assert(p[j] == p_b[j + 1]);
            assert(p_b[j + 1] == us[(popped - 1) + (j + 1)]);
        }
    }
}

/// Apply cross-chunk updates, using `opaque` (indexed by block id) for opacity: an update
/// whose target chunk is loaded, whose target block lets light through and which is brighter
/// than the target raises it and floods that chunk from there; light leaving that chunk is
/// applied in turn. Afterwards the same blocks are loaded and no light got darker, and every
/// given update has arrived. Returns how many targets the updates raised directly; zero only
/// when nothing changed.
pub fn apply_cross_chunk_updates_with_opacity(
    chunks: &mut ChunkMap,
    opaque: &Vec<bool>,
    updates: Vec<CrossChunkLightUpdate>,
) -> (res: usize)
    requires
        old(chunks).wf(),
        opaque@.len() == BLOCK_ID_COUNT,
        forall|k: int| 0 <= k < updates@.len() ==> local_in_chunk((#[trigger] updates@[k]).target_pos),
        forall|q: ChunkPos| old(chunks).keys().contains(q) ==> #[trigger] pos_has_neighbors(q),
    ensures
        final(chunks).wf(),
        map_brightened(*old(chunks), *final(chunks)),
        forall|k: int|
            0 <= k < updates@.len() ==> #[trigger] update_reached(*final(chunks), opaque@, updates@[k]),
        res == 0 ==> forall|q: ChunkPos|
            old(chunks).keys().contains(q) ==> #[trigger] final(chunks).cells_at(q) == old(
                chunks,
            ).cells_at(q),
{
    let ghost m0 = *chunks;
    let ghost us = updates@;
    let ghost opq = opaque@;
    let mut pending: VecDeque<CrossChunkLightUpdate> = VecDeque::new();
    let mut i: usize = 0;
    while i < updates.len()
        invariant
            i <= updates@.len(),
            us == updates@,
            pending@ == us.take(i as int),
        decreases updates@.len() - i,
    {
        pending.push_back(updates[i]);
        proof {
            assert(pending@ =~= us.take(i as int + 1));
        }
        i = i + 1;
    }
    proof {
        assert(pending@ =~= us);
        lemma_deficit_fns_nonneg();
        chunks.lemma_total_nonneg(deficit_of(LightType::Skylight));
        chunks.lemma_total_nonneg(deficit_of(LightType::BlockLight));
    }
    let mut total_updated: usize = 0;
    let ghost mut popped: int = 0;
    while pending.len() > 0
        invariant
            chunks.wf(),
            opq == opaque@,
            opaque@.len() == BLOCK_ID_COUNT,
            us == updates@,
            forall|k: int| 0 <= k < us.len() ==> local_in_chunk((#[trigger] us[k]).target_pos),
            forall|q: ChunkPos| m0.keys().contains(q) ==> #[trigger] pos_has_neighbors(q),
            map_brightened(m0, *chunks),
            forall|j: int| 0 <= j < pending@.len() ==> local_in_chunk((#[trigger] pending@[j]).target_pos),
            0 <= popped,
            popped <= us.len() ==> pending@.len() >= us.len() - popped && forall|j: int|
                0 <= j < us.len() - popped ==> #[trigger] pending@[j] == us[popped + j],
            forall|k: int| 0 <= k < popped && k < us.len() ==> #[trigger] update_reached(*chunks, opq, us[k]),
            total_updated == 0 ==> forall|q: ChunkPos|
                m0.keys().contains(q) ==> #[trigger] chunks.cells_at(q) == m0.cells_at(q),
            map_deficit(*chunks) >= 0,
        decreases 7 * map_deficit(*chunks) + pending@.len(),
    {
        let ghost m_b = *chunks;
        let ghost p_b = pending@;
        let ghost popped_b = popped;
        let update = pending.pop_front().unwrap();
        proof {
            assert(p_b[0] == update);
            popped = popped + 1;
        }
        let target = update.target_chunk;
        let tp = update.target_pos;
        let taken = chunks.take_chunk(&target);
        match taken {
            None => {
                proof {
                    assert(!m_b.keys().contains(target));
                    assert(chunks.keys() =~= m_b.keys());
                    lemma_map_same_cells(m0, m_b, *chunks, opq, us, popped_b);
                    assert(map_deficit(*chunks) == map_deficit(m_b));
                    lemma_pending_pop(us, popped, p_b, pending@);
                }
            },
            Some(mut chunk) => {
                let ghost c_b = chunk.cells();
                let voxel = chunk.voxel(tp.x, tp.y, tp.z);
                let current = LightType::voxel_level(&voxel, update.light_type);
                if opaque[voxel.id as usize] || update.level <= current {
                    chunks.insert(target, chunk);
                    proof {
                        assert(chunks.keys() =~= m_b.keys());
                        assert forall|q: ChunkPos| m_b.keys().contains(q) implies #[trigger] chunks.cells_at(q) == m_b.cells_at(q)
                            && chunks.chunk_pos_at(q) == m_b.chunk_pos_at(q) by {
                        }
                        lemma_map_same_cells(m0, m_b, *chunks, opq, us, popped_b);
                        assert(map_deficit(*chunks) == map_deficit(m_b));
                        lemma_pending_pop(us, popped, p_b, pending@);
                        if popped_b < us.len() {
                            assert(us[popped_b] == update) by {
                                assert(p_b[0] == us[popped_b + 0]);
                            }
                            assert(update_reached(*chunks, opq, update));
                        }
                    }
                } else {
                    let mut raised = voxel;
                    LightType::set_voxel_level(&mut raised, update.light_type, update.level);
                    chunk.set_voxel(tp.x, tp.y, tp.z, raised);
                    let ghost c_s = chunk.cells();
                    if total_updated < usize::MAX {
                        total_updated = total_updated + 1;
                    }
                    let mut queue = LightQueue::new_for_chunk(target);
                    queue.enqueue(tp, update.level);
                    queue.propagate_with_opacity(&mut chunk, opaque, update.light_type);
                    let new_updates = queue.take_cross_chunk_updates();
                    let ghost c_a = chunk.cells();
                    chunks.insert(target, chunk);
                    let ghost m_a = *chunks;
                    proof {
                        let t = update.light_type;
                        let ti = voxel_index(tp.x as int, tp.y as int, tp.z as int);
                        assert(c_s == c_b.update(ti, raised));
                        assert(lit_from(c_s, c_a, seq![(tp, update.level)], opq, t));
                        assert(m_a.keys() =~= m_b.keys());
                        // the raised chunk only brightened
                        assert forall|i: int| 0 <= i < CHUNK_VOLUME implies brightened(c_b[i], #[trigger] c_a[i]) by {
                            assert(same_but_light(c_s[i], c_a[i], t));
                            if i == ti {
                                assert(c_s[i] == raised);
                            } else {
                                assert(c_s[i] == c_b[i]);
                            }
                        }
                        assert forall|q: ChunkPos, i: int|
                            m0.keys().contains(q) && 0 <= i < CHUNK_VOLUME implies brightened(
                                m0.cells_at(q)[i],
                                #[trigger] m_a.cells_at(q)[i],
                            ) by {
                            assert(brightened(m0.cells_at(q)[i], m_b.cells_at(q)[i]));
                            if q == target {
                                assert(m_a.cells_at(q) == c_a);
                                assert(brightened(c_b[i], c_a[i]));
                            } else {
                                assert(m_a.cells_at(q) == m_b.cells_at(q));
                            }
                        }
                        assert forall|q: ChunkPos| m0.keys().contains(q) implies #[trigger] m_a.chunk_pos_at(q) == m0.chunk_pos_at(q) by {
                            assert(m_b.chunk_pos_at(q) == m0.chunk_pos_at(q));
                        }
                        // reached updates stay reached
                        assert forall|k: int| 0 <= k < popped && k < us.len() implies #[trigger] update_reached(m_a, opq, us[k]) by {
                            let u = us[k];
                            let ui = voxel_index(u.target_pos.x as int, u.target_pos.y as int, u.target_pos.z as int);
                            if m_a.keys().contains(u.target_chunk) {
                                assert(local_in_chunk(u.target_pos));
                                if k == popped_b {
                                    assert(p_b[0] == us[popped_b + 0]);
                                    assert(light_at(c_a, t, tp.x as int, tp.y as int, tp.z as int) >= update.level) by {
                                        assert(seq![(tp, update.level)][0] == (tp, update.level));
                                    }
                                    assert(m_a.cells_at(target) == c_a);
                                } else {
                                    assert(update_reached(m_b, opq, u));
                                    assert(brightened(m_b.cells_at(u.target_chunk)[ui], m_a.cells_at(u.target_chunk)[ui])) by {
                                        if u.target_chunk == target {
                                            assert(m_a.cells_at(target) == c_a);
                                            assert(m_b.cells_at(target) == c_b);
                                            assert(brightened(c_b[ui], c_a[ui]));
                                        } else {
                                            assert(m_a.cells_at(u.target_chunk) == m_b.cells_at(u.target_chunk));
                                        }
                                    }
                                }
                            }
                        }
                        // potential
                        lemma_deficit_update(c_b, t, ti, raised);
                        assert forall|i: int| 0 <= i < c_b.len() implies same_but_light(c_b[i], #[trigger] c_s[i], t) by {
                            if i != ti {
                                assert(c_s[i] == c_b[i]);
                            }
                        }
                        lemma_deficit_same_other(c_b, c_s, t);
                        assert forall|i: int| 0 <= i < c_s.len() implies same_but_light(c_s[i], #[trigger] c_a[i], t) by {
                        }
                        lemma_deficit_same_other(c_s, c_a, t);
                        lemma_deficit_fns_nonneg();
                        chunks.lemma_total_nonneg(deficit_of(LightType::Skylight));
                        chunks.lemma_total_nonneg(deficit_of(LightType::BlockLight));
                        assert(m_a.total(deficit_of(t)) == m_b.total(deficit_of(t)) - deficit(c_b, t) + deficit(c_a, t));
                        assert(m_a.total(deficit_of(other_channel(t))) == m_b.total(deficit_of(other_channel(t)))
                            - deficit(c_b, other_channel(t)) + deficit(c_a, other_channel(t)));
                        assert(new_updates@.len() <= 6 * (deficit(c_s, t) - deficit(c_a, t)));
                        assert(deficit(c_s, t) == deficit(c_b, t) + current - update.level);
                        assert(7 * map_deficit(m_a) + new_updates@.len() < 7 * map_deficit(m_b)) by {
                            if t == LightType::Skylight {
                            } else {
                            }
                        }
                    }
                    let mut j: usize = 0;
                    while j < new_updates.len()
                        invariant
                            j <= new_updates@.len(),
                            forall|k: int| 0 <= k < new_updates@.len() ==> local_in_chunk((#[trigger] new_updates@[k]).target_pos),
                            forall|k: int| 0 <= k < pending@.len() ==> local_in_chunk((#[trigger] pending@[k]).target_pos),
                            pending@.len() == p_b.len() - 1 + j,
                            forall|k: int| 0 <= k < p_b.len() - 1 ==> #[trigger] pending@[k] == p_b[k + 1],
                        decreases new_updates@.len() - j,
                    {
                        pending.push_back(new_updates[j]);
                        j = j + 1;
                    }
                    proof {
                        lemma_pending_pop_grow(us, popped, p_b, pending@);
                    }
                }
            },
        }
    }
    total_updated
}

/// Apply cross-chunk updates with the registry's opacity (see
/// `apply_cross_chunk_updates_with_opacity`).
pub fn apply_cross_chunk_updates<R: BlockOpacityProvider>(
    chunks: &mut ChunkMap,
    registry: &R,
    updates: Vec<CrossChunkLightUpdate>,
) -> (res: usize)
    requires
        old(chunks).wf(),
        forall|k: int| 0 <= k < updates@.len() ==> local_in_chunk((#[trigger] updates@[k]).target_pos),
        forall|q: ChunkPos| old(chunks).keys().contains(q) ==> #[trigger] pos_has_neighbors(q),
    ensures
        final(chunks).wf(),
        map_brightened(*old(chunks), *final(chunks)),
        forall|k: int|
            0 <= k < updates@.len() ==> #[trigger] update_reached(*final(chunks), registry_opacity(registry), updates@[k]),
        res == 0 ==> forall|q: ChunkPos|
            old(chunks).keys().contains(q) ==> #[trigger] final(chunks).cells_at(q) == old(
                chunks,
            ).cells_at(q),
{
    let table = opacity_table(registry);
    let ghost us = updates@;
    let res = apply_cross_chunk_updates_with_opacity(chunks, &table, updates);
    proof {
        assert(forall|k: int| 0 <= k < us.len() ==> #[trigger] update_reached(*chunks, table@, us[k]));
    }
    res
}

/// The neighbor of a block position in direction `d`, possibly in an adjacent chunk;
/// `None` above the top or below the bottom.
pub open spec fn spec_neighbor_block(pos: BlockPos, d: int) -> Option<(ChunkPos, LocalPos)> {
    let lx = pos.local.x + dir_dx(d);
    let ly = pos.local.y + dir_dy(d);
    let lz = pos.local.z + dir_dz(d);
    if ly < 0 || ly >= 256 {
        None
    } else {
        Some(
            (
                ChunkPos {
                    x: (if lx < 0 {
                        pos.chunk.x - 1
                    } else if lx >= 16 {
                        pos.chunk.x + 1
                    } else {
                        pos.chunk.x as int
                    }) as i32,
                    z: (if lz < 0 {
                        pos.chunk.z - 1
                    } else if lz >= 16 {
                        pos.chunk.z + 1
                    } else {
                        pos.chunk.z as int
                    }) as i32,
                },
                local(
                    if lx < 0 {
                        lx + 16
                    } else if lx >= 16 {
                        lx - 16
                    } else {
                        lx
                    },
                    ly,
                    if lz < 0 {
                        lz + 16
                    } else if lz >= 16 {
                        lz - 16
                    } else {
                        lz
                    },
                ),
            ),
        )
    }
}

fn neighbor_block(pos: BlockPos, d: usize) -> (res: Option<(ChunkPos, LocalPos)>)
    requires
        d < 6,
        local_in_chunk(pos.local),
        pos_has_neighbors(pos.chunk),
    ensures
        res == spec_neighbor_block(pos, d as int),
        res.is_some() ==> local_in_chunk(res.unwrap().1),
{
    let (dx, dy, dz) = dir_offset(d);
    let mut cx = pos.chunk.x;
    let mut cz = pos.chunk.z;
    let mut lx = pos.local.x as i32 + dx;
    let ly = pos.local.y as i32 + dy;
    let mut lz = pos.local.z as i32 + dz;
    if ly < 0 || ly >= CHUNK_SIZE_Y as i32 {
        return None;
    }
    if lx < 0 {
        cx = cx - 1;
        lx = lx + CHUNK_SIZE_X as i32;
    } else if lx >= CHUNK_SIZE_X as i32 {
        cx = cx + 1;
        lx = lx - CHUNK_SIZE_X as i32;
    }
    if lz < 0 {
        cz = cz - 1;
        lz = lz + CHUNK_SIZE_Z as i32;
    } else if lz >= CHUNK_SIZE_Z as i32 {
        cz = cz + 1;
        lz = lz - CHUNK_SIZE_Z as i32;
    }
    let local_pos = LocalPos { x: lx as usize, y: ly as usize, z: lz as usize };
    Some((ChunkPos::new(cx, cz), local_pos))
}

/// A seam seed: an air cell on a side face of a chunk with light in channel `t`.
pub open spec fn seam_seed(cells: Seq<Voxel>, t: LightType, x: int, y: int, z: int) -> bool {
    &&& in_chunk(x, y, z)
    &&& (x == 0 || x == 15 || z == 0 || z == 15)
    &&& cells[voxel_index(x, y, z)].id == BLOCK_AIR
    &&& level_of(cells[voxel_index(x, y, z)], t) > 0
}

/// The neighbor of `pos` in direction `d`, if loaded and see-through, holds at least the
/// decayed light `l`.
pub open spec fn neighbor_reached(m: ChunkMap, opaque: Seq<bool>, t: LightType, pos: BlockPos, l: int, d: int) -> bool {
    match spec_neighbor_block(pos, d) {
        Some((nc, nl)) => {
            let v = m.voxel_at(nc, nl.x as int, nl.y as int, nl.z as int);
            (m.keys().contains(nc) && !opaque_id(opaque, v.id)) ==> level_of(v, t) >= decayed(l, t, d)
        },
        None => true,
    }
}

/// Every neighbor of `pos` has been reached from light `l`.
pub open spec fn all_neighbors_reached(m: ChunkMap, opaque: Seq<bool>, t: LightType, pos: BlockPos, l: int) -> bool {
    forall|d: int| 0 <= d < 6 ==> #[trigger] neighbor_reached(m, opaque, t, pos, l, d)
}

/// Only the light of channel `t` changed, and only upward; the same chunks are loaded.
pub open spec fn map_lightened(before: ChunkMap, after: ChunkMap, t: LightType) -> bool {
    &&& after.keys() == before.keys()
    &&& forall|q: ChunkPos|
        before.keys().contains(q) ==> #[trigger] after.chunk_pos_at(q) == before.chunk_pos_at(q)
    &&& forall|q: ChunkPos, i: int|
        before.keys().contains(q) && 0 <= i < CHUNK_VOLUME ==> same_but_light(
            before.cells_at(q)[i],
            #[trigger] after.cells_at(q)[i],
            t,
        ) && level_of(after.cells_at(q)[i], t) >= level_of(before.cells_at(q)[i], t)
}

/// `(pos, l)` occurs in `q` below index `hi`.
pub open spec fn entry_in(q: Seq<(BlockPos, u8)>, hi: int, pos: BlockPos, l: u8) -> bool {
    exists|k: int| 0 <= k < hi && q[k] == (pos, l)
}

/// Queue a seam seed if the voxel is air with light.
fn enqueue_seed(
    queue: &mut VecDeque<(BlockPos, u8)>,
    chunk: ChunkPos,
    x: usize,
    y: usize,
    z: usize,
    voxel: Voxel,
    light_type: LightType,
)
    ensures
        (voxel.id == BLOCK_AIR && level_of(voxel, light_type) > 0) ==> final(queue)@ == old(queue)@.push(
            (BlockPos { chunk, local: LocalPos { x, y, z } }, level_of(voxel, light_type)),
        ),
        !(voxel.id == BLOCK_AIR && level_of(voxel, light_type) > 0) ==> final(queue)@ == old(queue)@,
{
    if voxel.id != BLOCK_AIR {
        return;
    }
    let level = LightType::voxel_level(&voxel, light_type);
    if level > 0 {
        queue.push_back((BlockPos::new(chunk, LocalPos { x, y, z }), level));
    }
}

proof fn lemma_neighbor_in_chunk(pos: BlockPos, d: int)
    requires
        0 <= d < 6,
        local_in_chunk(pos.local),
    ensures
        spec_neighbor_block(pos, d).is_some() ==> local_in_chunk(spec_neighbor_block(pos, d).unwrap().1),
{
}

proof fn lemma_lightened_trans(m0: ChunkMap, m1: ChunkMap, m2: ChunkMap, t: LightType)
    requires
        map_lightened(m0, m1, t),
        map_lightened(m1, m2, t),
    ensures
        map_lightened(m0, m2, t),
{
    assert forall|q: ChunkPos| m0.keys().contains(q) implies #[trigger] m2.chunk_pos_at(q) == m0.chunk_pos_at(q) by {
        assert(m1.chunk_pos_at(q) == m0.chunk_pos_at(q));
        assert(m1.keys().contains(q));
        assert(m2.chunk_pos_at(q) == m1.chunk_pos_at(q));
    }
    assert forall|q: ChunkPos, i: int|
        m0.keys().contains(q) && 0 <= i < CHUNK_VOLUME implies same_but_light(
            m0.cells_at(q)[i],
            #[trigger] m2.cells_at(q)[i],
            t,
        ) && level_of(m2.cells_at(q)[i], t) >= level_of(m0.cells_at(q)[i], t) by {
        assert(same_but_light(m0.cells_at(q)[i], m1.cells_at(q)[i], t));
        assert(m1.keys().contains(q));
        assert(same_but_light(m1.cells_at(q)[i], m2.cells_at(q)[i], t));
    }
}

proof fn lemma_reached_mono(m1: ChunkMap, m2: ChunkMap, opq: Seq<bool>, t: LightType, pos: BlockPos, l: int)
    requires
        map_lightened(m1, m2, t),
        local_in_chunk(pos.local),
        all_neighbors_reached(m1, opq, t, pos, l),
    ensures
        all_neighbors_reached(m2, opq, t, pos, l),
{
    assert forall|d: int| 0 <= d < 6 implies #[trigger] neighbor_reached(m2, opq, t, pos, l, d) by {
        assert(neighbor_reached(m1, opq, t, pos, l, d));
        lemma_neighbor_in_chunk(pos, d);
        match spec_neighbor_block(pos, d) {
            Some((nc, nl)) => {
                if m1.keys().contains(nc) {
                    let i = voxel_index(nl.x as int, nl.y as int, nl.z as int);
                    assert(same_but_light(m1.cells_at(nc)[i], m2.cells_at(nc)[i], t));
                }
            },
            None => {},
        }
    }
}

proof fn lemma_set_lightens(m1: ChunkMap, m2: ChunkMap, t: LightType, c: ChunkPos, i: int, v: Voxel)
    requires
        m1.keys().contains(c),
        m2.keys() == m1.keys(),
        0 <= i < CHUNK_VOLUME,
        m1.cells_at(c).len() == CHUNK_VOLUME,
        same_but_light(m1.cells_at(c)[i], v, t),
        level_of(v, t) >= level_of(m1.cells_at(c)[i], t),
        m2.cells_at(c) == m1.cells_at(c).update(i, v),
        forall|q: ChunkPos| m1.keys().contains(q) ==> #[trigger] m2.chunk_pos_at(q) == m1.chunk_pos_at(q),
        forall|q: ChunkPos| q != c && m1.keys().contains(q) ==> #[trigger] m2.cells_at(q) == m1.cells_at(q),
    ensures
        map_lightened(m1, m2, t),
{
    assert forall|q: ChunkPos, k: int|
        m1.keys().contains(q) && 0 <= k < CHUNK_VOLUME implies same_but_light(
            m1.cells_at(q)[k],
            #[trigger] m2.cells_at(q)[k],
            t,
        ) && level_of(m2.cells_at(q)[k], t) >= level_of(m1.cells_at(q)[k], t) by {
        if q != c {
            assert(m2.cells_at(q) == m1.cells_at(q));
        }
    }
}

/// Carry light across the side faces of the chunk at `chunk_pos`, with opacity by block id
/// from `opaque`: every air cell on a side face that has light in channel `t` passes the
/// decayed light to its see-through neighbors, in loaded chunks, and each raised cell passes
/// its own light on. Afterwards only channel `t` changed, only upward, and every such seam
/// cell's loaded, see-through neighbors hold at least its decayed light. Returns the number
/// of queue entries processed.
pub fn stitch_light_seams_with_opacity(
    chunks: &mut ChunkMap,
    opaque: &Vec<bool>,
    chunk_pos: ChunkPos,
    light_type: LightType,
) -> (processed: usize)
    requires
        old(chunks).wf(),
        opaque@.len() == BLOCK_ID_COUNT,
        forall|q: ChunkPos| old(chunks).keys().contains(q) ==> #[trigger] pos_has_neighbors(q),
    ensures
        final(chunks).wf(),
        map_lightened(*old(chunks), *final(chunks), light_type),
        old(chunks).keys().contains(chunk_pos) ==> forall|x: int, y: int, z: int|
            #[trigger] seam_seed(old(chunks).cells_at(chunk_pos), light_type, x, y, z) ==> all_neighbors_reached(
                *final(chunks),
                opaque@,
                light_type,
                BlockPos { chunk: chunk_pos, local: local(x, y, z) },
                level_of(old(chunks).cells_at(chunk_pos)[voxel_index(x, y, z)], light_type) as int,
            ),
{
    let ghost m0 = *chunks;
    let ghost opq = opaque@;
    let ghost t = light_type;
    let mut queue: VecDeque<(BlockPos, u8)> = VecDeque::new();
    match chunks.get(&chunk_pos) {
        Some(chunk) => {
            let ghost cells = chunk.cells();
            let mut y: usize = 0;
            while y < CHUNK_SIZE_Y
                invariant
                    y <= CHUNK_SIZE_Y,
                    chunk.wf(),
                    t == light_type,
                    cells == chunk.cells(),
                    forall|j: int|
                        0 <= j < queue@.len() ==> (#[trigger] queue@[j]).0.chunk == chunk_pos && local_in_chunk(
                            queue@[j].0.local,
                        ),
                    forall|x: int, yy: int, z: int|
                        #[trigger] seam_seed(cells, t, x, yy, z) && yy < y ==> entry_in(
                            queue@,
                            queue@.len() as int,
                            BlockPos { chunk: chunk_pos, local: local(x, yy, z) },
                            level_of(cells[voxel_index(x, yy, z)], t),
                        ),
                decreases CHUNK_SIZE_Y - y,
            {
                let mut x: usize = 0;
                while x < CHUNK_SIZE_X
                    invariant
                        y < CHUNK_SIZE_Y,
                        x <= CHUNK_SIZE_X,
                        chunk.wf(),
                        t == light_type,
                        cells == chunk.cells(),
                        forall|j: int|
                            0 <= j < queue@.len() ==> (#[trigger] queue@[j]).0.chunk == chunk_pos && local_in_chunk(
                                queue@[j].0.local,
                            ),
                        forall|xx: int, yy: int, z: int|
                            #[trigger] seam_seed(cells, t, xx, yy, z) && (yy < y || (yy == y && xx < x && (z
                                == 0 || z == 15))) ==> entry_in(
                                queue@,
                                queue@.len() as int,
                                BlockPos { chunk: chunk_pos, local: local(xx, yy, z) },
                                level_of(cells[voxel_index(xx, yy, z)], t),
                            ),
                    decreases CHUNK_SIZE_X - x,
                {
                    let north = chunk.voxel(x, y, 0);
                    let south = chunk.voxel(x, y, CHUNK_SIZE_Z - 1);
                    let ghost q_b = queue@;
                    enqueue_seed(&mut queue, chunk_pos, x, y, 0, north, light_type);
                    let ghost q_m = queue@;
                    enqueue_seed(&mut queue, chunk_pos, x, y, CHUNK_SIZE_Z - 1, south, light_type);
                    proof {
                        lemma_seed_loop_step(cells, t, chunk_pos, q_b, q_m, queue@, x as int, y as int, 0, north);
                        lemma_seed_loop_step(cells, t, chunk_pos, q_m, queue@, queue@, x as int, y as int, 15, south);
                        assert forall|xx: int, yy: int, z: int|
                            #[trigger] seam_seed(cells, t, xx, yy, z) && (yy < y || (yy == y && xx < x + 1 && (z
                                == 0 || z == 15))) implies entry_in(
                                queue@,
                                queue@.len() as int,
                                BlockPos { chunk: chunk_pos, local: local(xx, yy, z) },
                                level_of(cells[voxel_index(xx, yy, z)], t),
                            ) by {
                            let bp = BlockPos { chunk: chunk_pos, local: local(xx, yy, z) };
                            let l = level_of(cells[voxel_index(xx, yy, z)], t);
                            if yy < y || xx < x {
                                lemma_entry_in_grow(q_b, queue@, bp, l);
                            }
                        }
                    }
                    x = x + 1;
                }
                let mut z: usize = 0;
                while z < CHUNK_SIZE_Z
                    invariant
                        y < CHUNK_SIZE_Y,
                        z <= CHUNK_SIZE_Z,
                        chunk.wf(),
                        t == light_type,
                        cells == chunk.cells(),
                        forall|j: int|
                            0 <= j < queue@.len() ==> (#[trigger] queue@[j]).0.chunk == chunk_pos && local_in_chunk(
                                queue@[j].0.local,
                            ),
                        forall|xx: int, yy: int, zz: int|
                            #[trigger] seam_seed(cells, t, xx, yy, zz) && (yy < y || (yy == y && (zz == 0 || zz == 15))
                                || (yy == y && zz < z && (xx == 0 || xx == 15))) ==> entry_in(
                                queue@,
                                queue@.len() as int,
                                BlockPos { chunk: chunk_pos, local: local(xx, yy, zz) },
                                level_of(cells[voxel_index(xx, yy, zz)], t),
                            ),
                    decreases CHUNK_SIZE_Z - z,
                {
                    let west = chunk.voxel(0, y, z);
                    let east = chunk.voxel(CHUNK_SIZE_X - 1, y, z);
                    let ghost q_b = queue@;
                    enqueue_seed(&mut queue, chunk_pos, 0, y, z, west, light_type);
                    let ghost q_m = queue@;
                    enqueue_seed(&mut queue, chunk_pos, CHUNK_SIZE_X - 1, y, z, east, light_type);
                    proof {
                        lemma_seed_loop_step(cells, t, chunk_pos, q_b, q_m, queue@, 0, y as int, z as int, west);
                        lemma_seed_loop_step(cells, t, chunk_pos, q_m, queue@, queue@, 15, y as int, z as int, east);
                        assert forall|xx: int, yy: int, zz: int|
                            #[trigger] seam_seed(cells, t, xx, yy, zz) && (yy < y || (yy == y && (zz == 0 || zz == 15))
                                || (yy == y && zz < z + 1 && (xx == 0 || xx == 15))) implies entry_in(
                                queue@,
                                queue@.len() as int,
                                BlockPos { chunk: chunk_pos, local: local(xx, yy, zz) },
                                level_of(cells[voxel_index(xx, yy, zz)], t),
                            ) by {
                            let bp = BlockPos { chunk: chunk_pos, local: local(xx, yy, zz) };
                            let l = level_of(cells[voxel_index(xx, yy, zz)], t);
                            if !(yy == y && zz == z && (xx == 0 || xx == 15) && !(zz == 0 || zz == 15)) {
                                lemma_entry_in_grow(q_b, queue@, bp, l);
                            }
                        }
                    }
                    z = z + 1;
                }
                y = y + 1;
            }
        },
        None => {},
    }
    let ghost q0 = queue@;
    let mut processed: usize = 0;
    let ghost mut popped: int = 0;
    proof {
        lemma_deficit_fns_nonneg();
        chunks.lemma_total_nonneg(deficit_of(t));
    }
    while queue.len() > 0
        invariant
            chunks.wf(),
            opq == opaque@,
            t == light_type,
            opaque@.len() == BLOCK_ID_COUNT,
            forall|q: ChunkPos| m0.keys().contains(q) ==> #[trigger] pos_has_neighbors(q),
            map_lightened(m0, *chunks, t),
            forall|j: int|
                0 <= j < queue@.len() ==> m0.keys().contains((#[trigger] queue@[j]).0.chunk) && local_in_chunk(
                    queue@[j].0.local,
                ),
            forall|j: int| 0 <= j < q0.len() ==> local_in_chunk((#[trigger] q0[j]).0.local),
            0 <= popped,
            popped <= q0.len() ==> queue@.len() >= q0.len() - popped && forall|j: int|
                0 <= j < q0.len() - popped ==> #[trigger] queue@[j] == q0[popped + j],
            forall|k: int|
                0 <= k < popped && k < q0.len() ==> #[trigger] all_neighbors_reached(
                    *chunks,
                    opq,
                    t,
                    q0[k].0,
                    q0[k].1 as int,
                ),
            chunks.total(deficit_of(t)) >= 0,
        decreases 7 * chunks.total(deficit_of(light_type)) + queue@.len(),
    {
        let ghost m_b = *chunks;
        let ghost q_b = queue@;
        let ghost popped_b = popped;
        let (pos, level) = queue.pop_front().unwrap();
        proof {
            assert(q_b[0] == (pos, level));
            popped = popped + 1;
        }
        if processed < usize::MAX {
            processed = processed + 1;
        }
        let mut d: usize = 0;
        while d < 6
            invariant
                d <= 6,
                chunks.wf(),
                opq == opaque@,
                t == light_type,
                opaque@.len() == BLOCK_ID_COUNT,
                m0.keys().contains(pos.chunk),
                local_in_chunk(pos.local),
                forall|q: ChunkPos| m0.keys().contains(q) ==> #[trigger] pos_has_neighbors(q),
                map_lightened(m_b, *chunks, t),
                map_lightened(m0, m_b, t),
                q_b.len() > 0,
                queue@.len() >= q_b.len() - 1,
                forall|j: int| 0 <= j < q_b.len() - 1 ==> #[trigger] queue@[j] == q_b[j + 1],
                forall|j: int|
                    0 <= j < queue@.len() ==> m0.keys().contains((#[trigger] queue@[j]).0.chunk) && local_in_chunk(
                        queue@[j].0.local,
                    ),
                forall|e: int| 0 <= e < d ==> #[trigger] neighbor_reached(*chunks, opq, t, pos, level as int, e),
                7 * chunks.total(deficit_of(t)) + queue@.len() <= 7 * m_b.total(deficit_of(t)) + q_b.len() - 1,
                chunks.total(deficit_of(t)) >= 0,
            decreases 6 - d,
        {
            let ghost m_d = *chunks;
            match neighbor_block(pos, d) {
                None => {
                    proof {
                        assert(neighbor_reached(*chunks, opq, t, pos, level as int, d as int));
                    }
                },
                Some((nc, nl)) => {
                    match chunks.voxel(&nc, nl.x, nl.y, nl.z) {
                        None => {
                            proof {
                                assert(neighbor_reached(*chunks, opq, t, pos, level as int, d as int));
                            }
                        },
                        Some(voxel) => {
                            let new_level = if light_type == LightType::Skylight && d == 1 {
                                level
                            } else {
                                level.saturating_sub(1)
                            };
                            let current = LightType::voxel_level(&voxel, light_type);
                            if opaque[voxel.id as usize] || new_level == 0 || current >= new_level {
                                proof {
                                    assert(neighbor_reached(*chunks, opq, t, pos, level as int, d as int));
                                }
                            } else {
                                let mut updated = voxel;
                                LightType::set_voxel_level(&mut updated, light_type, new_level);
                                let ghost ni = voxel_index(nl.x as int, nl.y as int, nl.z as int);
                                chunks.set_voxel(&nc, nl.x, nl.y, nl.z, updated);
                                proof {
                                    m_d.lemma_wf_cells(nc);
                                    lemma_set_lightens(m_d, *chunks, t, nc, ni, updated);
                                    lemma_lightened_trans(m_b, m_d, *chunks, t);
                                    lemma_deficit_update(m_d.cells_at(nc), t, ni, updated);
                                    lemma_deficit_fns_nonneg();
                                    chunks.lemma_total_nonneg(deficit_of(t));
                                    assert(chunks.total(deficit_of(t)) == m_d.total(deficit_of(t)) - deficit(m_d.cells_at(nc), t)
                                        + deficit(chunks.cells_at(nc), t));
                                    assert(m0.keys().contains(nc));
                                }
                                queue.push_back((BlockPos::new(nc, nl), new_level));
                                proof {
                                    assert(neighbor_reached(*chunks, opq, t, pos, level as int, d as int));
                                }
                            }
                        },
                    }
                },
            }
            proof {
                assert forall|e: int| 0 <= e < d + 1 implies #[trigger] neighbor_reached(*chunks, opq, t, pos, level as int, e) by {
                    if e < d {
                        assert(neighbor_reached(m_d, opq, t, pos, level as int, e));
                        lemma_reached_mono_one(m_d, *chunks, opq, t, pos, level as int, e);
                    }
                }
            }
            d = d + 1;
        }
        proof {
            lemma_lightened_trans(m0, m_b, *chunks, t);
            assert(all_neighbors_reached(*chunks, opq, t, pos, level as int));
            assert forall|k: int|
                0 <= k < popped && k < q0.len() implies #[trigger] all_neighbors_reached(
                    *chunks,
                    opq,
                    t,
                    q0[k].0,
                    q0[k].1 as int,
                ) by {
                if k == popped_b {
                    assert(q_b[0] == q0[popped_b + 0]);
                } else {
                    assert(all_neighbors_reached(m_b, opq, t, q0[k].0, q0[k].1 as int));
                    lemma_reached_mono(m_b, *chunks, opq, t, q0[k].0, q0[k].1 as int);
                }
            }
            if popped <= q0.len() {
                assert forall|j: int| 0 <= j < q0.len() - popped implies #[trigger] queue@[j] == q0[popped + j] by {
                    assert(queue@[j] == q_b[j + 1]);
                    assert(q_b[j + 1] == q0[popped_b + (j + 1)]);
                }
            }
        }
    }
    proof {
        if m0.keys().contains(chunk_pos) {
            assert forall|x: int, y: int, z: int|
                #[trigger] seam_seed(m0.cells_at(chunk_pos), t, x, y, z) implies all_neighbors_reached(
                    *chunks,
                    opq,
                    t,
                    BlockPos { chunk: chunk_pos, local: local(x, y, z) },
                    level_of(m0.cells_at(chunk_pos)[voxel_index(x, y, z)], t) as int,
                ) by {
                let bp = BlockPos { chunk: chunk_pos, local: local(x, y, z) };
                let l = level_of(m0.cells_at(chunk_pos)[voxel_index(x, y, z)], t);
                assert(entry_in(q0, q0.len() as int, bp, l));
                let k = choose|k: int| 0 <= k < q0.len() && q0[k] == (bp, l);
                assert(all_neighbors_reached(*chunks, opq, t, q0[k].0, q0[k].1 as int));
            }
        }
    }
    processed
}

proof fn lemma_reached_mono_one(m1: ChunkMap, m2: ChunkMap, opq: Seq<bool>, t: LightType, pos: BlockPos, l: int, d: int)
    requires
        map_lightened(m1, m2, t),
        local_in_chunk(pos.local),
        0 <= d < 6,
        neighbor_reached(m1, opq, t, pos, l, d),
    ensures
        neighbor_reached(m2, opq, t, pos, l, d),
{
    lemma_neighbor_in_chunk(pos, d);
    match spec_neighbor_block(pos, d) {
        Some((nc, nl)) => {
            if m1.keys().contains(nc) {
                let i = voxel_index(nl.x as int, nl.y as int, nl.z as int);
                assert(same_but_light(m1.cells_at(nc)[i], m2.cells_at(nc)[i], t));
            }
        },
        None => {},
    }
}

proof fn lemma_entry_in_grow(q: Seq<(BlockPos, u8)>, q2: Seq<(BlockPos, u8)>, pos: BlockPos, l: u8)
    requires
        entry_in(q, q.len() as int, pos, l),
        q.len() <= q2.len(),
        forall|j: int| 0 <= j < q.len() ==> #[trigger] q2[j] == q[j],
    ensures
        entry_in(q2, q2.len() as int, pos, l),
{
    let k = choose|k: int| 0 <= k < q.len() && q[k] == (pos, l);
    assert(q2[k] == (pos, l));
}

proof fn lemma_seed_loop_step(
    cells: Seq<Voxel>,
    t: LightType,
    c: ChunkPos,
    q_b: Seq<(BlockPos, u8)>,
    q_m: Seq<(BlockPos, u8)>,
    q_a: Seq<(BlockPos, u8)>,
    x: int,
    y: int,
    z: int,
    v: Voxel,
)
    requires
        in_chunk(x, y, z),
        v == cells[voxel_index(x, y, z)],
        (v.id == BLOCK_AIR && level_of(v, t) > 0) ==> q_m == q_b.push(
            (BlockPos { chunk: c, local: LocalPos { x: x as usize, y: y as usize, z: z as usize } }, level_of(v, t)),
        ),
        !(v.id == BLOCK_AIR && level_of(v, t) > 0) ==> q_m == q_b,
        q_m.len() <= q_a.len(),
        forall|j: int| 0 <= j < q_m.len() ==> #[trigger] q_a[j] == q_m[j],
    ensures
        q_b.len() <= q_a.len(),
        forall|j: int| 0 <= j < q_b.len() ==> #[trigger] q_a[j] == q_b[j],
        seam_seed(cells, t, x, y, z) ==> entry_in(
            q_a,
            q_a.len() as int,
            BlockPos { chunk: c, local: local(x, y, z) },
            level_of(cells[voxel_index(x, y, z)], t),
        ),
{
    assert forall|j: int| 0 <= j < q_b.len() implies #[trigger] q_a[j] == q_b[j] by {
        assert(q_a[j] == q_m[j]);
    }
    if seam_seed(cells, t, x, y, z) {
        let k = q_b.len() as int;
        assert(q_a[k] == q_m[k]);
    }
}

/// Carry light across the side faces of a chunk with the registry's opacity (see
/// `stitch_light_seams_with_opacity`).
pub fn stitch_light_seams<R: BlockOpacityProvider>(
    chunks: &mut ChunkMap,
    registry: &R,
    chunk_pos: ChunkPos,
    light_type: LightType,
) -> (processed: usize)
    requires
        old(chunks).wf(),
        forall|q: ChunkPos| old(chunks).keys().contains(q) ==> #[trigger] pos_has_neighbors(q),
    ensures
        final(chunks).wf(),
        map_lightened(*old(chunks), *final(chunks), light_type),
        old(chunks).keys().contains(chunk_pos) ==> forall|
                x: int,
                y: int,
                z: int,
            |
                #[trigger] seam_seed(old(chunks).cells_at(chunk_pos), light_type, x, y, z)
                    ==> all_neighbors_reached(
                    *final(chunks),
                    registry_opacity(registry),
                    light_type,
                    BlockPos { chunk: chunk_pos, local: local(x, y, z) },
                    level_of(old(chunks).cells_at(chunk_pos)[voxel_index(x, y, z)], light_type) as int,
                ),
{
    let table = opacity_table(registry);
    stitch_light_seams_with_opacity(chunks, &table, chunk_pos, light_type)
}

} // verus!
