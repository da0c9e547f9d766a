//! The End exit portal: a 3x3 pad of portal blocks.

use crate::chunk::{ChunkMap, Voxel, BLOCK_AIR, BLOCK_END_PORTAL, CHUNK_SIZE_Y};
use crate::redstone::{lemma_world_write, spec_chunk_of, spec_in_height, world_voxel, world_write, RedstonePos};
use vstd::prelude::*;

verus! {

/// The k-th cell (0..9) of the pad centered at (x, y, z): dx outer, dz inner, each from -1
/// to 1.
pub open spec fn pad_cell(x: i32, y: i32, z: i32, k: int) -> RedstonePos {
    RedstonePos { x: (x + (k / 3) - 1) as i32, y, z: (z + (k % 3) - 1) as i32 }
}

/// The portal block voxel.
pub open spec fn portal_voxel() -> Voxel {
    Voxel { id: BLOCK_END_PORTAL, state: 0, light_sky: 0, light_block: 0 }
}

/// A loaded cell holding air or portal.
pub open spec fn clear_cell(v: Option<Voxel>) -> bool {
    match v {
        Some(v) => v.id == BLOCK_AIR || v.id == BLOCK_END_PORTAL,
        None => false,
    }
}

/// Every pad cell is loaded and holds air or portal.
pub open spec fn pad_clear(chunks: ChunkMap, x: i32, y: i32, z: i32) -> bool {
    forall|k: int|
        0 <= k < 9 ==> clear_cell(#[trigger] world_voxel(chunks, pad_cell(x, y, z, k)))
}

/// Whether `p` is one of the pad's first `n` cells.
pub open spec fn in_pad(x: i32, y: i32, z: i32, n: int, p: RedstonePos) -> bool {
    exists|k: int| 0 <= k < n && pad_cell(x, y, z, k) == p
}

pub(crate) fn read_world(chunks: &ChunkMap, pos: RedstonePos) -> (res: Option<Voxel>)
    requires
        chunks.wf(),
    ensures
        res == world_voxel(*chunks, pos),
{
    if pos.y < 0 || pos.y >= CHUNK_SIZE_Y as i32 {
        return None;
    }
    let (chunk_pos, lx, ly, lz) = pos.to_chunk_local();
    chunks.voxel(&chunk_pos, lx, ly, lz)
}

fn write_world(chunks: &mut ChunkMap, pos: RedstonePos, voxel: Voxel)
    requires
        old(chunks).wf(),
    ensures
        final(chunks).wf(),
        world_write(*old(chunks), *final(chunks), pos, voxel),
{
    if pos.y < 0 || pos.y >= CHUNK_SIZE_Y as i32 {
        assert(world_write(*chunks, *chunks, pos, voxel));
        return;
    }
    let (chunk_pos, lx, ly, lz) = pos.to_chunk_local();
    let ghost before = *chunks;
    if chunks.set_voxel(&chunk_pos, lx, ly, lz, voxel) {
        proof {
            lemma_world_write(before, *chunks, pos, voxel);
        }
    } else {
        assert(world_write(before, *chunks, pos, voxel));
    }
}

/// Place a 3x3 End exit portal centered at the given world position. It is placed only
/// when all nine cells are loaded and hold air or portal (so placing it again is harmless);
/// otherwise nothing changes and `None` is returned. Returns the changed positions, dx
/// outer and dz inner.
pub fn place_end_exit_portal(chunks: &mut ChunkMap, center_x: i32, center_y: i32, center_z: i32) -> (res:
    Option<Vec<(i32, i32, i32)>>)
    requires
        old(chunks).wf(),
        i32::MIN < center_x < i32::MAX,
        i32::MIN < center_z < i32::MAX,
    ensures
        final(chunks).wf(),
        !(0 <= center_y < 256 && pad_clear(*old(chunks), center_x, center_y, center_z)) ==> res.is_none()
            && *final(chunks) == *old(chunks),
        (0 <= center_y < 256 && pad_clear(*old(chunks), center_x, center_y, center_z)) ==> (res matches Some(
            changed,
        ) && changed@.len() == 9 && (forall|k: int|
            0 <= k < 9 ==> #[trigger] changed@[k] == (
                pad_cell(center_x, center_y, center_z, k).x,
                center_y,
                pad_cell(center_x, center_y, center_z, k).z,
            )) && final(chunks).keys() == old(chunks).keys() && forall|p: RedstonePos|
            #[trigger] world_voxel(*final(chunks), p) == if in_pad(center_x, center_y, center_z, 9, p) {
                Some(portal_voxel())
            } else {
                world_voxel(*old(chunks), p)
            }),
{
    if center_y < 0 || center_y >= CHUNK_SIZE_Y as i32 {
        return None;
    }
    let mut k: usize = 0;
    while k < 9
        invariant
            k <= 9,
            chunks.wf(),
            i32::MIN < center_x < i32::MAX,
            i32::MIN < center_z < i32::MAX,
            forall|j: int|
                0 <= j < k ==> clear_cell(#[trigger] world_voxel(*chunks, pad_cell(center_x, center_y, center_z, j))),
        decreases 9 - k,
    {
        let x = center_x - 1 + (k / 3) as i32;
        let z = center_z - 1 + (k % 3) as i32;
        let pos = RedstonePos::new(x, center_y, z);
        assert(pos == pad_cell(center_x, center_y, center_z, k as int));
        match read_world(chunks, pos) {
            Some(v) => {
                if v.id != BLOCK_AIR && v.id != BLOCK_END_PORTAL {
                    return None;
                }
            },
            None => {
                return None;
            },
        }
        k = k + 1;
    }
    let ghost start = *chunks;
    let mut changed: Vec<(i32, i32, i32)> = Vec::with_capacity(9);
    let portal = Voxel { id: BLOCK_END_PORTAL, state: 0, light_sky: 0, light_block: 0 };
    let mut k: usize = 0;
    while k < 9
        invariant
            k <= 9,
            chunks.wf(),
            i32::MIN < center_x < i32::MAX,
            i32::MIN < center_z < i32::MAX,
            portal == portal_voxel(),
            pad_clear(start, center_x, center_y, center_z),
            chunks.keys() == start.keys(),
            changed@.len() == k,
            forall|j: int|
                0 <= j < k ==> #[trigger] changed@[j] == (
                    pad_cell(center_x, center_y, center_z, j).x,
                    center_y,
                    pad_cell(center_x, center_y, center_z, j).z,
                ),
            forall|p: RedstonePos|
                #[trigger] world_voxel(*chunks, p) == if in_pad(center_x, center_y, center_z, k as int, p) {
                    Some(portal_voxel())
                } else {
                    world_voxel(start, p)
                },
        decreases 9 - k,
    {
        let x = center_x - 1 + (k / 3) as i32;
        let z = center_z - 1 + (k % 3) as i32;
        let pos = RedstonePos::new(x, center_y, z);
        assert(pos == pad_cell(center_x, center_y, center_z, k as int));
        let ghost before = *chunks;
        write_world(chunks, pos, portal);
        changed.push((x, center_y, z));
        proof {
            assert(world_voxel(start, pos).is_some());
            assert forall|p: RedstonePos| #[trigger] world_voxel(*chunks, p) == if in_pad(center_x, center_y, center_z, k as int + 1, p) {
                Some(portal_voxel())
            } else {
                world_voxel(start, p)
            } by {
                assert(world_voxel(before, p) == if in_pad(center_x, center_y, center_z, k as int, p) {
                    Some(portal_voxel())
                } else {
                    world_voxel(start, p)
                });
                if p == pos {
                    assert(in_pad(center_x, center_y, center_z, k as int + 1, p));
                    assert(world_voxel(before, p).is_some());
                } else {
                    if in_pad(center_x, center_y, center_z, k as int + 1, p) {
                        let j = choose|j: int| 0 <= j < k + 1 && pad_cell(center_x, center_y, center_z, j) == p;
                        assert(j != k);
                        assert(in_pad(center_x, center_y, center_z, k as int, p));
                    } else if in_pad(center_x, center_y, center_z, k as int, p) {
                        let j = choose|j: int| 0 <= j < k && pad_cell(center_x, center_y, center_z, j) == p;
                        assert(in_pad(center_x, center_y, center_z, k as int + 1, p));
                    }
                }
            }
        }
        k = k + 1;
    }
    Some(changed)
}

} // verus!
