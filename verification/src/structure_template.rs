//! Placing structures described as ASCII voxel templates, rotated about the vertical axis.

use crate::chunk::{in_chunk, voxel_index, Chunk, ChunkPos, Voxel, CHUNK_VOLUME};
use crate::structures::{chunk_fits, set_world_voxel_if_in_chunk, world_set};
use vstd::prelude::*;
use vstd::string::StringSliceAdditionalSpecFns;

verus! {

/// A rotation about the vertical axis in quarter turns.
#[derive(Debug, Clone, Copy, PartialEq, Eq, Structural)]
pub enum YRotation {
    R0,
    R90,
    R180,
    R270,
}

/// The (x, z) footprint of a `size_x` by `size_z` template after the rotation.
pub open spec fn spec_rotated_size(r: YRotation, size_x: int, size_z: int) -> (int, int) {
    match r {
        YRotation::R0 | YRotation::R180 => (size_x, size_z),
        YRotation::R90 | YRotation::R270 => (size_z, size_x),
    }
}

/// Where template cell (x, z) lands in the rotated footprint.
pub open spec fn spec_rotate(r: YRotation, x: int, z: int, size_x: int, size_z: int) -> (int, int) {
    match r {
        YRotation::R0 => (x, z),
        YRotation::R90 => (size_z - 1 - z, x),
        YRotation::R180 => (size_x - 1 - x, size_z - 1 - z),
        YRotation::R270 => (z, size_x - 1 - x),
    }
}

/// The template cell (x, z) that lands on footprint cell (rx, rz).
pub open spec fn spec_unrotate(r: YRotation, rx: int, rz: int, size_x: int, size_z: int) -> (int, int) {
    match r {
        YRotation::R0 => (rx, rz),
        YRotation::R90 => (rz, size_z - 1 - rx),
        YRotation::R180 => (size_x - 1 - rx, size_z - 1 - rz),
        YRotation::R270 => (size_x - 1 - rz, rx),
    }
}

impl YRotation {
    /// The footprint of a `size_x` by `size_z` template after the rotation.
    pub fn rotated_size_xz(self, size_x: usize, size_z: usize) -> (res: (usize, usize))
        ensures
            (res.0 as int, res.1 as int) == spec_rotated_size(self, size_x as int, size_z as int),
    {
        match self {
            YRotation::R0 | YRotation::R180 => (size_x, size_z),
            YRotation::R90 | YRotation::R270 => (size_z, size_x),
        }
    }

    /// Where template cell (x, z) lands after the rotation.
    pub fn rotate_xz(self, x: usize, z: usize, size_x: usize, size_z: usize) -> (res: (usize, usize))
        requires
            x < size_x,
            z < size_z,
        ensures
            (res.0 as int, res.1 as int) == spec_rotate(self, x as int, z as int, size_x as int, size_z as int),
    {
        match self {
            YRotation::R0 => (x, z),
            YRotation::R90 => (size_z - 1 - z, x),
            YRotation::R180 => (size_x - 1 - x, size_z - 1 - z),
            YRotation::R270 => (z, size_x - 1 - x),
        }
    }
}

/// Number of layers (y size) of a template.
pub open spec fn template_size_y(layers: Seq<&[&str]>) -> int {
    layers.len() as int
}

/// Number of rows per layer (z size) of a template, read from its first layer.
pub open spec fn template_size_z(layers: Seq<&[&str]>) -> int {
    if layers.len() > 0 {
        layers[0]@.len() as int
    } else {
        0
    }
}

/// Number of bytes per row (x size) of a template, read from its first row.
pub open spec fn template_size_x(layers: Seq<&[&str]>) -> int {
    if layers.len() > 0 && layers[0]@.len() > 0 {
        layers[0]@[0].spec_bytes().len() as int
    } else {
        0
    }
}

/// Every layer has as many rows, and every row as many bytes, as the first ones.
pub open spec fn template_shaped(layers: Seq<&[&str]>) -> bool {
    &&& forall|y: int| 0 <= y < template_size_y(layers) ==> (#[trigger] layers[y])@.len() == template_size_z(layers)
    &&& forall|y: int, z: int|
        0 <= y < template_size_y(layers) && 0 <= z < template_size_z(layers) ==> (
        #[trigger] layers[y]@[z]).spec_bytes().len() == template_size_x(layers)
}

/// A template no larger than the i32 coordinate range can hold.
pub open spec fn template_fits(layers: Seq<&[&str]>) -> bool {
    template_size_y(layers) <= i32::MAX && template_size_x(layers) + template_size_z(layers) <= i32::MAX
}

/// The byte of template cell (x, y, z): layer y, row z, byte x.
pub open spec fn template_byte(layers: Seq<&[&str]>, x: int, y: int, z: int) -> u8 {
    layers[y]@[z].spec_bytes()[x]
}

/// The template cell (x, y, z) placed on the chunk's local cell (lx, ly, lz), when one is.
pub open spec fn template_source(
    layers: Seq<&[&str]>,
    r: YRotation,
    origin_x: int,
    origin_y: int,
    origin_z: int,
    c: ChunkPos,
    lx: int,
    ly: int,
    lz: int,
) -> Option<(int, int, int)> {
    let sx = template_size_x(layers);
    let sy = template_size_y(layers);
    let sz = template_size_z(layers);
    let rx = lx + c.x * 16 - origin_x;
    let rz = lz + c.z * 16 - origin_z;
    let dy = ly - origin_y;
    let (fx, fz) = spec_rotated_size(r, sx, sz);
    if 0 <= dy < sy && 0 <= rx < fx && 0 <= rz < fz {
        let (x, z) = spec_unrotate(r, rx, rz, sx, sz);
        Some((x, dy, z))
    } else {
        None
    }
}

/// A template cell placed with palette answer `answer`: a voxel, or nothing (the chunk keeps
/// its old voxel).
pub open spec fn placed_value(answer: Option<Voxel>, old_voxel: Voxel) -> Voxel {
    match answer {
        Some(v) => v,
        None => old_voxel,
    }
}

/// The chunk cell holds what the palette gave for the template byte placed on it.
pub open spec fn cell_from_palette<F: Fn(u8) -> Option<Voxel>>(
    palette: F,
    byte: u8,
    old_voxel: Voxel,
    new_voxel: Voxel,
) -> bool {
    exists|answer: Option<Voxel>| call_ensures(palette, (byte,), answer) && new_voxel == placed_value(answer, old_voxel)
}

/// Template cell s comes before cell (x, y, z) in placement order (layer, then row, then byte).
pub open spec fn placed_before(s: (int, int, int), x: int, y: int, z: int) -> bool {
    s.1 < y || (s.1 == y && (s.2 < z || (s.2 == z && s.0 < x)))
}

/// The chunk cell (lx, ly, lz) is as placement leaves it once every template cell before
/// (x, y, z) is placed.
pub open spec fn cell_placed<F: Fn(u8) -> Option<Voxel>>(
    old_cells: Seq<Voxel>,
    cells: Seq<Voxel>,
    palette: F,
    layers: Seq<&[&str]>,
    r: YRotation,
    origin_x: int,
    origin_y: int,
    origin_z: int,
    c: ChunkPos,
    x: int,
    y: int,
    z: int,
    lx: int,
    ly: int,
    lz: int,
) -> bool {
    let i = voxel_index(lx, ly, lz);
    match template_source(layers, r, origin_x, origin_y, origin_z, c, lx, ly, lz) {
        Some(s) => if placed_before(s, x, y, z) {
            cell_from_palette(palette, template_byte(layers, s.0, s.1, s.2), old_cells[i], cells[i])
        } else {
            cells[i] == old_cells[i]
        },
        None => cells[i] == old_cells[i],
    }
}

/// Law: a rotated template cell lands inside the rotated footprint, and unrotating it gives
/// the cell back.
pub proof fn law_rotation_inverse(r: YRotation, x: int, z: int, sx: int, sz: int)
    requires
        0 <= x < sx,
        0 <= z < sz,
    ensures
        ({
            let (rx, rz) = spec_rotate(r, x, z, sx, sz);
            let (fx, fz) = spec_rotated_size(r, sx, sz);
            &&& 0 <= rx < fx
            &&& 0 <= rz < fz
            &&& spec_unrotate(r, rx, rz, sx, sz) == (x, z)
        }),
{
}

/// Law: every cell of the rotated footprint comes from exactly one template cell, the one
/// unrotating gives.
pub proof fn law_unrotate_in_range(r: YRotation, rx: int, rz: int, sx: int, sz: int)
    requires
        0 <= rx < spec_rotated_size(r, sx, sz).0,
        0 <= rz < spec_rotated_size(r, sx, sz).1,
    ensures
        ({
            let (x, z) = spec_unrotate(r, rx, rz, sx, sz);
            &&& 0 <= x < sx
            &&& 0 <= z < sz
            &&& spec_rotate(r, x, z, sx, sz) == (rx, rz)
        }),
{
}

/// Place an ASCII volume template into a chunk: `layers[y][z]` is a row of `size_x` bytes,
/// every layer of the same size. Template cell (x, y, z) goes to world position
/// (origin_x + rx, origin_y + y, origin_z + rz), where (rx, rz) is (x, z) rotated; the
/// palette maps its byte to a voxel to write, or to `None` to leave the world as it is.
/// Positions outside the chunk are skipped.
pub fn place_ascii_volume_in_chunk<F: Fn(u8) -> Option<Voxel>>(
    chunk: &mut Chunk,
    origin_x: i32,
    origin_y: i32,
    origin_z: i32,
    rotation: YRotation,
    layers: &[&[&str]],
    voxel_for_byte: F,
)
    requires
        old(chunk).wf(),
        chunk_fits(old(chunk).spec_pos()),
        template_shaped(layers@),
        template_fits(layers@),
        origin_x + template_size_x(layers@) + template_size_z(layers@) <= i32::MAX,
        origin_z + template_size_x(layers@) + template_size_z(layers@) <= i32::MAX,
        origin_y + template_size_y(layers@) <= i32::MAX,
        forall|b: u8| call_requires(voxel_for_byte, (b,)),
    ensures
        final(chunk).wf(),
        final(chunk).spec_pos() == old(chunk).spec_pos(),
        forall|lx: int, ly: int, lz: int|
            in_chunk(lx, ly, lz) ==> #[trigger] cell_placed(
                old(chunk).cells(),
                final(chunk).cells(),
                voxel_for_byte,
                layers@,
                rotation,
                origin_x as int,
                origin_y as int,
                origin_z as int,
                old(chunk).spec_pos(),
                0,
                template_size_y(layers@),
                0,
                lx,
                ly,
                lz,
            ),
{
    let ghost old_cells = chunk.cells();
    let ghost c = chunk.spec_pos();
    let ghost tl = layers@;
    let size_y = layers.len();
    if size_y == 0 {
        return;
    }
    let size_z = layers[0].len();
    if size_z == 0 {
        proof {
            assert forall|lx: int, ly: int, lz: int| in_chunk(lx, ly, lz) implies #[trigger] cell_placed(
                old_cells, chunk.cells(), voxel_for_byte, tl, rotation, origin_x as int, origin_y as int,
                origin_z as int, c, 0, size_y as int, 0, lx, ly, lz) by {}
        }
        return;
    }
    let size_x = layers[0][0].as_bytes().len();
    if size_x == 0 {
        proof {
            assert forall|lx: int, ly: int, lz: int| in_chunk(lx, ly, lz) implies #[trigger] cell_placed(
                old_cells, chunk.cells(), voxel_for_byte, tl, rotation, origin_x as int, origin_y as int,
                origin_z as int, c, 0, size_y as int, 0, lx, ly, lz) by {}
        }
        return;
    }
    assert(size_x as int == template_size_x(tl) && size_z as int == template_size_z(tl));
    let mut dy: usize = 0;
    while dy < size_y
        invariant
            0 <= dy <= size_y,
            size_y as int == template_size_y(tl),
            size_z as int == template_size_z(tl),
            size_x as int == template_size_x(tl),
            size_x > 0,
            size_z > 0,
            tl == layers@,
            template_shaped(tl),
            chunk.wf(),
            chunk.spec_pos() == c,
            chunk_fits(c),
            old_cells.len() == CHUNK_VOLUME,
            origin_x + size_x + size_z <= i32::MAX,
            origin_z + size_x + size_z <= i32::MAX,
            origin_y + size_y <= i32::MAX,
            size_y <= i32::MAX,
            size_x + size_z <= i32::MAX,
            forall|b: u8| call_requires(voxel_for_byte, (b,)),
            forall|lx: int, ly: int, lz: int|
                in_chunk(lx, ly, lz) ==> #[trigger] cell_placed(
                    old_cells, chunk.cells(), voxel_for_byte, tl, rotation, origin_x as int,
                    origin_y as int, origin_z as int, c, 0, dy as int, 0, lx, ly, lz),
        decreases size_y - dy,
    {
        let world_y = origin_y + dy as i32;
        let layer: &[&str] = layers[dy];
        let mut z: usize = 0;
        while z < size_z
            invariant
                0 <= dy < size_y,
                0 <= z <= size_z,
                size_y as int == template_size_y(tl),
                size_z as int == template_size_z(tl),
                size_x as int == template_size_x(tl),
                size_x > 0,
                size_z > 0,
                tl == layers@,
                layer == tl[dy as int],
                layer@.len() == size_z,
                template_shaped(tl),
                world_y == origin_y + dy,
                chunk.wf(),
                chunk.spec_pos() == c,
                chunk_fits(c),
                old_cells.len() == CHUNK_VOLUME,
                origin_x + size_x + size_z <= i32::MAX,
                origin_z + size_x + size_z <= i32::MAX,
                origin_y + size_y <= i32::MAX,
                size_y <= i32::MAX,
                size_x + size_z <= i32::MAX,
                forall|b: u8| call_requires(voxel_for_byte, (b,)),
                forall|lx: int, ly: int, lz: int|
                    in_chunk(lx, ly, lz) ==> #[trigger] cell_placed(
                        old_cells, chunk.cells(), voxel_for_byte, tl, rotation, origin_x as int,
                        origin_y as int, origin_z as int, c, 0, dy as int, z as int, lx, ly, lz),
            decreases size_z - z,
        {
            assert(tl[dy as int]@[z as int].spec_bytes().len() == size_x);
            let bytes: &[u8] = layer[z].as_bytes();
            let mut x: usize = 0;
            while x < size_x
                invariant
                    0 <= dy < size_y,
                    0 <= z < size_z,
                    0 <= x <= size_x,
                    size_y as int == template_size_y(tl),
                    size_z as int == template_size_z(tl),
                    size_x as int == template_size_x(tl),
                    tl == layers@,
                    bytes@ == tl[dy as int]@[z as int].spec_bytes(),
                    bytes@.len() == size_x,
                    world_y == origin_y + dy,
                    chunk.wf(),
                    chunk.spec_pos() == c,
                    chunk_fits(c),
                    old_cells.len() == CHUNK_VOLUME,
                    origin_x + size_x + size_z <= i32::MAX,
                    origin_z + size_x + size_z <= i32::MAX,
                    origin_y + size_y <= i32::MAX,
                    size_y <= i32::MAX,
                    size_x + size_z <= i32::MAX,
                    forall|b: u8| call_requires(voxel_for_byte, (b,)),
                    forall|lx: int, ly: int, lz: int|
                        in_chunk(lx, ly, lz) ==> #[trigger] cell_placed(
                            old_cells, chunk.cells(), voxel_for_byte, tl, rotation, origin_x as int,
                            origin_y as int, origin_z as int, c, x as int, dy as int, z as int, lx, ly, lz),
                decreases size_x - x,
            {
                let byte = bytes[x];
                assert(byte == template_byte(tl, x as int, dy as int, z as int));
                let answer = voxel_for_byte(byte);
                let ghost before = chunk.cells();
                let (rx, rz) = rotation.rotate_xz(x, z, size_x, size_z);
                proof {
                    law_rotation_inverse(rotation, x as int, z as int, size_x as int, size_z as int);
                }
                let wx = origin_x + rx as i32;
                let wz = origin_z + rz as i32;
                let ghost tlx = wx - c.x * 16;
                let ghost tly = world_y as int;
                let ghost tlz = wz - c.z * 16;
                match answer {
                    Some(voxel) => {
                        set_world_voxel_if_in_chunk(chunk, wx, world_y, wz, voxel);
                    },
                    None => {},
                }
                proof {
                    let after = chunk.cells();
                    assert(after == before.update(voxel_index(tlx, tly, tlz), placed_value(answer, before[voxel_index(tlx, tly, tlz)])) || !in_chunk(tlx, tly, tlz));
                    assert(!in_chunk(tlx, tly, tlz) ==> after == before);
                    assert forall|lx: int, ly: int, lz: int| in_chunk(lx, ly, lz) implies #[trigger] cell_placed(
                        old_cells, after, voxel_for_byte, tl, rotation, origin_x as int,
                        origin_y as int, origin_z as int, c, x as int + 1, dy as int, z as int, lx, ly, lz) by {
                        assert(cell_placed(
                            old_cells, before, voxel_for_byte, tl, rotation, origin_x as int,
                            origin_y as int, origin_z as int, c, x as int, dy as int, z as int, lx, ly, lz));
                        let i = voxel_index(lx, ly, lz);
                        crate::chunk::lemma_voxel_index_bounds(lx, ly, lz);
                        if lx == tlx && ly == tly && lz == tlz {
                            assert(template_source(tl, rotation, origin_x as int, origin_y as int, origin_z as int, c, lx, ly, lz)
                                == Some((x as int, dy as int, z as int)));
                            assert(call_ensures(voxel_for_byte, (byte,), answer));
                            assert(before[i] == old_cells[i]);
                        } else {
                            if in_chunk(tlx, tly, tlz) {
                                if voxel_index(lx, ly, lz) == voxel_index(tlx, tly, tlz) {
                                    crate::chunk::lemma_voxel_index_injective(lx, ly, lz, tlx, tly, tlz);
                                }
                                crate::chunk::lemma_voxel_index_bounds(tlx, tly, tlz);
                            }
                            assert(after[i] == before[i]);
                            match template_source(tl, rotation, origin_x as int, origin_y as int, origin_z as int, c, lx, ly, lz) {
                                Some(s) => {
                                    let sx = template_size_x(tl);
                                    let sz = template_size_z(tl);
                                    law_unrotate_in_range(rotation, lx + c.x * 16 - origin_x, lz + c.z * 16 - origin_z, sx, sz);
                                    assert(s != (x as int, dy as int, z as int));
                                },
                                None => {},
                            }
                        }
                    }
                }
                x = x + 1;
            }
            proof {
                assert forall|lx: int, ly: int, lz: int| in_chunk(lx, ly, lz) implies #[trigger] cell_placed(
                    old_cells, chunk.cells(), voxel_for_byte, tl, rotation, origin_x as int,
                    origin_y as int, origin_z as int, c, 0, dy as int, z as int + 1, lx, ly, lz) by {
                    assert(cell_placed(
                        old_cells, chunk.cells(), voxel_for_byte, tl, rotation, origin_x as int,
                        origin_y as int, origin_z as int, c, size_x as int, dy as int, z as int, lx, ly, lz));
                    match template_source(tl, rotation, origin_x as int, origin_y as int, origin_z as int, c, lx, ly, lz) {
                        Some(s) => {
                            law_unrotate_in_range(rotation, lx + c.x * 16 - origin_x, lz + c.z * 16 - origin_z, size_x as int, size_z as int);
                        },
                        None => {},
                    }
                }
            }
            z = z + 1;
        }
        proof {
            assert forall|lx: int, ly: int, lz: int| in_chunk(lx, ly, lz) implies #[trigger] cell_placed(
                old_cells, chunk.cells(), voxel_for_byte, tl, rotation, origin_x as int,
                origin_y as int, origin_z as int, c, 0, dy as int + 1, 0, lx, ly, lz) by {
                assert(cell_placed(
                    old_cells, chunk.cells(), voxel_for_byte, tl, rotation, origin_x as int,
                    origin_y as int, origin_z as int, c, 0, dy as int, size_z as int, lx, ly, lz));
                match template_source(tl, rotation, origin_x as int, origin_y as int, origin_z as int, c, lx, ly, lz) {
                    Some(s) => {
                        law_unrotate_in_range(rotation, lx + c.x * 16 - origin_x, lz + c.z * 16 - origin_z, size_x as int, size_z as int);
                    },
                    None => {},
                }
            }
        }
        dy = dy + 1;
    }
}

} // verus!
