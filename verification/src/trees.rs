//! Trees for biome decoration: per-biome tree kinds, their block shapes, and where in a
//! chunk trees grow.

use crate::biome::BiomeId;
use crate::chunk::{in_chunk, voxel_index, Chunk, Voxel, BLOCK_AIR, CHUNK_SIZE_X, CHUNK_SIZE_Y, CHUNK_SIZE_Z, CHUNK_VOLUME};
use vstd::prelude::*;

verus! {

/// Log and leaf block ids of the tree kinds.
pub const LOG: u16 = 11;
pub const LEAVES: u16 = 12;
pub const BIRCH_LOG: u16 = 13;
pub const BIRCH_LEAVES: u16 = 14;
pub const PINE_LOG: u16 = 15;
pub const PINE_LEAVES: u16 = 16;

/// Tree kinds.
#[derive(Debug, Clone, Copy, PartialEq, Eq, Structural)]
pub enum TreeType {
    Oak,
    Birch,
    Pine,
}

/// The tree kind that grows in a biome, if any.
pub open spec fn spec_for_biome(biome: BiomeId) -> Option<TreeType> {
    match biome {
        BiomeId::BirchForest => Some(TreeType::Birch),
        BiomeId::IcePlains | BiomeId::IceMountains | BiomeId::Tundra => Some(TreeType::Pine),
        BiomeId::Forest | BiomeId::Plains | BiomeId::Hills | BiomeId::RainForest => Some(TreeType::Oak),
        _ => None,
    }
}

pub open spec fn spec_log(t: TreeType) -> u16 {
    match t {
        TreeType::Oak => LOG,
        TreeType::Birch => BIRCH_LOG,
        TreeType::Pine => PINE_LOG,
    }
}

pub open spec fn spec_leaves(t: TreeType) -> u16 {
    match t {
        TreeType::Oak => LEAVES,
        TreeType::Birch => BIRCH_LEAVES,
        TreeType::Pine => PINE_LEAVES,
    }
}

pub open spec fn spec_trunk_height(t: TreeType) -> int {
    match t {
        TreeType::Oak => 5,
        TreeType::Birch => 6,
        TreeType::Pine => 8,
    }
}

impl TreeType {
    /// The tree kind of a biome: birch in birch forests, pine in icy biomes, oak in forests,
    /// plains, hills and rain forests, none elsewhere.
    pub fn for_biome(biome: BiomeId) -> (res: Option<Self>)
        ensures
            res == spec_for_biome(biome),
    {
        match biome {
            BiomeId::BirchForest => Some(TreeType::Birch),
            BiomeId::IcePlains | BiomeId::IceMountains | BiomeId::Tundra => Some(TreeType::Pine),
            BiomeId::Forest | BiomeId::Plains | BiomeId::Hills => Some(TreeType::Oak),
            BiomeId::RainForest => Some(TreeType::Oak),
            _ => None,
        }
    }

    /// The log block.
    pub fn log_block(&self) -> (res: u16)
        ensures
            res == spec_log(*self),
    {
        match self {
            TreeType::Oak => LOG,
            TreeType::Birch => BIRCH_LOG,
            TreeType::Pine => PINE_LOG,
        }
    }

    /// The leaves block.
    pub fn leaves_block(&self) -> (res: u16)
        ensures
            res == spec_leaves(*self),
    {
        match self {
            TreeType::Oak => LEAVES,
            TreeType::Birch => BIRCH_LEAVES,
            TreeType::Pine => PINE_LEAVES,
        }
    }

    /// Trunk height in blocks.
    pub fn trunk_height(&self) -> (res: usize)
        ensures
            res == spec_trunk_height(*self),
    {
        match self {
            TreeType::Oak => 5,
            TreeType::Birch => 6,
            TreeType::Pine => 8,
        }
    }
}

/// Within one block of the trunk column horizontally.
pub open spec fn near_trunk(dx: int, dz: int) -> bool {
    -1 <= dx <= 1 && -1 <= dz <= 1
}

/// The block a tree puts at offset (dx, dy, dz) from its trunk base, if any.
/// Oak: a trunk of 5, a 3x3x3 canopy above it without the bottom corners, and a top leaf.
/// Birch: a trunk of 6, a 3x3x2 canopy above it, and a top leaf.
/// Pine: a trunk of 8, 3x3 rings of leaves from the 6th to the 9th block, and two top leaves.
pub open spec fn shape_block(t: TreeType, dx: int, dy: int, dz: int) -> Option<u16> {
    let h = spec_trunk_height(t);
    let center = dx == 0 && dz == 0;
    if center && 0 <= dy < h {
        Some(spec_log(t))
    } else {
        let leaf = match t {
            TreeType::Oak => (near_trunk(dx, dz) && h <= dy < h + 3 && !(dy == h && dx != 0 && dz != 0))
                || (center && dy == h + 3),
            TreeType::Birch => (near_trunk(dx, dz) && h <= dy < h + 2) || (center && dy == h + 2),
            TreeType::Pine => (near_trunk(dx, dz) && !center && h - 3 <= dy <= h) || (center && (dy
                == h + 1 || dy == h + 2)),
        };
        if leaf {
            Some(spec_leaves(t))
        } else {
            None
        }
    }
}

fn shape_block_at(t: TreeType, dx: i32, dy: i32, dz: i32) -> (res: Option<u16>)
    requires
        -1 <= dx <= 1,
        -1 <= dz <= 1,
        0 <= dy <= 10,
    ensures
        res == shape_block(t, dx as int, dy as int, dz as int),
{
    let h = t.trunk_height() as i32;
    let center = dx == 0 && dz == 0;
    if center && dy < h {
        return Some(t.log_block());
    }
    let leaf = match t {
        TreeType::Oak => (dy >= h && dy < h + 3 && !(dy == h && dx != 0 && dz != 0)) || (center && dy
            == h + 3),
        TreeType::Birch => (dy >= h && dy < h + 2) || (center && dy == h + 2),
        TreeType::Pine => (!center && dy >= h - 3 && dy <= h) || (center && (dy == h + 1 || dy == h
            + 2)),
    };
    if leaf {
        Some(t.leaves_block())
    } else {
        None
    }
}

/// A tree to be placed, by its trunk base in world coordinates.
#[derive(Debug, Clone)]
pub struct Tree {
    pub world_x: i32,
    pub world_y: i32,
    pub world_z: i32,
    pub tree_type: TreeType,
}

/// The block a fresh tree block voxel holds: the given id, no state, no light.
pub open spec fn tree_voxel(id: u16) -> Voxel {
    Voxel { id, state: 0, light_sky: 0, light_block: 0 }
}

/// What a tree makes of the voxel `v` at (x, y, z) of the chunk at chunk coordinates
/// (cx, cz), if `done` offsets have been placed: air at a shape offset becomes the shape's
/// block; everything else stays.
pub open spec fn grown(tree: Tree, cx: int, cz: int, x: int, y: int, z: int, v: Voxel) -> Voxel {
    let dx = cx * 16 + x - tree.world_x;
    let dy = y - tree.world_y;
    let dz = cz * 16 + z - tree.world_z;
    match shape_block(tree.tree_type, dx, dy, dz) {
        Some(b) => if v.id == BLOCK_AIR {
            tree_voxel(b)
        } else {
            v
        },
        None => v,
    }
}

/// Chunk coordinates whose world origin fits in an i32.
pub open spec fn origin_fits(cx: int, cz: int) -> bool {
    i32::MIN <= cx * 16 <= i32::MAX - 16 && i32::MIN <= cz * 16 <= i32::MAX - 16
}

/// A tree whose shape stays within i32 world coordinates.
pub open spec fn tree_fits(tree: Tree) -> bool {
    i32::MIN < tree.world_x < i32::MAX && i32::MIN < tree.world_z < i32::MAX && tree.world_y
        <= i32::MAX - 10
}

impl Tree {
    pub fn new(world_x: i32, world_y: i32, world_z: i32, tree_type: TreeType) -> (res: Self)
        ensures
            res.world_x == world_x,
            res.world_y == world_y,
            res.world_z == world_z,
            res.tree_type == tree_type,
    {
        Tree { world_x, world_y, world_z, tree_type }
    }

    /// Place the tree's blocks that fall inside the chunk, never replacing a block that is
    /// not air: every cell becomes `grown` of what it held.
    pub fn generate_into_chunk(&self, chunk: &mut Chunk)
        requires
            old(chunk).wf(),
            origin_fits(old(chunk).spec_pos().x as int, old(chunk).spec_pos().z as int),
            tree_fits(*self),
            i32::MIN <= self.world_x - (old(chunk).spec_pos().x * 16) - 1,
            self.world_x - (old(chunk).spec_pos().x * 16) + 1 <= i32::MAX,
            i32::MIN <= self.world_z - (old(chunk).spec_pos().z * 16) - 1,
            self.world_z - (old(chunk).spec_pos().z * 16) + 1 <= i32::MAX,
        ensures
            final(chunk).wf(),
            final(chunk).spec_pos() == old(chunk).spec_pos(),
            forall|x: int, y: int, z: int|
                in_chunk(x, y, z) ==> #[trigger] final(chunk).cells()[voxel_index(x, y, z)] == grown(
                    *self,
                    old(chunk).spec_pos().x as int,
                    old(chunk).spec_pos().z as int,
                    x,
                    y,
                    z,
                    old(chunk).cells()[voxel_index(x, y, z)],
                ),
    {
        let ghost s0 = chunk.cells();
        let ghost cx = chunk.spec_pos().x as int;
        let ghost cz = chunk.spec_pos().z as int;
        let mut dy: i32 = 0;
        while dy <= 10
            invariant
                0 <= dy <= 11,
                chunk.wf(),
                chunk.spec_pos() == old(chunk).spec_pos(),
                s0 == old(chunk).cells(),
                cx == chunk.spec_pos().x,
                cz == chunk.spec_pos().z,
                origin_fits(cx, cz),
                tree_fits(*self),
                i32::MIN <= self.world_x - cx * 16 - 1,
                self.world_x - cx * 16 + 1 <= i32::MAX,
                i32::MIN <= self.world_z - cz * 16 - 1,
                self.world_z - cz * 16 + 1 <= i32::MAX,
                forall|x: int, y: int, z: int|
                    in_chunk(x, y, z) ==> #[trigger] chunk.cells()[voxel_index(x, y, z)] == (if placed_before(
                        *self,
                        cx,
                        cz,
                        x,
                        y,
                        z,
                        dy as int,
                        -1,
                        -1,
                    ) {
                        grown(*self, cx, cz, x, y, z, s0[voxel_index(x, y, z)])
                    } else {
                        s0[voxel_index(x, y, z)]
                    }),
            decreases 11 - dy,
        {
            let mut dx: i32 = -1;
            while dx <= 1
                invariant
                    0 <= dy <= 10,
                    -1 <= dx <= 2,
                    chunk.wf(),
                    chunk.spec_pos() == old(chunk).spec_pos(),
                    s0 == old(chunk).cells(),
                    cx == chunk.spec_pos().x,
                    cz == chunk.spec_pos().z,
                    origin_fits(cx, cz),
                    tree_fits(*self),
                    i32::MIN <= self.world_x - cx * 16 - 1,
                    self.world_x - cx * 16 + 1 <= i32::MAX,
                    i32::MIN <= self.world_z - cz * 16 - 1,
                    self.world_z - cz * 16 + 1 <= i32::MAX,
                    forall|x: int, y: int, z: int|
                        in_chunk(x, y, z) ==> #[trigger] chunk.cells()[voxel_index(x, y, z)] == (if placed_before(
                            *self,
                            cx,
                            cz,
                            x,
                            y,
                            z,
                            dy as int,
                            dx as int,
                            -1,
                        ) {
                            grown(*self, cx, cz, x, y, z, s0[voxel_index(x, y, z)])
                        } else {
                            s0[voxel_index(x, y, z)]
                        }),
                decreases 2 - dx,
            {
                let mut dz: i32 = -1;
                while dz <= 1
                    invariant
                        0 <= dy <= 10,
                        -1 <= dx <= 1,
                        -1 <= dz <= 2,
                        chunk.wf(),
                        chunk.spec_pos() == old(chunk).spec_pos(),
                        s0 == old(chunk).cells(),
                        cx == chunk.spec_pos().x,
                        cz == chunk.spec_pos().z,
                        origin_fits(cx, cz),
                        tree_fits(*self),
                        i32::MIN <= self.world_x - cx * 16 - 1,
                        self.world_x - cx * 16 + 1 <= i32::MAX,
                        i32::MIN <= self.world_z - cz * 16 - 1,
                        self.world_z - cz * 16 + 1 <= i32::MAX,
                        forall|x: int, y: int, z: int|
                            in_chunk(x, y, z) ==> #[trigger] chunk.cells()[voxel_index(x, y, z)] == (if placed_before(
                                *self,
                                cx,
                                cz,
                                x,
                                y,
                                z,
                                dy as int,
                                dx as int,
                                dz as int,
                            ) {
                                grown(*self, cx, cz, x, y, z, s0[voxel_index(x, y, z)])
                            } else {
                                s0[voxel_index(x, y, z)]
                            }),
                    decreases 2 - dz,
                {
                    let ghost before = chunk.cells();
                    match shape_block_at(self.tree_type, dx, dy, dz) {
                        Some(block_id) => {
                            self.place_block(chunk, dx, dy, dz, block_id);
                        },
                        None => {},
                    }
                    proof {
                        assert forall|x: int, y: int, z: int|
                            in_chunk(x, y, z) implies #[trigger] chunk.cells()[voxel_index(x, y, z)] == (if placed_before(
                                *self,
                                cx,
                                cz,
                                x,
                                y,
                                z,
                                dy as int,
                                dx as int,
                                dz as int + 1,
                            ) {
                                grown(*self, cx, cz, x, y, z, s0[voxel_index(x, y, z)])
                            } else {
                                s0[voxel_index(x, y, z)]
                            }) by {
                            assert(before[voxel_index(x, y, z)] == (if placed_before(*self, cx, cz, x, y, z, dy as int, dx as int, dz as int) {
                                grown(*self, cx, cz, x, y, z, s0[voxel_index(x, y, z)])
                            } else {
                                s0[voxel_index(x, y, z)]
                            }));
                        }
                    }
                    dz = dz + 1;
                }
                proof {
                    assert forall|x: int, y: int, z: int|
                        in_chunk(x, y, z) implies placed_before(*self, cx, cz, x, y, z, dy as int, dx as int, 2)
                        == placed_before(*self, cx, cz, x, y, z, dy as int, dx as int + 1, -1) by {
                    }
                }
                dx = dx + 1;
            }
            proof {
                assert forall|x: int, y: int, z: int|
                    in_chunk(x, y, z) implies placed_before(*self, cx, cz, x, y, z, dy as int, 2, -1)
                    == placed_before(*self, cx, cz, x, y, z, dy as int + 1, -1, -1) by {
                }
            }
            dy = dy + 1;
        }
        proof {
            assert forall|x: int, y: int, z: int| in_chunk(x, y, z) implies #[trigger] chunk.cells()[voxel_index(x, y, z)] == grown(
                *self,
                cx,
                cz,
                x,
                y,
                z,
                s0[voxel_index(x, y, z)],
            ) by {
                if !placed_before(*self, cx, cz, x, y, z, 11, -1, -1) {
                    assert(shape_block(
                        self.tree_type,
                        cx * 16 + x - self.world_x,
                        y - self.world_y,
                        cz * 16 + z - self.world_z,
                    ).is_none());
                }
            }
        }
    }

    /// Put `block_id` at offset (dx, dy, dz) from the trunk base when that lies in the chunk
    /// and holds air.
    fn place_block(&self, chunk: &mut Chunk, dx: i32, dy: i32, dz: i32, block_id: u16)
        requires
            old(chunk).wf(),
            -1 <= dx <= 1,
            -1 <= dz <= 1,
            0 <= dy <= 10,
            origin_fits(old(chunk).spec_pos().x as int, old(chunk).spec_pos().z as int),
            tree_fits(*self),
            i32::MIN <= self.world_x - (old(chunk).spec_pos().x * 16) - 1,
            self.world_x - (old(chunk).spec_pos().x * 16) + 1 <= i32::MAX,
            i32::MIN <= self.world_z - (old(chunk).spec_pos().z * 16) - 1,
            self.world_z - (old(chunk).spec_pos().z * 16) + 1 <= i32::MAX,
        ensures
            final(chunk).wf(),
            final(chunk).spec_pos() == old(chunk).spec_pos(),
            forall|x: int, y: int, z: int|
                in_chunk(x, y, z) ==> #[trigger] final(chunk).cells()[voxel_index(x, y, z)] == (if old(
                    chunk,
                ).spec_pos().x * 16 + x - self.world_x == dx && y - self.world_y == dy && old(
                    chunk,
                ).spec_pos().z * 16 + z - self.world_z == dz && old(chunk).cells()[voxel_index(
                    x,
                    y,
                    z,
                )].id == BLOCK_AIR {
                    tree_voxel(block_id)
                } else {
                    old(chunk).cells()[voxel_index(x, y, z)]
                }),
    {
        let world_x = self.world_x + dx;
        let world_y = self.world_y + dy;
        let world_z = self.world_z + dz;
        let chunk_pos = chunk.position();
        let chunk_origin_x = chunk_pos.x * CHUNK_SIZE_X as i32;
        let chunk_origin_z = chunk_pos.z * CHUNK_SIZE_Z as i32;
        let local_x = world_x - chunk_origin_x;
        let local_z = world_z - chunk_origin_z;
        if local_x >= 0 && local_x < CHUNK_SIZE_X as i32 && local_z >= 0 && local_z < CHUNK_SIZE_Z as i32
            && world_y >= 0 && world_y < CHUNK_SIZE_Y as i32 {
            let current = chunk.voxel(local_x as usize, world_y as usize, local_z as usize);
            if current.id == BLOCK_AIR {
                let ghost before = chunk.cells();
                chunk.set_voxel(
                    local_x as usize,
                    world_y as usize,
                    local_z as usize,
                    Voxel { id: block_id, state: 0, light_sky: 0, light_block: 0 },
                );
                proof {
                    let ti = voxel_index(local_x as int, world_y as int, local_z as int);
                    assert forall|x: int, y: int, z: int| in_chunk(x, y, z) implies voxel_index(x, y, z) == ti <==> (x
                        == local_x && y == world_y && z == local_z) by {
                    }
                }
            }
        }
    }
}

/// Whether the offset of cell (x, y, z) comes before (dy, dx, dz) in the placement order
/// (dy outermost, then dx, then dz).
pub open spec fn placed_before(
    tree: Tree,
    cx: int,
    cz: int,
    x: int,
    y: int,
    z: int,
    dy: int,
    dx: int,
    dz: int,
) -> bool {
    let ox = cx * 16 + x - tree.world_x;
    let oy = y - tree.world_y;
    let oz = cz * 16 + z - tree.world_z;
    near_trunk(ox, oz) && 0 <= oy && (oy < dy || (oy == dy && (ox < dx || (ox == dx && oz < dz))))
}

/// Tree density of a biome in trees per ten thousand grid points.
pub open spec fn density_per_10k(biome: BiomeId) -> u64 {
    match biome {
        BiomeId::Forest | BiomeId::BirchForest | BiomeId::RainForest => 1500,
        BiomeId::Plains => 200,
        BiomeId::Hills => 500,
        BiomeId::IcePlains | BiomeId::IceMountains | BiomeId::Tundra => 300,
        _ => 0,
    }
}

/// Every biome that grows trees has a tree kind and no other does: `for_biome` is `Some`
/// exactly where the density is positive; plains, forests, hills and rain forests grow oak.
pub proof fn law_tree_kind_where_trees_grow(biome: BiomeId)
    ensures
        spec_for_biome(biome) is Some <==> density_per_10k(biome) > 0,
        (biome == BiomeId::Plains || biome == BiomeId::Forest || biome == BiomeId::Hills || biome
            == BiomeId::RainForest) ==> spec_for_biome(biome) == Some(TreeType::Oak),
        biome == BiomeId::BirchForest ==> spec_for_biome(biome) == Some(TreeType::Birch),
        (biome == BiomeId::IcePlains || biome == BiomeId::IceMountains || biome == BiomeId::Tundra) ==> spec_for_biome(
            biome,
        ) == Some(TreeType::Pine),
{
}

fn density_of(biome: BiomeId) -> (res: u64)
    ensures
        res == density_per_10k(biome),
{
    match biome {
        BiomeId::Forest | BiomeId::BirchForest | BiomeId::RainForest => 1500,
        BiomeId::Plains => 200,
        BiomeId::Hills => 500,
        BiomeId::IcePlains | BiomeId::IceMountains | BiomeId::Tundra => 300,
        _ => 0,
    }
}

/// The pseudo-random seed of a chunk.
pub open spec fn chunk_seed(world_seed: u64, chunk_x: i32, chunk_z: i32) -> u64 {
    world_seed.wrapping_add((chunk_x as u64).wrapping_mul(374761393)).wrapping_add(
        (chunk_z as u64).wrapping_mul(668265263),
    )
}

/// The pseudo-random seed of a grid point of a chunk.
pub open spec fn point_seed(seed: u64, x: u64, z: u64) -> u64 {
    seed.wrapping_add(x.wrapping_mul(134775813)).wrapping_add(z.wrapping_mul(1103515245))
}

/// The grid points among the first `n` (x outer, z inner, every fourth block) that grow a
/// tree.
pub open spec fn tree_points(seed: u64, density: u64, n: int) -> Seq<(usize, usize)>
    decreases n,
{
    if n <= 0 {
        Seq::empty()
    } else {
        let i = n - 1;
        let x = 4 * (i / 4);
        let z = 4 * (i % 4);
        let prev = tree_points(seed, density, i);
        if point_seed(seed, x as u64, z as u64) % 10000 < density {
            prev.push((x as usize, z as usize))
        } else {
            prev
        }
    }
}

/// Grid positions (every fourth block in x and z) of the trees of a chunk: a grid point gets
/// a tree when its seed, taken modulo 10000, is below the biome's density per ten thousand
/// (15% in forests, 2% on plains, 5% in hills, 3% in icy biomes). Biomes without trees get
/// none.
pub fn generate_tree_positions(
    world_seed: u64,
    chunk_x: i32,
    chunk_z: i32,
    biome: BiomeId,
    surface_height: usize,
) -> (res: Vec<(usize, usize)>)
    ensures
        spec_for_biome(biome).is_none() ==> res@.len() == 0,
        spec_for_biome(biome).is_some() ==> res@ == tree_points(
            chunk_seed(world_seed, chunk_x, chunk_z),
            density_per_10k(biome),
            16,
        ),
{
    if TreeType::for_biome(biome).is_none() {
        return Vec::new();
    }
    let mut positions: Vec<(usize, usize)> = Vec::new();
    let seed = world_seed.wrapping_add((chunk_x as u64).wrapping_mul(374761393)).wrapping_add(
        (chunk_z as u64).wrapping_mul(668265263),
    );
    let tree_density = density_of(biome);
    let mut x: usize = 0;
    while x < CHUNK_SIZE_X
        invariant
            x % 4 == 0,
            x <= CHUNK_SIZE_X,
            seed == chunk_seed(world_seed, chunk_x, chunk_z),
            tree_density == density_per_10k(biome),
            positions@ == tree_points(seed, tree_density, (x / 4 * 4) as int),
        decreases CHUNK_SIZE_X - x,
    {
        let mut z: usize = 0;
        while z < CHUNK_SIZE_Z
            invariant
                x % 4 == 0,
                x < CHUNK_SIZE_X,
                z % 4 == 0,
                z <= CHUNK_SIZE_Z,
                positions@ == tree_points(seed, tree_density, (x / 4 * 4 + z / 4) as int),
            decreases CHUNK_SIZE_Z - z,
        {
            let pos_seed = seed.wrapping_add((x as u64).wrapping_mul(134775813)).wrapping_add(
                (z as u64).wrapping_mul(1103515245),
            );
            proof {
                let i = (x / 4 * 4 + z / 4) as int;
                assert(4 * (i / 4) == x && 4 * (i % 4) == z);
            }
            if pos_seed % 10000 < tree_density {
                positions.push((x, z));
            }
            z = z + 4;
        }
        x = x + 4;
    }
    positions
}

} // verus!
