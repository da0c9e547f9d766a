//! Block interaction: block-state encodings of interactive blocks, block classification,
//! stairs corner shapes, door / gate / trapdoor toggling and bed sleeping.

use vstd::prelude::*;

verus! {

use crate::bits::{
    field, flag, lemma_and_bound, lemma_field_bound, lemma_field_masks, lemma_low_field,
    lemma_small_fits, lemma_with_field, lemma_with_flag, with_flag,
};
use crate::chunk::{
    in_chunk, is_crop, is_farmland, is_fluid, lemma_voxel_index_bounds,
    lemma_voxel_index_injective, spec_is_crop, spec_is_farmland, spec_is_fluid, voxel_index,
    BlockId, BlockState, ChunkMap, ChunkPos, ChunkPosSet, Voxel, BLOCK_AIR, BLOCK_BREWING_STAND,
    BLOCK_BROWN_MUSHROOM, BLOCK_CAVE_VINES, BLOCK_ENCHANTING_TABLE, BLOCK_GLOW_LICHEN,
    BLOCK_HANGING_ROOTS, BLOCK_MOSS_CARPET, BLOCK_POINTED_DRIPSTONE, BLOCK_SCULK_VEIN, BLOCK_SNOW,
    BLOCK_SPORE_BLOSSOM, BLOCK_SUGAR_CANE, BLOCK_WATER, CHUNK_SIZE_Y, CHUNK_VOLUME, BLOCK_FARMLAND,
    BLOCK_FARMLAND_WET,
};
use crate::interactive_blocks;
use crate::redstone_blocks;

/// Horizontal facing of a block.
#[derive(Debug, Clone, Copy, PartialEq, Eq, Hash, Structural)]
pub enum Facing {
    North,
    South,
    East,
    West,
}

/// The facing encoded by two state bits (0..=3).
pub open spec fn spec_facing_of(bits: u16) -> Facing {
    if bits == 0 {
        Facing::North
    } else if bits == 1 {
        Facing::South
    } else if bits == 2 {
        Facing::East
    } else {
        Facing::West
    }
}

/// The two state bits of a facing.
pub open spec fn spec_facing_bits(f: Facing) -> u16 {
    match f {
        Facing::North => 0,
        Facing::South => 1,
        Facing::East => 2,
        Facing::West => 3,
    }
}

pub open spec fn spec_opposite(f: Facing) -> Facing {
    match f {
        Facing::North => Facing::South,
        Facing::South => Facing::North,
        Facing::East => Facing::West,
        Facing::West => Facing::East,
    }
}

/// 90° counterclockwise.
pub open spec fn spec_left(f: Facing) -> Facing {
    match f {
        Facing::North => Facing::West,
        Facing::South => Facing::East,
        Facing::East => Facing::North,
        Facing::West => Facing::South,
    }
}

/// 90° clockwise.
pub open spec fn spec_right(f: Facing) -> Facing {
    match f {
        Facing::North => Facing::East,
        Facing::South => Facing::West,
        Facing::East => Facing::South,
        Facing::West => Facing::North,
    }
}

/// Unit (dx, dz) step of a facing: north is -z, east is +x.
pub open spec fn spec_offset(f: Facing) -> (i32, i32) {
    match f {
        Facing::North => (0i32, -1i32),
        Facing::South => (0i32, 1i32),
        Facing::East => (1i32, 0i32),
        Facing::West => (-1i32, 0i32),
    }
}

impl Facing {
    /// Facing from the two low state bits.
    pub fn from_state(state: BlockState) -> (res: Self)
        ensures
            res == spec_facing_of(state & 3),
    {
        let bits = state & 0x03;
        proof {
            lemma_and_bound(state, 3);
        }
        if bits == 0 {
            Facing::North
        } else if bits == 1 {
            Facing::South
        } else if bits == 2 {
            Facing::East
        } else {
            Facing::West
        }
    }

    /// The two state bits of this facing.
    pub fn to_state(self) -> (res: BlockState)
        ensures
            res == spec_facing_bits(self),
            res <= 3,
    {
        match self {
            Facing::North => 0,
            Facing::South => 1,
            Facing::East => 2,
            Facing::West => 3,
        }
    }

    /// The opposite facing.
    pub fn opposite(self) -> (res: Self)
        ensures
            res == spec_opposite(self),
    {
        match self {
            Facing::North => Facing::South,
            Facing::South => Facing::North,
            Facing::East => Facing::West,
            Facing::West => Facing::East,
        }
    }

    /// Rotate 90° counterclockwise (turn left).
    pub fn left(self) -> (res: Self)
        ensures
            res == spec_left(self),
    {
        match self {
            Facing::North => Facing::West,
            Facing::South => Facing::East,
            Facing::East => Facing::North,
            Facing::West => Facing::South,
        }
    }

    /// Rotate 90° clockwise (turn right).
    pub fn right(self) -> (res: Self)
        ensures
            res == spec_right(self),
    {
        match self {
            Facing::North => Facing::East,
            Facing::South => Facing::West,
            Facing::East => Facing::South,
            Facing::West => Facing::North,
        }
    }

    /// Unit (dx, dz) step of this facing.
    pub fn offset(self) -> (res: (i32, i32))
        ensures
            res == spec_offset(self),
    {
        match self {
            Facing::North => (0, -1),
            Facing::South => (0, 1),
            Facing::East => (1, 0),
            Facing::West => (-1, 0),
        }
    }
}

/// Decoding the bits of a facing gives the facing back.
pub proof fn law_facing_state_roundtrip(f: Facing)
    ensures
        spec_facing_of(spec_facing_bits(f)) == f,
        spec_facing_bits(f) & 3 == spec_facing_bits(f),
{
    lemma_small_fits(spec_facing_bits(f));
}

/// Turning around twice, or left then right, changes nothing; opposite steps cancel.
pub proof fn law_facing_rotations(f: Facing)
    ensures
        spec_opposite(spec_opposite(f)) == f,
        spec_left(spec_right(f)) == f,
        spec_right(spec_left(f)) == f,
        spec_left(spec_left(f)) == spec_opposite(f),
        spec_offset(spec_opposite(f)).0 == -spec_offset(f).0,
        spec_offset(spec_opposite(f)).1 == -spec_offset(f).1,
{
}

pub const WALL_MOUNT_BIT: BlockState = 0x20;
pub const WALL_MOUNT_FACING_SHIFT: u16 = 6;
pub const CEILING_MOUNT_BIT: BlockState = 0x100;

/// Whether the wall-mount bit is set.
pub open spec fn spec_is_wall_mounted(state: BlockState) -> bool {
    flag(state, 0x20)
}

/// Whether the ceiling-mount bit is set.
pub open spec fn spec_is_ceiling_mounted(state: BlockState) -> bool {
    flag(state, 0x100)
}

/// Facing stored for wall-mounted blocks (two bits at offset 6).
pub open spec fn spec_wall_mounted_facing(state: BlockState) -> Facing {
    spec_facing_of(field(state, 3, 6))
}

/// Check if a block is wall-mounted.
pub fn is_wall_mounted(state: BlockState) -> (res: bool)
    ensures
        res == spec_is_wall_mounted(state),
{
    (state & WALL_MOUNT_BIT) != 0
}

/// Facing of a wall-mounted block (meaningful when wall-mounted).
pub fn wall_mounted_facing(state: BlockState) -> (res: Facing)
    ensures
        res == spec_wall_mounted_facing(state),
{
    proof {
        lemma_field_masks();
        lemma_field_bound(state, 3, 6);
    }
    let bits = (state & 0xC0) >> WALL_MOUNT_FACING_SHIFT;
    assert(bits & 3 == bits);
    Facing::from_state(bits)
}

proof fn lemma_mount_bits(s: u16)
    by (bit_vector)
    ensures
        (((s | 0x20) & !0x100u16) & 0x20) != 0,
        (((s | 0x20) & !0x100u16) & 0x100) == 0,
        (((s | 0x20) & !0x100u16) & !0x120u16) == s & !0x120u16,
        ((s & !0x20u16) & 0x20) == 0,
        ((s & !0x20u16) & 0x100) == s & 0x100,
        ((s & !0x20u16) & !0x120u16) == s & !0x120u16,
        (((s | 0x100) & !0x20u16) & 0x100) != 0,
        (((s | 0x100) & !0x20u16) & 0x20) == 0,
        (((s | 0x100) & !0x20u16) & !0x120u16) == s & !0x120u16,
        ((s & !0x100u16) & 0x100) == 0,
        ((s & !0x100u16) & 0x20) == s & 0x20,
        ((s & !0x100u16) & !0x120u16) == s & !0x120u16,
{
}

/// Set whether a block is wall-mounted; mounting on a wall clears the ceiling mount.
pub fn set_wall_mounted(state: BlockState, wall: bool) -> (res: BlockState)
    ensures
        spec_is_wall_mounted(res) == wall,
        spec_is_ceiling_mounted(res) == (!wall && spec_is_ceiling_mounted(state)),
        res & !0x120u16 == state & !0x120u16,
{
    proof {
        lemma_mount_bits(state);
    }
    if wall {
        (state | WALL_MOUNT_BIT) & !CEILING_MOUNT_BIT
    } else {
        state & !WALL_MOUNT_BIT
    }
}

/// Set the facing of a wall-mounted block, keeping all other bits.
pub fn set_wall_mounted_facing(state: BlockState, facing: Facing) -> (res: BlockState)
    ensures
        spec_wall_mounted_facing(res) == facing,
        res & !0xC0u16 == state & !0xC0u16,
{
    let bits = facing.to_state() & 0x03;
    proof {
        law_facing_state_roundtrip(facing);
        lemma_field_masks();
        lemma_with_field(state, 3, 6, bits);
    }
    (state & !0xC0u16) | (bits << WALL_MOUNT_FACING_SHIFT)
}

/// A fresh wall-mounted state with the given facing.
pub fn wall_mount_state(facing: Facing) -> (res: BlockState)
    ensures
        spec_is_wall_mounted(res),
        !spec_is_ceiling_mounted(res),
        spec_wall_mounted_facing(res) == facing,
        res & !0x1E0u16 == 0,
{
    let s = set_wall_mounted(0, true);
    let r = set_wall_mounted_facing(s, facing);
    proof {
        assert(r & !0xC0u16 == s & !0xC0u16);
        assert(s & !0x120u16 == 0u16 & !0x120u16);
        lemma_wall_mount_state_bits(s, r);
    }
    r
}

proof fn lemma_wall_mount_state_bits(s: u16, r: u16)
    by (bit_vector)
    requires
        r & !0xC0u16 == s & !0xC0u16,
        s & !0x120u16 == 0u16 & !0x120u16,
        (s & 0x20) != 0,
        (s & 0x100) == 0,
    ensures
        (r & 0x20) != 0,
        (r & 0x100) == 0,
        r & !0x1E0u16 == 0,
{
}

/// Check if a block is ceiling-mounted.
pub fn is_ceiling_mounted(state: BlockState) -> (res: bool)
    ensures
        res == spec_is_ceiling_mounted(state),
{
    (state & CEILING_MOUNT_BIT) != 0
}

/// Set whether a block is ceiling-mounted; mounting on the ceiling clears the wall mount.
pub fn set_ceiling_mounted(state: BlockState, ceiling: bool) -> (res: BlockState)
    ensures
        spec_is_ceiling_mounted(res) == ceiling,
        spec_is_wall_mounted(res) == (!ceiling && spec_is_wall_mounted(state)),
        res & !0x120u16 == state & !0x120u16,
{
    proof {
        lemma_mount_bits(state);
    }
    if ceiling {
        (state | CEILING_MOUNT_BIT) & !WALL_MOUNT_BIT
    } else {
        state & !CEILING_MOUNT_BIT
    }
}

/// A fresh ceiling-mounted state.
pub fn ceiling_mount_state() -> (res: BlockState)
    ensures
        spec_is_ceiling_mounted(res),
        !spec_is_wall_mounted(res),
        res & !0x120u16 == 0u16 & !0x120u16,
{
    set_ceiling_mounted(0, true)
}

/// A block is never both wall- and ceiling-mounted after either setter mounts it.
pub proof fn law_mount_modes_exclusive(state: BlockState)
    ensures
        !(spec_is_wall_mounted(with_mount(state, true)) && spec_is_ceiling_mounted(
            with_mount(state, true),
        )),
        !(spec_is_wall_mounted(with_ceiling(state, true)) && spec_is_ceiling_mounted(
            with_ceiling(state, true),
        )),
{
    lemma_mount_bits(state);
}

/// What `set_wall_mounted` computes.
pub open spec fn with_mount(state: BlockState, wall: bool) -> BlockState {
    if wall {
        (state | 0x20) & !0x100u16
    } else {
        state & !0x20u16
    }
}

/// What `set_ceiling_mounted` computes.
pub open spec fn with_ceiling(state: BlockState, ceiling: bool) -> BlockState {
    if ceiling {
        (state | 0x100) & !0x20u16
    } else {
        state & !0x100u16
    }
}

/// Check if a torch is wall-mounted.
pub fn is_torch_wall(state: BlockState) -> (res: bool)
    ensures
        res == spec_is_wall_mounted(state),
{
    is_wall_mounted(state)
}

/// Facing of a wall torch.
pub fn torch_facing(state: BlockState) -> (res: Facing)
    ensures
        res == spec_wall_mounted_facing(state),
{
    wall_mounted_facing(state)
}

/// Set whether a torch is wall-mounted.
pub fn set_torch_wall(state: BlockState, wall: bool) -> (res: BlockState)
    ensures
        spec_is_wall_mounted(res) == wall,
        spec_is_ceiling_mounted(res) == (!wall && spec_is_ceiling_mounted(state)),
        res & !0x120u16 == state & !0x120u16,
{
    set_wall_mounted(state, wall)
}

/// Set the facing of a wall torch.
pub fn set_torch_facing(state: BlockState, facing: Facing) -> (res: BlockState)
    ensures
        spec_wall_mounted_facing(res) == facing,
        res & !0xC0u16 == state & !0xC0u16,
{
    set_wall_mounted_facing(state, facing)
}

/// A wall torch state with the given facing.
pub fn torch_wall_state(facing: Facing) -> (res: BlockState)
    ensures
        spec_is_wall_mounted(res),
        !spec_is_ceiling_mounted(res),
        spec_wall_mounted_facing(res) == facing,
        res & !0x1E0u16 == 0,
{
    wall_mount_state(facing)
}

/// Slab half (bit 2 of the state).
#[derive(Debug, Clone, Copy, PartialEq, Eq, Structural)]
pub enum SlabPosition {
    Bottom,
    Top,
}

impl SlabPosition {
    /// Slab half from the state.
    pub fn from_state(state: BlockState) -> (res: Self)
        ensures
            res == (if flag(state, 0x04) {
                SlabPosition::Top
            } else {
                SlabPosition::Bottom
            }),
    {
        if (state & 0x04) != 0 {
            SlabPosition::Top
        } else {
            SlabPosition::Bottom
        }
    }

    /// Write this half into a state, keeping the other bits.
    pub fn to_state(self, state: BlockState) -> (res: BlockState)
        ensures
            flag(res, 0x04) == (self == SlabPosition::Top),
            res & !0x04u16 == state & !0x04u16,
    {
        proof {
            lemma_with_flag(state, 0x04, self == SlabPosition::Top);
        }
        match self {
            SlabPosition::Bottom => state & !0x04u16,
            SlabPosition::Top => state | 0x04,
        }
    }
}

pub const SNOW_LAYERS_MIN: u8 = 1;
pub const SNOW_LAYERS_MAX: u8 = 8;

/// Number of snow layers (1..=8) stored in the low three bits.
pub open spec fn spec_snow_layers(state: BlockState) -> int {
    (state & 7) + 1
}

/// Get the number of snow layers encoded in a state (1..=8).
pub fn snow_layers(state: BlockState) -> (res: u8)
    ensures
        res == spec_snow_layers(state),
        1 <= res <= 8,
{
    proof {
        lemma_and_bound(state, 7);
    }
    let low = (state & 0x07) as u8;
    let m = if low < SNOW_LAYERS_MAX - 1 {
        low
    } else {
        SNOW_LAYERS_MAX - 1
    };
    m + 1
}

/// Set the snow layers (clamped to 1..=8), keeping the other bits.
pub fn set_snow_layers(state: BlockState, layers: u8) -> (res: BlockState)
    ensures
        spec_snow_layers(res) == (if layers < 1 {
            1
        } else if layers > 8 {
            8
        } else {
            layers as int
        }),
        res & !7u16 == state & !7u16,
{
    let l = if layers < SNOW_LAYERS_MIN {
        SNOW_LAYERS_MIN
    } else if layers > SNOW_LAYERS_MAX {
        SNOW_LAYERS_MAX
    } else {
        layers
    };
    let v = (l - 1) as BlockState;
    proof {
        lemma_small_fits(v);
        lemma_low_field(state, 7, v);
    }
    (state & !7u16) | v
}

/// Whether a door is open (bit 3).
pub open spec fn spec_is_door_open(state: BlockState) -> bool {
    flag(state, 0x08)
}

/// Check if a door state is open.
pub fn is_door_open(state: BlockState) -> (res: bool)
    ensures
        res == spec_is_door_open(state),
{
    (state & 0x08) != 0
}

/// Set a door open or closed, keeping the other bits.
pub fn set_door_open(state: BlockState, open: bool) -> (res: BlockState)
    ensures
        spec_is_door_open(res) == open,
        res & !0x08u16 == state & !0x08u16,
        res == with_flag(state, 0x08, open),
{
    proof {
        lemma_with_flag(state, 0x08, open);
    }
    if open {
        state | 0x08
    } else {
        state & !0x08u16
    }
}

pub const REDSTONE_POWERED_BIT: BlockState = 0x10;
pub const WATERLOGGED_BIT: BlockState = 0x8000;

/// Whether the redstone-powered bit (bit 4) is set.
pub open spec fn spec_is_redstone_powered(state: BlockState) -> bool {
    flag(state, 0x10)
}

/// Check whether a block is powered by redstone.
pub fn is_redstone_powered(state: BlockState) -> (res: bool)
    ensures
        res == spec_is_redstone_powered(state),
{
    (state & REDSTONE_POWERED_BIT) != 0
}

/// Set whether a block is powered by redstone, keeping the other bits.
pub fn set_redstone_powered(state: BlockState, powered: bool) -> (res: BlockState)
    ensures
        spec_is_redstone_powered(res) == powered,
        res & !0x10u16 == state & !0x10u16,
        res == with_flag(state, 0x10, powered),
{
    proof {
        lemma_with_flag(state, 0x10, powered);
    }
    if powered {
        state | REDSTONE_POWERED_BIT
    } else {
        state & !REDSTONE_POWERED_BIT
    }
}

/// Check whether a block state is waterlogged (bit 15).
pub fn is_waterlogged(state: BlockState) -> (res: bool)
    ensures
        res == flag(state, 0x8000),
{
    (state & WATERLOGGED_BIT) != 0
}

/// Set whether a block state is waterlogged, keeping the other bits.
pub fn set_waterlogged(state: BlockState, waterlogged: bool) -> (res: BlockState)
    ensures
        flag(res, 0x8000) == waterlogged,
        res & !0x8000u16 == state & !0x8000u16,
{
    proof {
        lemma_with_flag(state, 0x8000, waterlogged);
    }
    if waterlogged {
        state | WATERLOGGED_BIT
    } else {
        state & !WATERLOGGED_BIT
    }
}

pub open spec fn spec_is_door(id: BlockId) -> bool {
    id == interactive_blocks::OAK_DOOR_LOWER || id == interactive_blocks::OAK_DOOR_UPPER
        || id == interactive_blocks::IRON_DOOR_LOWER || id == interactive_blocks::IRON_DOOR_UPPER
}

pub open spec fn spec_is_door_lower(id: BlockId) -> bool {
    id == interactive_blocks::OAK_DOOR_LOWER || id == interactive_blocks::IRON_DOOR_LOWER
}

pub open spec fn spec_is_door_upper(id: BlockId) -> bool {
    id == interactive_blocks::OAK_DOOR_UPPER || id == interactive_blocks::IRON_DOOR_UPPER
}

pub open spec fn spec_is_iron_door(id: BlockId) -> bool {
    id == interactive_blocks::IRON_DOOR_LOWER || id == interactive_blocks::IRON_DOOR_UPPER
}

pub open spec fn spec_is_slab(id: BlockId) -> bool {
    id == interactive_blocks::STONE_SLAB || id == interactive_blocks::OAK_SLAB || id
        == interactive_blocks::STONE_BRICK_SLAB
}

pub open spec fn spec_is_stairs(id: BlockId) -> bool {
    id == interactive_blocks::STONE_STAIRS || id == interactive_blocks::OAK_STAIRS || id
        == interactive_blocks::STONE_BRICK_STAIRS
}

pub open spec fn spec_is_bed(id: BlockId) -> bool {
    id == interactive_blocks::BED_HEAD || id == interactive_blocks::BED_FOOT
}

pub open spec fn spec_is_wall_like(id: BlockId) -> bool {
    id == interactive_blocks::GLASS_PANE || id == interactive_blocks::IRON_BARS || id
        == interactive_blocks::COBBLESTONE_WALL || id == interactive_blocks::STONE_BRICK_WALL
}

/// Whether a block can hold water in its state.
pub open spec fn spec_supports_waterlogging(id: BlockId) -> bool {
    spec_is_slab(id) || spec_is_stairs(id) || id == interactive_blocks::TRAPDOOR || id
        == interactive_blocks::OAK_FENCE || id == interactive_blocks::OAK_FENCE_GATE
        || spec_is_wall_like(id)
}

/// Return whether the given block supports waterlogging.
pub fn block_supports_waterlogging(block_id: BlockId) -> (res: bool)
    ensures
        res == spec_supports_waterlogging(block_id),
{
    is_slab(block_id) || is_stairs(block_id) || is_trapdoor(block_id) || is_fence(block_id)
        || is_fence_gate(block_id) || block_id == interactive_blocks::GLASS_PANE || block_id
        == interactive_blocks::IRON_BARS || block_id == interactive_blocks::COBBLESTONE_WALL
        || block_id == interactive_blocks::STONE_BRICK_WALL
}

/// Blocks that are never treated as full cubes for connectivity.
pub open spec fn spec_is_thin_decoration(id: BlockId) -> bool {
    id == interactive_blocks::TORCH || spec_is_wall_like(id) || id == redstone_blocks::LEVER
        || id == redstone_blocks::STONE_BUTTON || id == redstone_blocks::OAK_BUTTON || id
        == redstone_blocks::STONE_PRESSURE_PLATE || id == redstone_blocks::OAK_PRESSURE_PLATE
        || id == redstone_blocks::REDSTONE_WIRE || id == redstone_blocks::REDSTONE_TORCH || id
        == redstone_blocks::REDSTONE_REPEATER || id == redstone_blocks::REDSTONE_COMPARATOR || id
        == BLOCK_ENCHANTING_TABLE || id == BLOCK_BREWING_STAND || id == BLOCK_SUGAR_CANE || id
        == BLOCK_BROWN_MUSHROOM || id == BLOCK_GLOW_LICHEN || id == BLOCK_POINTED_DRIPSTONE || id
        == BLOCK_CAVE_VINES || id == BLOCK_MOSS_CARPET || id == BLOCK_SPORE_BLOSSOM || id
        == BLOCK_HANGING_ROOTS || id == BLOCK_SCULK_VEIN
}

/// Whether a block is a full cube for neighbour connectivity.
pub open spec fn spec_is_full_cube(id: BlockId) -> bool {
    !(id == BLOCK_AIR || spec_is_fluid(id) || spec_is_door(id) || id == interactive_blocks::TRAPDOOR
        || id == interactive_blocks::LADDER || spec_is_slab(id) || spec_is_stairs(id) || id
        == interactive_blocks::OAK_FENCE || id == interactive_blocks::OAK_FENCE_GATE
        || spec_is_bed(id) || id == interactive_blocks::CHEST || spec_is_crop(id)
        || spec_is_farmland(id) || spec_is_thin_decoration(id))
}

fn is_thin_decoration(block_id: BlockId) -> (res: bool)
    ensures
        res == spec_is_thin_decoration(block_id),
{
    block_id == interactive_blocks::TORCH || block_id == interactive_blocks::GLASS_PANE
        || block_id == interactive_blocks::IRON_BARS || block_id
        == interactive_blocks::COBBLESTONE_WALL || block_id == interactive_blocks::STONE_BRICK_WALL
        || block_id == redstone_blocks::LEVER || block_id == redstone_blocks::STONE_BUTTON
        || block_id == redstone_blocks::OAK_BUTTON || block_id
        == redstone_blocks::STONE_PRESSURE_PLATE || block_id
        == redstone_blocks::OAK_PRESSURE_PLATE || block_id == redstone_blocks::REDSTONE_WIRE
        || block_id == redstone_blocks::REDSTONE_TORCH || block_id
        == redstone_blocks::REDSTONE_REPEATER || block_id == redstone_blocks::REDSTONE_COMPARATOR
        || block_id == BLOCK_ENCHANTING_TABLE || block_id == BLOCK_BREWING_STAND || block_id
        == BLOCK_SUGAR_CANE || block_id == BLOCK_BROWN_MUSHROOM || block_id == BLOCK_GLOW_LICHEN
        || block_id == BLOCK_POINTED_DRIPSTONE || block_id == BLOCK_CAVE_VINES || block_id
        == BLOCK_MOSS_CARPET || block_id == BLOCK_SPORE_BLOSSOM || block_id == BLOCK_HANGING_ROOTS
        || block_id == BLOCK_SCULK_VEIN
}

/// Whether a block counts as a full cube for connectivity checks (not the same as collision).
pub fn is_full_cube_block(block_id: BlockId) -> (res: bool)
    ensures
        res == spec_is_full_cube(block_id),
{
    if block_id == BLOCK_AIR {
        return false;
    }
    if is_fluid(block_id) {
        return false;
    }
    if is_door(block_id) || is_trapdoor(block_id) || is_ladder(block_id) || is_slab(block_id)
        || is_stairs(block_id) || is_fence(block_id) || is_fence_gate(block_id) || is_bed(
        block_id,
    ) || is_chest(block_id) || is_crop(block_id) || is_farmland(block_id) {
        return false;
    }
    if is_thin_decoration(block_id) {
        return false;
    }
    true
}

/// Check if a block is a door (upper or lower).
pub fn is_door(block_id: BlockId) -> (res: bool)
    ensures
        res == spec_is_door(block_id),
{
    block_id == interactive_blocks::OAK_DOOR_LOWER || block_id == interactive_blocks::OAK_DOOR_UPPER
        || block_id == interactive_blocks::IRON_DOOR_LOWER || block_id
        == interactive_blocks::IRON_DOOR_UPPER
}

/// Check if a block is the lower half of a door.
pub fn is_door_lower(block_id: BlockId) -> (res: bool)
    ensures
        res == spec_is_door_lower(block_id),
{
    block_id == interactive_blocks::OAK_DOOR_LOWER || block_id == interactive_blocks::IRON_DOOR_LOWER
}

/// Check if a block is the upper half of a door.
pub fn is_door_upper(block_id: BlockId) -> (res: bool)
    ensures
        res == spec_is_door_upper(block_id),
{
    block_id == interactive_blocks::OAK_DOOR_UPPER || block_id == interactive_blocks::IRON_DOOR_UPPER
}

/// Check if a door is made of iron (opened only by redstone).
pub fn is_iron_door(block_id: BlockId) -> (res: bool)
    ensures
        res == spec_is_iron_door(block_id),
{
    block_id == interactive_blocks::IRON_DOOR_LOWER || block_id == interactive_blocks::IRON_DOOR_UPPER
}

/// Check if a block is a fence gate.
pub fn is_fence_gate(block_id: BlockId) -> (res: bool)
    ensures
        res == (block_id == interactive_blocks::OAK_FENCE_GATE),
{
    block_id == interactive_blocks::OAK_FENCE_GATE
}

/// Check if a fence gate is open (bit 3).
pub fn is_fence_gate_open(state: BlockState) -> (res: bool)
    ensures
        res == flag(state, 0x08),
{
    (state & 0x08) != 0
}

/// Set a fence gate open or closed, keeping the other bits.
pub fn set_fence_gate_open(state: BlockState, open: bool) -> (res: BlockState)
    ensures
        flag(res, 0x08) == open,
        res & !0x08u16 == state & !0x08u16,
        res == with_flag(state, 0x08, open),
{
    proof {
        lemma_with_flag(state, 0x08, open);
    }
    if open {
        state | 0x08
    } else {
        state & !0x08u16
    }
}

/// Check if a block is a trapdoor.
pub fn is_trapdoor(block_id: BlockId) -> (res: bool)
    ensures
        res == (block_id == interactive_blocks::TRAPDOOR),
{
    block_id == interactive_blocks::TRAPDOOR
}

/// Check if a trapdoor is open (bit 3).
pub fn is_trapdoor_open(state: BlockState) -> (res: bool)
    ensures
        res == flag(state, 0x08),
{
    (state & 0x08) != 0
}

/// Set a trapdoor open or closed, keeping the other bits.
pub fn set_trapdoor_open(state: BlockState, open: bool) -> (res: BlockState)
    ensures
        flag(res, 0x08) == open,
        res & !0x08u16 == state & !0x08u16,
        res == with_flag(state, 0x08, open),
{
    proof {
        lemma_with_flag(state, 0x08, open);
    }
    if open {
        state | 0x08
    } else {
        state & !0x08u16
    }
}

/// Check if a closed trapdoor sits in the top half (bit 2).
pub fn is_trapdoor_top(state: BlockState) -> (res: bool)
    ensures
        res == flag(state, 0x04),
{
    (state & 0x04) != 0
}

/// Set whether a closed trapdoor sits in the top half, keeping the other bits.
pub fn set_trapdoor_top(state: BlockState, top: bool) -> (res: BlockState)
    ensures
        flag(res, 0x04) == top,
        res & !0x04u16 == state & !0x04u16,
{
    proof {
        lemma_with_flag(state, 0x04, top);
    }
    if top {
        state | 0x04
    } else {
        state & !0x04u16
    }
}

/// Check if a block is a ladder.
pub fn is_ladder(block_id: BlockId) -> (res: bool)
    ensures
        res == (block_id == interactive_blocks::LADDER),
{
    block_id == interactive_blocks::LADDER
}

/// Check if a block is a slab.
pub fn is_slab(block_id: BlockId) -> (res: bool)
    ensures
        res == spec_is_slab(block_id),
{
    block_id == interactive_blocks::STONE_SLAB || block_id == interactive_blocks::OAK_SLAB
        || block_id == interactive_blocks::STONE_BRICK_SLAB
}

/// Check if a block is stairs.
pub fn is_stairs(block_id: BlockId) -> (res: bool)
    ensures
        res == spec_is_stairs(block_id),
{
    block_id == interactive_blocks::STONE_STAIRS || block_id == interactive_blocks::OAK_STAIRS
        || block_id == interactive_blocks::STONE_BRICK_STAIRS
}

/// Check if a block is a fence.
pub fn is_fence(block_id: BlockId) -> (res: bool)
    ensures
        res == (block_id == interactive_blocks::OAK_FENCE),
{
    block_id == interactive_blocks::OAK_FENCE
}

/// Check if a block is part of a bed.
pub fn is_bed(block_id: BlockId) -> (res: bool)
    ensures
        res == spec_is_bed(block_id),
{
    block_id == interactive_blocks::BED_HEAD || block_id == interactive_blocks::BED_FOOT
}

/// Check if a block is a chest.
pub fn is_chest(block_id: BlockId) -> (res: bool)
    ensures
        res == (block_id == interactive_blocks::CHEST),
{
    block_id == interactive_blocks::CHEST
}

/// Whether a block has full-block collision (the `Full` collision kind).
pub open spec fn spec_has_full_collision(id: BlockId, state: BlockState) -> bool {
    if id == BLOCK_AIR || id == BLOCK_WATER || id == BLOCK_SNOW || spec_is_farmland(id) || id
        == BLOCK_ENCHANTING_TABLE || id == BLOCK_BREWING_STAND || spec_is_door(id) || id
        == interactive_blocks::LADDER || id == interactive_blocks::COBBLESTONE_WALL || id
        == interactive_blocks::STONE_BRICK_WALL || id == interactive_blocks::OAK_FENCE || id
        == interactive_blocks::OAK_FENCE_GATE || id == interactive_blocks::TRAPDOOR
        || spec_is_slab(id) || spec_is_stairs(id) || spec_is_bed(id) {
        false
    } else if id == interactive_blocks::GLASS || id == interactive_blocks::GLASS_PANE {
        true
    } else {
        !(id == interactive_blocks::TORCH || id == interactive_blocks::CHEST)
    }
}

/// Whether a block has full-block collision (the `Full` collision kind).
pub fn has_full_collision(block_id: BlockId, state: BlockState) -> (res: bool)
    ensures
        res == spec_has_full_collision(block_id, state),
{
    if block_id == BLOCK_AIR || block_id == BLOCK_WATER || block_id == BLOCK_SNOW || is_farmland(
        block_id,
    ) || block_id == BLOCK_ENCHANTING_TABLE || block_id == BLOCK_BREWING_STAND || is_door(block_id)
        || is_ladder(block_id) || block_id == interactive_blocks::COBBLESTONE_WALL || block_id
        == interactive_blocks::STONE_BRICK_WALL || is_fence(block_id) || is_fence_gate(block_id)
        || is_trapdoor(block_id) || is_slab(block_id) || is_stairs(block_id) || is_bed(block_id) {
        false
    } else if block_id == interactive_blocks::GLASS || block_id == interactive_blocks::GLASS_PANE {
        true
    } else {
        !(block_id == interactive_blocks::TORCH || block_id == interactive_blocks::CHEST)
    }
}

/// Stairs corner shape.
#[derive(Debug, Clone, Copy, PartialEq, Eq, Structural)]
pub enum StairsShape {
    Straight,
    InnerLeft,
    InnerRight,
    OuterLeft,
    OuterRight,
}

/// Whether stairs sit in the top half (bit 2).
pub open spec fn spec_is_stairs_top(state: BlockState) -> bool {
    flag(state, 0x04)
}

fn is_stairs_top(state: BlockState) -> (res: bool)
    ensures
        res == spec_is_stairs_top(state),
{
    (state & 0x04) != 0
}

/// North-south axis is 0, east-west axis is 1.
pub open spec fn spec_facing_axis(f: Facing) -> u8 {
    match f {
        Facing::North | Facing::South => 0,
        Facing::East | Facing::West => 1,
    }
}

fn facing_axis(facing: Facing) -> (res: u8)
    ensures
        res == spec_facing_axis(facing),
{
    match facing {
        Facing::North | Facing::South => 0,
        Facing::East | Facing::West => 1,
    }
}

/// The four horizontal neighbours of a stair, by facing.
pub struct StairsNeighbors {
    pub north: Option<Voxel>,
    pub south: Option<Voxel>,
    pub east: Option<Voxel>,
    pub west: Option<Voxel>,
}

pub open spec fn spec_neighbor(n: StairsNeighbors, dir: Facing) -> Option<Voxel> {
    match dir {
        Facing::North => n.north,
        Facing::South => n.south,
        Facing::East => n.east,
        Facing::West => n.west,
    }
}

/// Facing of a neighbouring stair of the same half, if it is one.
pub open spec fn spec_neighbor_stairs_facing(v: Voxel, top: bool) -> Option<Facing> {
    if spec_is_stairs(v.id) && spec_is_stairs_top(v.state) == top {
        Some(spec_facing_of(v.state & 3))
    } else {
        None
    }
}

/// Whether the neighbour in `dir` is not a same-half stair facing `facing`.
pub open spec fn spec_is_different_stairs(
    n: StairsNeighbors,
    dir: Facing,
    facing: Facing,
    top: bool,
) -> bool {
    match spec_neighbor(n, dir) {
        None => true,
        Some(v) => match spec_neighbor_stairs_facing(v, top) {
            None => true,
            Some(f) => f != facing,
        },
    }
}

/// Outer corner from the stair in front, if any.
pub open spec fn spec_outer_corner(stair: Voxel, n: StairsNeighbors) -> Option<StairsShape> {
    let facing = spec_facing_of(stair.state & 3);
    let top = spec_is_stairs_top(stair.state);
    match spec_neighbor(n, facing) {
        Some(front) => match spec_neighbor_stairs_facing(front, top) {
            Some(ff) => if spec_facing_axis(ff) != spec_facing_axis(facing)
                && spec_is_different_stairs(n, spec_opposite(ff), facing, top) {
                if ff == spec_left(facing) {
                    Some(StairsShape::OuterLeft)
                } else if ff == spec_right(facing) {
                    Some(StairsShape::OuterRight)
                } else {
                    None
                }
            } else {
                None
            },
            None => None,
        },
        None => None,
    }
}

/// Inner corner from the stair behind, if any.
pub open spec fn spec_inner_corner(stair: Voxel, n: StairsNeighbors) -> Option<StairsShape> {
    let facing = spec_facing_of(stair.state & 3);
    let top = spec_is_stairs_top(stair.state);
    match spec_neighbor(n, spec_opposite(facing)) {
        Some(back) => match spec_neighbor_stairs_facing(back, top) {
            Some(bf) => if spec_facing_axis(bf) != spec_facing_axis(facing)
                && spec_is_different_stairs(n, bf, facing, top) {
                if bf == spec_left(facing) {
                    Some(StairsShape::InnerLeft)
                } else if bf == spec_right(facing) {
                    Some(StairsShape::InnerRight)
                } else {
                    None
                }
            } else {
                None
            },
            None => None,
        },
        None => None,
    }
}

/// Corner shape of a stair: outer corner from the front neighbour, else inner corner from the
/// back neighbour, else straight.
pub open spec fn spec_stairs_shape(stair: Voxel, n: StairsNeighbors) -> StairsShape {
    match spec_outer_corner(stair, n) {
        Some(s) => s,
        None => match spec_inner_corner(stair, n) {
            Some(s) => s,
            None => StairsShape::Straight,
        },
    }
}

/// A stair with a same-half stair in front of it that faces its right turns its outer corner
/// right, and one that faces its left turns it left, unless the cell beside that front stair,
/// on the stair's own line, holds a same-half stair facing the same way.
pub proof fn law_outer_corner_turns_toward_front_stair(stair: Voxel, n: StairsNeighbors, front: Voxel)
    requires
        spec_neighbor(n, spec_facing_of(stair.state & 3)) == Some(front),
        spec_is_stairs(front.id),
        spec_is_stairs_top(front.state) == spec_is_stairs_top(stair.state),
    ensures
        ({
            let facing = spec_facing_of(stair.state & 3);
            let top = spec_is_stairs_top(stair.state);
            let ff = spec_facing_of(front.state & 3);
            &&& ff == spec_right(facing) && spec_is_different_stairs(n, spec_left(facing), facing, top)
                ==> spec_stairs_shape(stair, n) == StairsShape::OuterRight
            &&& ff == spec_left(facing) && spec_is_different_stairs(n, spec_right(facing), facing, top)
                ==> spec_stairs_shape(stair, n) == StairsShape::OuterLeft
        }),
{
}

/// A stair with nothing in front of it or behind it is straight.
pub proof fn law_lone_stair_is_straight(stair: Voxel, n: StairsNeighbors)
    requires
        spec_neighbor(n, spec_facing_of(stair.state & 3)) is None,
        spec_neighbor(n, spec_opposite(spec_facing_of(stair.state & 3))) is None,
    ensures
        spec_stairs_shape(stair, n) == StairsShape::Straight,
{
}

/// A stair with nothing in front of it turns its inner corner toward a same-half stair
/// behind it that faces its right or its left, unless the cell on that side holds a
/// same-half stair facing the same way.
pub proof fn law_inner_corner_turns_toward_back_stair(stair: Voxel, n: StairsNeighbors, back: Voxel)
    requires
        spec_neighbor(n, spec_facing_of(stair.state & 3)) is None,
        spec_neighbor(n, spec_opposite(spec_facing_of(stair.state & 3))) == Some(back),
        spec_is_stairs(back.id),
        spec_is_stairs_top(back.state) == spec_is_stairs_top(stair.state),
    ensures
        ({
            let facing = spec_facing_of(stair.state & 3);
            let top = spec_is_stairs_top(stair.state);
            let bf = spec_facing_of(back.state & 3);
            &&& bf == spec_right(facing) && spec_is_different_stairs(n, spec_right(facing), facing, top)
                ==> spec_stairs_shape(stair, n) == StairsShape::InnerRight
            &&& bf == spec_left(facing) && spec_is_different_stairs(n, spec_left(facing), facing, top)
                ==> spec_stairs_shape(stair, n) == StairsShape::InnerLeft
        }),
{
}

fn neighbor_of(n: &StairsNeighbors, dir: Facing) -> (res: Option<Voxel>)
    ensures
        res == spec_neighbor(*n, dir),
{
    match dir {
        Facing::North => n.north,
        Facing::South => n.south,
        Facing::East => n.east,
        Facing::West => n.west,
    }
}

fn neighbor_stairs_facing(v: Voxel, top: bool) -> (res: Option<Facing>)
    ensures
        res == spec_neighbor_stairs_facing(v, top),
{
    if !is_stairs(v.id) {
        return None;
    }
    if is_stairs_top(v.state) != top {
        return None;
    }
    Some(Facing::from_state(v.state))
}

fn is_different_stairs(n: &StairsNeighbors, dir: Facing, facing: Facing, top: bool) -> (res: bool)
    ensures
        res == spec_is_different_stairs(*n, dir, facing, top),
{
    match neighbor_of(n, dir) {
        None => true,
        Some(v) => match neighbor_stairs_facing(v, top) {
            None => true,
            Some(f) => f != facing,
        },
    }
}

/// Corner shape of a stair given its four horizontal neighbours.
pub fn stairs_shape_from_neighbors(stair: Voxel, n: &StairsNeighbors) -> (res: StairsShape)
    ensures
        res == spec_stairs_shape(stair, *n),
{
    let facing = Facing::from_state(stair.state);
    let top = is_stairs_top(stair.state);
    if let Some(front) = neighbor_of(n, facing) {
        if let Some(front_facing) = neighbor_stairs_facing(front, top) {
            if facing_axis(front_facing) != facing_axis(facing) && is_different_stairs(
                n,
                front_facing.opposite(),
                facing,
                top,
            ) {
                if front_facing == facing.left() {
                    return StairsShape::OuterLeft;
                }
                if front_facing == facing.right() {
                    return StairsShape::OuterRight;
                }
            }
        }
    }
    if let Some(back) = neighbor_of(n, facing.opposite()) {
        if let Some(back_facing) = neighbor_stairs_facing(back, top) {
            if facing_axis(back_facing) != facing_axis(facing) && is_different_stairs(
                n,
                back_facing,
                facing,
                top,
            ) {
                if back_facing == facing.left() {
                    return StairsShape::InnerLeft;
                }
                if back_facing == facing.right() {
                    return StairsShape::InnerRight;
                }
            }
        }
    }
    StairsShape::Straight
}

/// Corner shape of the stair at a world position, reading neighbours through `voxel_at_world`.
///
/// The neighbour lookup is expected to be a pure read of the world.
pub fn stairs_shape_at<F>(
    block_x: i32,
    block_y: i32,
    block_z: i32,
    stair: Voxel,
    voxel_at_world: &F,
) -> (res: StairsShape) where F: Fn(i32, i32, i32) -> Option<Voxel>
    requires
        spec_is_stairs(stair.id),
        i32::MIN < block_x < i32::MAX,
        i32::MIN < block_z < i32::MAX,
        forall|x: i32, y: i32, z: i32| call_requires(*voxel_at_world, (x, y, z)),
    ensures
        exists|n: StairsNeighbors|
            #![trigger spec_stairs_shape(stair, n)]
            call_ensures(*voxel_at_world, (block_x, block_y, (block_z - 1) as i32), n.north)
                && call_ensures(*voxel_at_world, (block_x, block_y, (block_z + 1) as i32), n.south)
                && call_ensures(*voxel_at_world, ((block_x + 1) as i32, block_y, block_z), n.east)
                && call_ensures(*voxel_at_world, ((block_x - 1) as i32, block_y, block_z), n.west) && res
                == spec_stairs_shape(stair, n),
{
    let north = voxel_at_world(block_x, block_y, (block_z - 1) as i32);
    let south = voxel_at_world(block_x, block_y, (block_z + 1) as i32);
    let east = voxel_at_world(block_x + 1, block_y, block_z);
    let west = voxel_at_world(block_x - 1, block_y, block_z);
    let n = StairsNeighbors { north, south, east, west };
    let res = stairs_shape_from_neighbors(stair, &n);
    assert(spec_stairs_shape(stair, n) == res);
    res
}

/// Block interaction manager.
pub struct InteractionManager {
    dirty_chunks: ChunkPosSet,
}

/// Result of a block interaction.
#[derive(Debug, Clone, Copy, PartialEq, Eq, Structural)]
pub enum InteractionResult {
    NoAction,
    DoorToggled,
    FenceGateToggled,
    TrapdoorToggled,
    OpenBedUI,
    OpenChestUI,
}

/// Cells after toggling the door at (x, y, z): the clicked half gets the toggled state and,
/// when the other half (one above a lower half, one below an upper half) is a door, it gets
/// the same state.
pub open spec fn spec_door_toggled_cells(
    cells: Seq<Voxel>,
    x: int,
    y: int,
    z: int,
) -> Seq<Voxel> {
    let v = cells[voxel_index(x, y, z)];
    let new_state = with_flag(v.state, 0x08, !spec_is_door_open(v.state));
    let c1 = cells.update(voxel_index(x, y, z), Voxel { state: new_state, ..v });
    let other_y = if spec_is_door_lower(v.id) {
        y + 1
    } else if y > 0 {
        y - 1
    } else {
        0
    };
    if other_y < CHUNK_SIZE_Y && spec_is_door(c1[voxel_index(x, other_y, z)].id) {
        let o = c1[voxel_index(x, other_y, z)];
        c1.update(voxel_index(x, other_y, z), Voxel { state: new_state, ..o })
    } else {
        c1
    }
}

/// Whether a click toggles the door: a wooden door not held by redstone.
pub open spec fn spec_door_togglable(v: Voxel) -> bool {
    spec_is_door(v.id) && !spec_is_iron_door(v.id) && !spec_is_redstone_powered(v.state)
}

/// Whether a click toggles the fence gate: a gate not held by redstone.
pub open spec fn spec_gate_togglable(v: Voxel) -> bool {
    v.id == interactive_blocks::OAK_FENCE_GATE && !spec_is_redstone_powered(v.state)
}

/// Whether a click toggles the trapdoor: a trapdoor not held by redstone.
pub open spec fn spec_trapdoor_togglable(v: Voxel) -> bool {
    v.id == interactive_blocks::TRAPDOOR && !spec_is_redstone_powered(v.state)
}

/// Cells after flipping bit 3 (open) of the voxel at (x, y, z).
pub open spec fn spec_open_flipped_cells(cells: Seq<Voxel>, x: int, y: int, z: int) -> Seq<Voxel> {
    let v = cells[voxel_index(x, y, z)];
    cells.update(
        voxel_index(x, y, z),
        Voxel { state: with_flag(v.state, 0x08, !flag(v.state, 0x08)), ..v },
    )
}

impl InteractionManager {
    pub closed spec fn wf(&self) -> bool {
        self.dirty_chunks.wf()
    }

    /// Chunks whose meshes need rebuilding.
    pub closed spec fn dirty(&self) -> Set<ChunkPos> {
        self.dirty_chunks@
    }

    /// A manager with no dirty chunks.
    pub fn new() -> (res: Self)
        ensures
            res.wf(),
            res.dirty() == Set::<ChunkPos>::empty(),
    {
        InteractionManager { dirty_chunks: ChunkPosSet::new() }
    }

    /// Whether a chunk is marked dirty.
    pub fn is_dirty(&self, pos: &ChunkPos) -> (res: bool)
        ensures
            res == self.dirty().contains(*pos),
    {
        self.dirty_chunks.contains(pos)
    }

    /// Whether no chunk is marked dirty.
    pub fn has_no_dirty_chunks(&self) -> (res: bool)
        ensures
            res == (self.dirty() == Set::<ChunkPos>::empty()),
    {
        self.dirty_chunks.is_empty()
    }

    /// Toggle a wooden door (both halves) unless it is powered by redstone.
    pub fn toggle_door(
        &mut self,
        chunk_pos: ChunkPos,
        x: usize,
        y: usize,
        z: usize,
        chunks: &mut ChunkMap,
    ) -> (res: bool)
        requires
            old(self).wf(),
            old(chunks).wf(),
            in_chunk(x as int, y as int, z as int),
        ensures
            final(self).wf(),
            final(chunks).wf(),
            final(chunks).keys() == old(chunks).keys(),
            res == (old(chunks).keys().contains(chunk_pos) && spec_door_togglable(
                old(chunks).voxel_at(chunk_pos, x as int, y as int, z as int),
            )),
            res ==> final(chunks).cells_at(chunk_pos) == spec_door_toggled_cells(
                old(chunks).cells_at(chunk_pos),
                x as int,
                y as int,
                z as int,
            ),
            !res ==> final(chunks).cells_at(chunk_pos) == old(chunks).cells_at(chunk_pos),
            forall|q: ChunkPos|
                q != chunk_pos && old(chunks).keys().contains(q) ==> #[trigger] final(chunks).cells_at(q) == old(chunks).cells_at(q),
            final(self).dirty() == (if res {
                old(self).dirty().insert(chunk_pos)
            } else {
                old(self).dirty()
            }),
    {
        let voxel = match chunks.voxel(&chunk_pos, x, y, z) {
            Some(v) => v,
            None => return false,
        };
        if !is_door(voxel.id) {
            return false;
        }
        if is_iron_door(voxel.id) {
            return false;
        }
        if is_redstone_powered(voxel.state) {
            return false;
        }
        proof {
            chunks.lemma_wf_cells(chunk_pos);
        }
        let ghost cells0 = chunks.cells_at(chunk_pos);
        let is_lower = is_door_lower(voxel.id);
        let new_open = !is_door_open(voxel.state);
        let new_state = set_door_open(voxel.state, new_open);
        let updated = Voxel { state: new_state, ..voxel };
        chunks.set_voxel(&chunk_pos, x, y, z, updated);
        self.dirty_chunks.insert(chunk_pos);
        let ghost cells1 = chunks.cells_at(chunk_pos);
        let other_y = if is_lower {
            y + 1
        } else if y > 0 {
            y - 1
        } else {
            0
        };
        if other_y < CHUNK_SIZE_Y {
            proof {
                chunks.lemma_wf_cells(chunk_pos);
            }
            let other = chunks.voxel(&chunk_pos, x, other_y, z);
            match other {
                Some(other_voxel) => {
                    if is_door(other_voxel.id) {
                        chunks.set_voxel(
                            &chunk_pos,
                            x,
                            other_y,
                            z,
                            Voxel { state: new_state, ..other_voxel },
                        );
                    }
                },
                None => {},
            }
        }
        proof {
            assert(cells1 == cells0.update(voxel_index(x as int, y as int, z as int), updated));
        }
        true
    }

    /// Toggle a fence gate unless it is powered by redstone.
    pub fn toggle_fence_gate(
        &mut self,
        chunk_pos: ChunkPos,
        x: usize,
        y: usize,
        z: usize,
        chunks: &mut ChunkMap,
    ) -> (res: bool)
        requires
            old(self).wf(),
            old(chunks).wf(),
            in_chunk(x as int, y as int, z as int),
        ensures
            final(self).wf(),
            final(chunks).wf(),
            final(chunks).keys() == old(chunks).keys(),
            res == (old(chunks).keys().contains(chunk_pos) && spec_gate_togglable(
                old(chunks).voxel_at(chunk_pos, x as int, y as int, z as int),
            )),
            res ==> final(chunks).cells_at(chunk_pos) == spec_open_flipped_cells(
                old(chunks).cells_at(chunk_pos),
                x as int,
                y as int,
                z as int,
            ),
            !res ==> final(chunks).cells_at(chunk_pos) == old(chunks).cells_at(chunk_pos),
            forall|q: ChunkPos|
                q != chunk_pos && old(chunks).keys().contains(q) ==> #[trigger] final(chunks).cells_at(q) == old(chunks).cells_at(q),
            final(self).dirty() == (if res {
                old(self).dirty().insert(chunk_pos)
            } else {
                old(self).dirty()
            }),
    {
        let voxel = match chunks.voxel(&chunk_pos, x, y, z) {
            Some(v) => v,
            None => return false,
        };
        if !is_fence_gate(voxel.id) {
            return false;
        }
        if is_redstone_powered(voxel.state) {
            return false;
        }
        let new_open = !is_fence_gate_open(voxel.state);
        let new_state = set_fence_gate_open(voxel.state, new_open);
        chunks.set_voxel(&chunk_pos, x, y, z, Voxel { state: new_state, ..voxel });
        self.dirty_chunks.insert(chunk_pos);
        true
    }

    /// Toggle a trapdoor unless it is powered by redstone.
    pub fn toggle_trapdoor(
        &mut self,
        chunk_pos: ChunkPos,
        x: usize,
        y: usize,
        z: usize,
        chunks: &mut ChunkMap,
    ) -> (res: bool)
        requires
            old(self).wf(),
            old(chunks).wf(),
            in_chunk(x as int, y as int, z as int),
        ensures
            final(self).wf(),
            final(chunks).wf(),
            final(chunks).keys() == old(chunks).keys(),
            res == (old(chunks).keys().contains(chunk_pos) && spec_trapdoor_togglable(
                old(chunks).voxel_at(chunk_pos, x as int, y as int, z as int),
            )),
            res ==> final(chunks).cells_at(chunk_pos) == spec_open_flipped_cells(
                old(chunks).cells_at(chunk_pos),
                x as int,
                y as int,
                z as int,
            ),
            !res ==> final(chunks).cells_at(chunk_pos) == old(chunks).cells_at(chunk_pos),
            forall|q: ChunkPos|
                q != chunk_pos && old(chunks).keys().contains(q) ==> #[trigger] final(chunks).cells_at(q) == old(chunks).cells_at(q),
            final(self).dirty() == (if res {
                old(self).dirty().insert(chunk_pos)
            } else {
                old(self).dirty()
            }),
    {
        let voxel = match chunks.voxel(&chunk_pos, x, y, z) {
            Some(v) => v,
            None => return false,
        };
        if !is_trapdoor(voxel.id) {
            return false;
        }
        if is_redstone_powered(voxel.state) {
            return false;
        }
        let new_open = !is_trapdoor_open(voxel.state);
        let new_state = set_trapdoor_open(voxel.state, new_open);
        chunks.set_voxel(&chunk_pos, x, y, z, Voxel { state: new_state, ..voxel });
        self.dirty_chunks.insert(chunk_pos);
        true
    }

    /// Interact with a block (right click): toggle doors, gates and trapdoors, or open the
    /// bed / chest screens.
    pub fn interact(
        &mut self,
        chunk_pos: ChunkPos,
        x: usize,
        y: usize,
        z: usize,
        chunks: &mut ChunkMap,
    ) -> (res: InteractionResult)
        requires
            old(self).wf(),
            old(chunks).wf(),
            in_chunk(x as int, y as int, z as int),
        ensures
            final(self).wf(),
            final(chunks).wf(),
            final(chunks).keys() == old(chunks).keys(),
            ({
                let loaded = old(chunks).keys().contains(chunk_pos);
                let v = old(chunks).voxel_at(chunk_pos, x as int, y as int, z as int);
                res == (if !loaded {
                    InteractionResult::NoAction
                } else if spec_door_togglable(v) {
                    InteractionResult::DoorToggled
                } else if spec_gate_togglable(v) {
                    InteractionResult::FenceGateToggled
                } else if spec_trapdoor_togglable(v) {
                    InteractionResult::TrapdoorToggled
                } else if spec_is_bed(v.id) {
                    InteractionResult::OpenBedUI
                } else if v.id == interactive_blocks::CHEST {
                    InteractionResult::OpenChestUI
                } else {
                    InteractionResult::NoAction
                })
            }),
            res == InteractionResult::DoorToggled ==> final(chunks).cells_at(chunk_pos)
                == spec_door_toggled_cells(
                old(chunks).cells_at(chunk_pos),
                x as int,
                y as int,
                z as int,
            ),
            (res == InteractionResult::FenceGateToggled || res == InteractionResult::TrapdoorToggled)
                ==> final(chunks).cells_at(chunk_pos) == spec_open_flipped_cells(
                old(chunks).cells_at(chunk_pos),
                x as int,
                y as int,
                z as int,
            ),
            !(res == InteractionResult::DoorToggled || res == InteractionResult::FenceGateToggled
                || res == InteractionResult::TrapdoorToggled) ==> final(chunks).cells_at(chunk_pos)
                == old(chunks).cells_at(chunk_pos),
            forall|q: ChunkPos|
                q != chunk_pos && old(chunks).keys().contains(q) ==> #[trigger] final(chunks).cells_at(q) == old(chunks).cells_at(q),
            final(self).dirty() == (if res == InteractionResult::DoorToggled || res
                == InteractionResult::FenceGateToggled || res == InteractionResult::TrapdoorToggled {
                old(self).dirty().insert(chunk_pos)
            } else {
                old(self).dirty()
            }),
    {
        let voxel = match chunks.voxel(&chunk_pos, x, y, z) {
            Some(v) => v,
            None => return InteractionResult::NoAction,
        };
        if is_door(voxel.id) && !is_iron_door(voxel.id) && self.toggle_door(
            chunk_pos,
            x,
            y,
            z,
            chunks,
        ) {
            return InteractionResult::DoorToggled;
        }
        if is_fence_gate(voxel.id) && self.toggle_fence_gate(chunk_pos, x, y, z, chunks) {
            return InteractionResult::FenceGateToggled;
        }
        if is_trapdoor(voxel.id) && self.toggle_trapdoor(chunk_pos, x, y, z, chunks) {
            return InteractionResult::TrapdoorToggled;
        }
        if is_bed(voxel.id) {
            return InteractionResult::OpenBedUI;
        }
        if is_chest(voxel.id) {
            return InteractionResult::OpenChestUI;
        }
        InteractionResult::NoAction
    }

    /// Take the set of dirty chunks, leaving none marked.
    pub fn take_dirty_chunks(&mut self) -> (res: ChunkPosSet)
        requires
            old(self).wf(),
        ensures
            final(self).wf(),
            res.wf(),
            res@ == old(self).dirty(),
            final(self).dirty() == Set::<ChunkPos>::empty(),
    {
        let mut out = ChunkPosSet::new();
        std::mem::swap(&mut out, &mut self.dirty_chunks);
        out
    }
}

/// Toggling a wooden door twice restores the clicked cell.
pub proof fn law_door_toggle_twice_restores_cell(cells: Seq<Voxel>, x: int, y: int, z: int)
    requires
        in_chunk(x, y, z),
        cells.len() == CHUNK_VOLUME,
    ensures
        spec_door_toggled_cells(spec_door_toggled_cells(cells, x, y, z), x, y, z)[voxel_index(
            x,
            y,
            z,
        )] == cells[voxel_index(x, y, z)],
{
    let v = cells[voxel_index(x, y, z)];
    let s1 = with_flag(v.state, 0x08, !spec_is_door_open(v.state));
    lemma_with_flag(v.state, 0x08, !spec_is_door_open(v.state));
    let c1 = spec_door_toggled_cells(cells, x, y, z);
    let oy = if spec_is_door_lower(v.id) {
        y + 1
    } else if y > 0 {
        y - 1
    } else {
        0
    };
    if oy < CHUNK_SIZE_Y {
        if oy != y {
            lemma_voxel_index_bounds(x, oy, z);
            if voxel_index(x, oy, z) == voxel_index(x, y, z) {
                lemma_voxel_index_injective(x, oy, z, x, y, z);
            }
        }
    }
    assert(c1[voxel_index(x, y, z)].state == s1);
    assert(c1[voxel_index(x, y, z)].id == v.id);
    let s2 = with_flag(s1, 0x08, !spec_is_door_open(s1));
    lemma_with_flag(s1, 0x08, !spec_is_door_open(s1));
    lemma_flag_restore(v.state, s1, s2);
}

proof fn lemma_flag_restore(s0: u16, s1: u16, s2: u16)
    by (bit_vector)
    requires
        ((s1 & 0x08) != 0) == !((s0 & 0x08) != 0),
        s1 & !0x08u16 == s0 & !0x08u16,
        ((s2 & 0x08) != 0) == !((s1 & 0x08) != 0),
        s2 & !0x08u16 == s1 & !0x08u16,
    ensures
        s2 == s0,
{
}

/// Bed sleep system.
pub struct BedSystem {
    spawn_point: Option<(i32, i32, i32)>,
}

/// Result of attempting to sleep.
#[derive(Debug, Clone, Copy, PartialEq, Eq, Structural)]
pub enum SleepResult {
    Success,
    NotNight,
    MonstersNearby,
    /// Someone else is in the bed; `try_sleep` itself never answers this.
    BedOccupied,
}

impl BedSystem {
    pub closed spec fn spec_spawn(&self) -> Option<(i32, i32, i32)> {
        self.spawn_point
    }

    /// A bed system with no spawn point.
    pub fn new() -> (res: Self)
        ensures
            res.spec_spawn() == None::<(i32, i32, i32)>,
    {
        BedSystem { spawn_point: None }
    }

    /// Try to sleep: only at night with no hostile mobs nearby; success sets the spawn point.
    pub fn try_sleep(&mut self, bed_pos: (i32, i32, i32), is_night: bool, hostile_mobs_nearby: bool) -> (res:
        SleepResult)
        ensures
            res == (if !is_night {
                SleepResult::NotNight
            } else if hostile_mobs_nearby {
                SleepResult::MonstersNearby
            } else {
                SleepResult::Success
            }),
            final(self).spec_spawn() == (if res == SleepResult::Success {
                Some(bed_pos)
            } else {
                old(self).spec_spawn()
            }),
    {
        if !is_night {
            return SleepResult::NotNight;
        }
        if hostile_mobs_nearby {
            return SleepResult::MonstersNearby;
        }
        self.spawn_point = Some(bed_pos);
        SleepResult::Success
    }

    /// The spawn point, if set.
    pub fn spawn_point(&self) -> (res: Option<(i32, i32, i32)>)
        ensures
            res == self.spec_spawn(),
    {
        self.spawn_point
    }

    /// Set the spawn point.
    pub fn set_spawn_point(&mut self, pos: (i32, i32, i32))
        ensures
            final(self).spec_spawn() == Some(pos),
    {
        self.spawn_point = Some(pos);
    }
}

impl Default for BedSystem {
    fn default() -> (res: Self)
        ensures
            res.spec_spawn() == None::<(i32, i32, i32)>,
    {
        BedSystem::new()
    }
}

impl Default for InteractionManager {
    fn default() -> (res: Self)
        ensures
            res.wf(),
            res.dirty() == Set::<ChunkPos>::empty(),
    {
        InteractionManager::new()
    }
}

/// How a block collides, heights in sixteenths of a block (0 to 16).
#[derive(Debug, Clone, Copy, PartialEq, Eq, Structural)]
pub enum CollisionType {
    /// Full block collision.
    Full,
    /// No collision.
    NoCollision,
    /// A slab of the block from `min_y` to `max_y` sixteenths.
    Partial { min_y: u8, max_y: u8 },
    /// Fence collision (1.5 blocks high for jumping).
    Fence,
    /// Door collision (depends on open state).
    Door { open: bool },
    /// Ladder collision (climbable).
    Ladder,
}

/// The collision of a block with the given state.
pub open spec fn spec_collision(block_id: BlockId, state: BlockState) -> CollisionType {
    if block_id == BLOCK_AIR || block_id == BLOCK_WATER {
        CollisionType::NoCollision
    } else if block_id == BLOCK_SNOW {
        CollisionType::Partial { min_y: 0, max_y: (2 * spec_snow_layers(state)) as u8 }
    } else if block_id == BLOCK_FARMLAND || block_id == BLOCK_FARMLAND_WET {
        CollisionType::Partial { min_y: 0, max_y: 15 }
    } else if block_id == BLOCK_ENCHANTING_TABLE {
        CollisionType::Partial { min_y: 0, max_y: 12 }
    } else if block_id == BLOCK_BREWING_STAND {
        CollisionType::Partial { min_y: 0, max_y: 14 }
    } else if spec_is_door(block_id) {
        CollisionType::Door { open: spec_is_door_open(state) }
    } else if block_id == interactive_blocks::LADDER {
        CollisionType::Ladder
    } else if block_id == interactive_blocks::COBBLESTONE_WALL || block_id == interactive_blocks::STONE_BRICK_WALL
        || block_id == interactive_blocks::OAK_FENCE {
        CollisionType::Fence
    } else if block_id == interactive_blocks::OAK_FENCE_GATE {
        if flag(state, 0x08) {
            CollisionType::NoCollision
        } else {
            CollisionType::Fence
        }
    } else if block_id == interactive_blocks::TRAPDOOR {
        if flag(state, 0x08) {
            CollisionType::NoCollision
        } else if flag(state, 0x04) {
            CollisionType::Partial { min_y: 13, max_y: 16 }
        } else {
            CollisionType::Partial { min_y: 0, max_y: 3 }
        }
    } else if spec_is_slab(block_id) {
        if flag(state, 0x04) {
            CollisionType::Partial { min_y: 8, max_y: 16 }
        } else {
            CollisionType::Partial { min_y: 0, max_y: 8 }
        }
    } else if spec_is_stairs(block_id) {
        CollisionType::Partial { min_y: 0, max_y: 8 }
    } else if spec_is_bed(block_id) {
        CollisionType::Partial { min_y: 0, max_y: 9 }
    } else if block_id == interactive_blocks::GLASS || block_id == interactive_blocks::GLASS_PANE {
        CollisionType::Full
    } else if block_id == interactive_blocks::TORCH {
        CollisionType::NoCollision
    } else if block_id == interactive_blocks::CHEST {
        CollisionType::Partial { min_y: 0, max_y: 14 }
    } else {
        CollisionType::Full
    }
}

/// Get the collision type of a block with the given state.
pub fn get_collision_type(block_id: BlockId, state: BlockState) -> (res: CollisionType)
    ensures
        res == spec_collision(block_id, state),
{
    if block_id == BLOCK_AIR || block_id == BLOCK_WATER {
        CollisionType::NoCollision
    } else if block_id == BLOCK_SNOW {
        CollisionType::Partial { min_y: 0, max_y: 2 * snow_layers(state) }
    } else if block_id == BLOCK_FARMLAND || block_id == BLOCK_FARMLAND_WET {
        CollisionType::Partial { min_y: 0, max_y: 15 }
    } else if block_id == BLOCK_ENCHANTING_TABLE {
        CollisionType::Partial { min_y: 0, max_y: 12 }
    } else if block_id == BLOCK_BREWING_STAND {
        CollisionType::Partial { min_y: 0, max_y: 14 }
    } else if is_door(block_id) {
        CollisionType::Door { open: is_door_open(state) }
    } else if is_ladder(block_id) {
        CollisionType::Ladder
    } else if block_id == interactive_blocks::COBBLESTONE_WALL || block_id == interactive_blocks::STONE_BRICK_WALL {
        CollisionType::Fence
    } else if is_fence(block_id) {
        CollisionType::Fence
    } else if is_fence_gate(block_id) {
        if is_fence_gate_open(state) {
            CollisionType::NoCollision
        } else {
            CollisionType::Fence
        }
    } else if is_trapdoor(block_id) {
        if is_trapdoor_open(state) {
            CollisionType::NoCollision
        } else if is_trapdoor_top(state) {
            CollisionType::Partial { min_y: 13, max_y: 16 }
        } else {
            CollisionType::Partial { min_y: 0, max_y: 3 }
        }
    } else if is_slab(block_id) {
        match SlabPosition::from_state(state) {
            SlabPosition::Bottom => CollisionType::Partial { min_y: 0, max_y: 8 },
            SlabPosition::Top => CollisionType::Partial { min_y: 8, max_y: 16 },
        }
    } else if is_stairs(block_id) {
        CollisionType::Partial { min_y: 0, max_y: 8 }
    } else if is_bed(block_id) {
        CollisionType::Partial { min_y: 0, max_y: 9 }
    } else if block_id == interactive_blocks::GLASS || block_id == interactive_blocks::GLASS_PANE {
        CollisionType::Full
    } else if block_id == interactive_blocks::TORCH {
        CollisionType::NoCollision
    } else if block_id == interactive_blocks::CHEST {
        CollisionType::Partial { min_y: 0, max_y: 14 }
    } else {
        CollisionType::Full
    }
}

/// A (min_x, max_x, min_z, max_z) footprint inside a block, in sixteenths of a block.
#[derive(Debug, Clone, Copy, PartialEq, Eq, Structural)]
pub struct StairsFootprint {
    pub min_x: u8,
    pub max_x: u8,
    pub min_z: u8,
    pub max_z: u8,
}

/// The half of a block on the side a facing points to.
pub open spec fn spec_half_region(dir: Facing) -> StairsFootprint {
    match dir {
        Facing::North => StairsFootprint { min_x: 0, max_x: 16, min_z: 0, max_z: 8 },
        Facing::South => StairsFootprint { min_x: 0, max_x: 16, min_z: 8, max_z: 16 },
        Facing::East => StairsFootprint { min_x: 8, max_x: 16, min_z: 0, max_z: 16 },
        Facing::West => StairsFootprint { min_x: 0, max_x: 8, min_z: 0, max_z: 16 },
    }
}

pub open spec fn max_u8(a: u8, b: u8) -> u8 {
    if a >= b {
        a
    } else {
        b
    }
}

pub open spec fn min_u8(a: u8, b: u8) -> u8 {
    if a <= b {
        a
    } else {
        b
    }
}

/// The overlap of two footprints.
pub open spec fn spec_footprint_intersect(a: StairsFootprint, b: StairsFootprint) -> StairsFootprint {
    StairsFootprint {
        min_x: max_u8(a.min_x, b.min_x),
        max_x: min_u8(a.max_x, b.max_x),
        min_z: max_u8(a.min_z, b.min_z),
        max_z: min_u8(a.max_z, b.max_z),
    }
}

/// The empty footprint padding unused result slots.
pub open spec fn empty_footprint() -> StairsFootprint {
    StairsFootprint { min_x: 0, max_x: 0, min_z: 0, max_z: 0 }
}

/// The step footprints of stairs: the front half when straight, its overlap with the left
/// or right half for outer corners, and the front half plus the back half's overlap with
/// the left or right half for inner corners.
pub open spec fn spec_step_footprints(facing: Facing, shape: StairsShape) -> (Seq<StairsFootprint>, int) {
    let front = spec_half_region(facing);
    let back = spec_half_region(spec_opposite(facing));
    let left = spec_half_region(spec_left(facing));
    let right = spec_half_region(spec_right(facing));
    match shape {
        StairsShape::Straight => (seq![front, empty_footprint()], 1),
        StairsShape::OuterLeft => (seq![spec_footprint_intersect(front, left), empty_footprint()], 1),
        StairsShape::OuterRight => (seq![spec_footprint_intersect(front, right), empty_footprint()], 1),
        StairsShape::InnerLeft => (seq![front, spec_footprint_intersect(back, left)], 2),
        StairsShape::InnerRight => (seq![front, spec_footprint_intersect(back, right)], 2),
    }
}

fn stairs_half_region(dir: Facing) -> (res: StairsFootprint)
    ensures
        res == spec_half_region(dir),
{
    match dir {
        Facing::North => StairsFootprint { min_x: 0, max_x: 16, min_z: 0, max_z: 8 },
        Facing::South => StairsFootprint { min_x: 0, max_x: 16, min_z: 8, max_z: 16 },
        Facing::East => StairsFootprint { min_x: 8, max_x: 16, min_z: 0, max_z: 16 },
        Facing::West => StairsFootprint { min_x: 0, max_x: 8, min_z: 0, max_z: 16 },
    }
}

fn stairs_intersect(a: StairsFootprint, b: StairsFootprint) -> (res: StairsFootprint)
    ensures
        res == spec_footprint_intersect(a, b),
{
    StairsFootprint {
        min_x: if a.min_x >= b.min_x { a.min_x } else { b.min_x },
        max_x: if a.max_x <= b.max_x { a.max_x } else { b.max_x },
        min_z: if a.min_z >= b.min_z { a.min_z } else { b.min_z },
        max_z: if a.max_z <= b.max_z { a.max_z } else { b.max_z },
    }
}

/// The stair step footprint(s) for a facing and a computed shape: the part of the block
/// where the half-height step stands (the upper half for bottom stairs, the lower half for
/// top stairs). Returns two slots and how many are used (inner corners are L-shaped).
pub fn stairs_step_footprints(facing: Facing, shape: StairsShape) -> (res: ([StairsFootprint; 2], usize))
    ensures
        res.0@ == spec_step_footprints(facing, shape).0,
        res.1 == spec_step_footprints(facing, shape).1,
{
    let front = stairs_half_region(facing);
    let back = stairs_half_region(facing.opposite());
    let left = stairs_half_region(facing.left());
    let right = stairs_half_region(facing.right());
    let dummy = StairsFootprint { min_x: 0, max_x: 0, min_z: 0, max_z: 0 };
    let res = match shape {
        StairsShape::Straight => ([front, dummy], 1),
        StairsShape::OuterLeft => ([stairs_intersect(front, left), dummy], 1),
        StairsShape::OuterRight => ([stairs_intersect(front, right), dummy], 1),
        StairsShape::InnerLeft => ([front, stairs_intersect(back, left)], 2),
        StairsShape::InnerRight => ([front, stairs_intersect(back, right)], 2),
    };
    assert(res.0@ =~= spec_step_footprints(facing, shape).0);
    res
}

} // verus!
