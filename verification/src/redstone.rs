//! Redstone: component kinds, packed power / delay / facing fields, world positions and the
//! tick-driven power simulator.

use vstd::prelude::*;

verus! {

use crate::bits::{with_field, 
    field, flag, lemma_and_bound, lemma_field_bound, lemma_field_masks, lemma_low_field,
    lemma_small_fits, lemma_with_field, lemma_with_flag, with_flag,
};
use crate::chunk::{
    in_chunk, lemma_voxel_index_bounds, lemma_voxel_index_injective, spec_is_crop, spec_is_fluid,
    voxel_index, BlockId, BlockState, ChunkMap, ChunkPos, ChunkPosSet, Voxel, BLOCK_AIR,
    BLOCK_BEDROCK, BLOCK_BREWING_STAND, BLOCK_ENCHANTING_TABLE, BLOCK_FURNACE, BLOCK_FURNACE_LIT,
    BLOCK_OBSIDIAN, BLOCK_SUGAR_CANE, CHUNK_SIZE_Y, CHUNK_VOLUME,
};
use crate::chunk::{is_crop, is_fluid};
use vstd::set_lib::set_int_range;
use crate::interaction::{
    has_full_collision, is_bed, is_chest, is_door, is_door_upper, is_fence_gate, is_redstone_powered,
    is_torch_wall, is_trapdoor, law_facing_state_roundtrip, set_door_open, set_fence_gate_open,
    set_redstone_powered, set_trapdoor_open, spec_facing_bits, spec_facing_of,
    spec_has_full_collision, spec_is_bed, spec_is_door, spec_offset, torch_facing, Facing,
};
use crate::mechanical_blocks;
use crate::redstone_blocks;

/// Maximum redstone power level.
pub const MAX_POWER: u8 = 15;

/// Most blocks a piston can push.
pub const PISTON_PUSH_LIMIT: usize = 12;

/// Kind of redstone component.
#[derive(Debug, Clone, Copy, PartialEq, Eq, Structural)]
pub enum RedstoneComponent {
    Lever,
    Button,
    PressurePlate,
    Wire,
    Torch,
    Lamp,
    Repeater,
    Comparator,
    Observer,
}

/// Component kind of a block id.
pub open spec fn spec_component_of(id: BlockId) -> Option<RedstoneComponent> {
    if id == redstone_blocks::LEVER {
        Some(RedstoneComponent::Lever)
    } else if id == redstone_blocks::STONE_BUTTON || id == redstone_blocks::OAK_BUTTON {
        Some(RedstoneComponent::Button)
    } else if id == redstone_blocks::STONE_PRESSURE_PLATE || id
        == redstone_blocks::OAK_PRESSURE_PLATE {
        Some(RedstoneComponent::PressurePlate)
    } else if id == redstone_blocks::REDSTONE_WIRE {
        Some(RedstoneComponent::Wire)
    } else if id == redstone_blocks::REDSTONE_TORCH {
        Some(RedstoneComponent::Torch)
    } else if id == redstone_blocks::REDSTONE_LAMP || id == redstone_blocks::REDSTONE_LAMP_LIT {
        Some(RedstoneComponent::Lamp)
    } else if id == redstone_blocks::REDSTONE_REPEATER {
        Some(RedstoneComponent::Repeater)
    } else if id == redstone_blocks::REDSTONE_COMPARATOR {
        Some(RedstoneComponent::Comparator)
    } else if id == redstone_blocks::REDSTONE_OBSERVER {
        Some(RedstoneComponent::Observer)
    } else {
        None
    }
}

impl RedstoneComponent {
    /// Component kind of a block id.
    pub fn from_block_id(block_id: BlockId) -> (res: Option<Self>)
        ensures
            res == spec_component_of(block_id),
    {
        if block_id == redstone_blocks::LEVER {
            Some(RedstoneComponent::Lever)
        } else if block_id == redstone_blocks::STONE_BUTTON || block_id
            == redstone_blocks::OAK_BUTTON {
            Some(RedstoneComponent::Button)
        } else if block_id == redstone_blocks::STONE_PRESSURE_PLATE || block_id
            == redstone_blocks::OAK_PRESSURE_PLATE {
            Some(RedstoneComponent::PressurePlate)
        } else if block_id == redstone_blocks::REDSTONE_WIRE {
            Some(RedstoneComponent::Wire)
        } else if block_id == redstone_blocks::REDSTONE_TORCH {
            Some(RedstoneComponent::Torch)
        } else if block_id == redstone_blocks::REDSTONE_LAMP || block_id
            == redstone_blocks::REDSTONE_LAMP_LIT {
            Some(RedstoneComponent::Lamp)
        } else if block_id == redstone_blocks::REDSTONE_REPEATER {
            Some(RedstoneComponent::Repeater)
        } else if block_id == redstone_blocks::REDSTONE_COMPARATOR {
            Some(RedstoneComponent::Comparator)
        } else if block_id == redstone_blocks::REDSTONE_OBSERVER {
            Some(RedstoneComponent::Observer)
        } else {
            None
        }
    }

    /// Whether this component is a power source.
    pub fn is_power_source(self) -> (res: bool)
        ensures
            res == (self == RedstoneComponent::Lever || self == RedstoneComponent::Button || self
                == RedstoneComponent::PressurePlate || self == RedstoneComponent::Torch),
    {
        match self {
            RedstoneComponent::Lever | RedstoneComponent::Button | RedstoneComponent::PressurePlate
            | RedstoneComponent::Torch => true,
            _ => false,
        }
    }

    /// Whether this component conducts power.
    pub fn conducts_power(self) -> (res: bool)
        ensures
            res == (self == RedstoneComponent::Wire || self == RedstoneComponent::Repeater || self
                == RedstoneComponent::Comparator || self == RedstoneComponent::Observer),
    {
        match self {
            RedstoneComponent::Wire | RedstoneComponent::Repeater | RedstoneComponent::Comparator
            | RedstoneComponent::Observer => true,
            _ => false,
        }
    }

    /// Whether this component can be powered.
    pub fn can_be_powered(self) -> (res: bool)
        ensures
            res == (self == RedstoneComponent::Lamp || self == RedstoneComponent::Wire || self
                == RedstoneComponent::Repeater || self == RedstoneComponent::Comparator),
    {
        match self {
            RedstoneComponent::Lamp | RedstoneComponent::Wire | RedstoneComponent::Repeater
            | RedstoneComponent::Comparator => true,
            _ => false,
        }
    }
}

/// Power level (low four bits).
pub open spec fn spec_power(state: BlockState) -> u16 {
    state & 15
}

/// `state` with the power level set to `min(power, 15)`.
pub open spec fn spec_with_power(state: BlockState, power: u8) -> BlockState {
    (state & !15u16) | (if power > 15 {
        15u16
    } else {
        power as u16
    })
}

/// Get the power level from a block state.
pub fn get_power_level(state: BlockState) -> (res: u8)
    ensures
        res == spec_power(state),
        res <= 15,
{
    proof {
        lemma_and_bound(state, 15);
    }
    (state & 0x0F) as u8
}

/// Set the power level (clamped to 15), keeping the other bits.
pub fn set_power_level(state: BlockState, power: u8) -> (res: BlockState)
    ensures
        res == spec_with_power(state, power),
        spec_power(res) == (if power > 15 {
            15
        } else {
            power as u16
        }),
        res & !15u16 == state & !15u16,
{
    let p = if power < MAX_POWER {
        power
    } else {
        MAX_POWER
    };
    let v = p as BlockState;
    proof {
        lemma_small_fits(v);
        lemma_low_field(state, 15, v);
    }
    (state & !15u16) | v
}

/// Whether the active flag (bit 4) is set.
pub open spec fn spec_is_active(state: BlockState) -> bool {
    flag(state, 0x10)
}

/// Check if a component is active (powered / on).
pub fn is_active(state: BlockState) -> (res: bool)
    ensures
        res == spec_is_active(state),
{
    (state & 0x10) != 0
}

/// Set the active flag, keeping the other bits.
pub fn set_active(state: BlockState, active: bool) -> (res: BlockState)
    ensures
        res == with_flag(state, 0x10, active),
        spec_is_active(res) == active,
        res & !0x10u16 == state & !0x10u16,
{
    proof {
        lemma_with_flag(state, 0x10, active);
    }
    if active {
        state | 0x10
    } else {
        state & !0x10u16
    }
}

/// Repeater delay in ticks (1..=4), stored minus one in bits 2..=3.
pub open spec fn spec_repeater_delay(state: BlockState) -> int {
    field(state, 3, 2) + 1
}

/// Get the repeater delay in ticks (1..=4).
pub fn repeater_delay_ticks(state: BlockState) -> (res: u8)
    ensures
        res == spec_repeater_delay(state),
        1 <= res <= 4,
{
    proof {
        lemma_field_masks();
        lemma_field_bound(state, 3, 2);
    }
    let raw = ((state & 0x0C) >> 2u16) as u8;
    let d = if raw < 3 {
        raw
    } else {
        3
    };
    d + 1
}

/// Set the repeater delay (clamped to 1..=4), keeping the other bits.
pub fn set_repeater_delay_ticks(state: BlockState, delay_ticks: u8) -> (res: BlockState)
    ensures
        spec_repeater_delay(res) == (if delay_ticks < 1 {
            1
        } else if delay_ticks > 4 {
            4
        } else {
            delay_ticks as int
        }),
        res & !0x0Cu16 == state & !0x0Cu16,
{
    let d = if delay_ticks < 1 {
        1
    } else if delay_ticks > 4 {
        4
    } else {
        delay_ticks
    };
    let v = (d - 1) as BlockState;
    proof {
        lemma_field_masks();
        lemma_small_fits(v);
        lemma_with_field(state, 3, 2, v);
    }
    (state & !0x0Cu16) | (v << 2u16)
}

proof fn lemma_low_facing(state: BlockState, f: Facing)
    ensures
        spec_facing_of(((state & !3u16) | spec_facing_bits(f)) & 3) == f,
        ((state & !3u16) | spec_facing_bits(f)) & !3u16 == state & !3u16,
{
    law_facing_state_roundtrip(f);
    lemma_small_fits(spec_facing_bits(f));
    lemma_low_field(state, 3, spec_facing_bits(f));
}

/// Facing stored in the two low bits (repeaters, comparators, observers, pistons).
pub open spec fn spec_low_facing(state: BlockState) -> Facing {
    spec_facing_of(state & 3)
}

/// Get the repeater facing.
pub fn repeater_facing(state: BlockState) -> (res: Facing)
    ensures
        res == spec_low_facing(state),
{
    Facing::from_state(state)
}

/// Set a facing in the two low bits, keeping the other bits.
fn set_low_facing(state: BlockState, facing: Facing) -> (res: BlockState)
    ensures
        spec_low_facing(res) == facing,
        res & !3u16 == state & !3u16,
        res == (state & !3u16) | spec_facing_bits(facing),
{
    proof {
        lemma_low_facing(state, facing);
    }
    (state & !3u16) | facing.to_state()
}

/// Set the repeater facing, keeping the other bits.
pub fn set_repeater_facing(state: BlockState, facing: Facing) -> (res: BlockState)
    ensures
        spec_low_facing(res) == facing,
        res & !3u16 == state & !3u16,
{
    set_low_facing(state, facing)
}

/// Whether a comparator is in subtract mode (bit 2).
pub fn is_comparator_subtract_mode(state: BlockState) -> (res: bool)
    ensures
        res == flag(state, 0x04),
{
    (state & 0x04) != 0
}

/// Set whether a comparator is in subtract mode, keeping the other bits.
pub fn set_comparator_subtract_mode(state: BlockState, subtract: bool) -> (res: BlockState)
    ensures
        flag(res, 0x04) == subtract,
        res & !0x04u16 == state & !0x04u16,
{
    proof {
        lemma_with_flag(state, 0x04, subtract);
    }
    if subtract {
        state | 0x04
    } else {
        state & !0x04u16
    }
}

/// Comparator output power (bits 5..=8).
pub open spec fn spec_comparator_output(state: BlockState) -> u16 {
    field(state, 15, 5)
}

/// Get the comparator output power (0..=15).
pub fn comparator_output_power(state: BlockState) -> (res: u8)
    ensures
        res == spec_comparator_output(state),
        res <= 15,
{
    proof {
        lemma_field_masks();
        lemma_field_bound(state, 15, 5);
    }
    ((state & 0x1E0) >> 5u16) as u8
}

/// Set the comparator output power (clamped to 15), keeping the other bits.
pub fn set_comparator_output_power(state: BlockState, power: u8) -> (res: BlockState)
    ensures
        spec_comparator_output(res) == (if power > 15 {
            15
        } else {
            power as u16
        }),
        res & !0x1E0u16 == state & !0x1E0u16,
        res == with_field(state, 15, 5, (if power > 15 { 15 } else { power }) as u16),
{
    let p = if power < MAX_POWER {
        power
    } else {
        MAX_POWER
    };
    let v = p as BlockState;
    proof {
        lemma_field_masks();
        lemma_small_fits(v);
        lemma_with_field(state, 15, 5, v);
    }
    (state & !0x1E0u16) | (v << 5u16)
}

/// Get the comparator facing.
pub fn comparator_facing(state: BlockState) -> (res: Facing)
    ensures
        res == spec_low_facing(state),
{
    Facing::from_state(state)
}

/// Set the comparator facing, keeping the other bits.
pub fn set_comparator_facing(state: BlockState, facing: Facing) -> (res: BlockState)
    ensures
        spec_low_facing(res) == facing,
        res & !3u16 == state & !3u16,
{
    set_low_facing(state, facing)
}

/// Observer's stored hash of the observed block (bits 5..=12); 0 means uninitialised.
pub open spec fn spec_observer_hash(state: BlockState) -> u16 {
    field(state, 255, 5)
}

/// Get the observer's stored observed-block hash.
pub fn observer_observed_hash(state: BlockState) -> (res: u8)
    ensures
        res == spec_observer_hash(state),
{
    proof {
        lemma_field_masks();
        lemma_field_bound(state, 255, 5);
    }
    ((state & 0x1FE0) >> 5u16) as u8
}

/// Set the observer's stored observed-block hash, keeping the other bits.
pub fn set_observer_observed_hash(state: BlockState, hash: u8) -> (res: BlockState)
    ensures
        spec_observer_hash(res) == hash,
        res & !0x1FE0u16 == state & !0x1FE0u16,
        res == with_field(state, 255, 5, hash as u16),
{
    let v = hash as BlockState;
    proof {
        lemma_field_masks();
        lemma_small_fits(v);
        lemma_with_field(state, 255, 5, v);
    }
    (state & !0x1FE0u16) | (v << 5u16)
}

/// Get the observer facing (output direction).
pub fn observer_facing(state: BlockState) -> (res: Facing)
    ensures
        res == spec_low_facing(state),
{
    Facing::from_state(state)
}

/// Set the observer facing, keeping the other bits.
pub fn set_observer_facing(state: BlockState, facing: Facing) -> (res: BlockState)
    ensures
        spec_low_facing(res) == facing,
        res & !3u16 == state & !3u16,
{
    set_low_facing(state, facing)
}

/// Get the piston facing.
pub fn piston_facing(state: BlockState) -> (res: Facing)
    ensures
        res == spec_low_facing(state),
{
    Facing::from_state(state)
}

/// Set the piston facing, keeping the other bits.
pub fn set_piston_facing(state: BlockState, facing: Facing) -> (res: BlockState)
    ensures
        spec_low_facing(res) == facing,
        res & !3u16 == state & !3u16,
        res == (state & !3u16) | spec_facing_bits(facing),
{
    set_low_facing(state, facing)
}

/// Facing of container-style blocks (bits 5..=6).
pub open spec fn spec_container_facing(state: BlockState) -> Facing {
    spec_facing_of(field(state, 3, 5))
}

/// Get the facing of a container-style block (hopper, dropper, dispenser).
pub fn container_facing(state: BlockState) -> (res: Facing)
    ensures
        res == spec_container_facing(state),
{
    proof {
        lemma_field_masks();
        lemma_field_bound(state, 3, 5);
    }
    let bits = (state & 0x60) >> 5u16;
    Facing::from_state(bits)
}

/// Set the facing of a container-style block, keeping the other bits.
pub fn set_container_facing(state: BlockState, facing: Facing) -> (res: BlockState)
    ensures
        spec_container_facing(res) == facing,
        res & !0x60u16 == state & !0x60u16,
{
    let v = facing.to_state();
    proof {
        law_facing_state_roundtrip(facing);
        lemma_field_masks();
        lemma_small_fits(v);
        lemma_with_field(state, 3, 5, v);
    }
    (state & !0x60u16) | (v << 5u16)
}

pub fn hopper_facing(state: BlockState) -> (res: Facing)
    ensures
        res == spec_container_facing(state),
{
    container_facing(state)
}

pub fn set_hopper_facing(state: BlockState, facing: Facing) -> (res: BlockState)
    ensures
        spec_container_facing(res) == facing,
        res & !0x60u16 == state & !0x60u16,
{
    set_container_facing(state, facing)
}

pub fn dispenser_facing(state: BlockState) -> (res: Facing)
    ensures
        res == spec_container_facing(state),
{
    container_facing(state)
}

pub fn set_dispenser_facing(state: BlockState, facing: Facing) -> (res: BlockState)
    ensures
        spec_container_facing(res) == facing,
        res & !0x60u16 == state & !0x60u16,
{
    set_container_facing(state, facing)
}

pub fn dropper_facing(state: BlockState) -> (res: Facing)
    ensures
        res == spec_container_facing(state),
{
    container_facing(state)
}

pub fn set_dropper_facing(state: BlockState, facing: Facing) -> (res: BlockState)
    ensures
        spec_container_facing(res) == facing,
        res & !0x60u16 == state & !0x60u16,
{
    set_container_facing(state, facing)
}

/// Writing a power level reads back as that level (clamped), and touches only the power bits.
pub proof fn law_power_level_roundtrip(state: BlockState, power: u8)
    ensures
        spec_power(spec_with_power(state, power)) == (if power > 15 {
            15
        } else {
            power as u16
        }),
        spec_with_power(state, power) & !15u16 == state & !15u16,
{
    let v: u16 = if power > 15 {
        15u16
    } else {
        power as u16
    };
    lemma_small_fits(v);
    lemma_low_field(state, 15, v);
}


/// World block position for redstone updates.
#[derive(Debug, Clone, Copy, PartialEq, Eq, Hash, PartialOrd, Ord, Structural)]
pub struct RedstonePos {
    pub x: i32,
    pub y: i32,
    pub z: i32,
}

/// The i-th of the six face neighbours (-x, +x, -y, +y, -z, +z); coordinates wrap at the
/// ends of the i32 range.
pub open spec fn spec_neighbor(p: RedstonePos, i: int) -> RedstonePos {
    if i == 0 {
        RedstonePos { x: p.x.wrapping_sub(1), y: p.y, z: p.z }
    } else if i == 1 {
        RedstonePos { x: p.x.wrapping_add(1), y: p.y, z: p.z }
    } else if i == 2 {
        RedstonePos { x: p.x, y: p.y.wrapping_sub(1), z: p.z }
    } else if i == 3 {
        RedstonePos { x: p.x, y: p.y.wrapping_add(1), z: p.z }
    } else if i == 4 {
        RedstonePos { x: p.x, y: p.y, z: p.z.wrapping_sub(1) }
    } else {
        RedstonePos { x: p.x, y: p.y, z: p.z.wrapping_add(1) }
    }
}

/// The six face neighbours of a position.
pub open spec fn neighbor_set(p: RedstonePos) -> Set<RedstonePos> {
    Set::empty().insert(spec_neighbor(p, 0)).insert(spec_neighbor(p, 1)).insert(
        spec_neighbor(p, 2),
    ).insert(spec_neighbor(p, 3)).insert(spec_neighbor(p, 4)).insert(spec_neighbor(p, 5))
}

/// The chunk holding a world position.
pub open spec fn spec_chunk_of(p: RedstonePos) -> ChunkPos {
    ChunkPos { x: (p.x as int / 16) as i32, z: (p.z as int / 16) as i32 }
}

/// Whether a world position is inside the stored height range.
pub open spec fn spec_in_height(p: RedstonePos) -> bool {
    0 <= p.y < CHUNK_SIZE_Y
}

/// The voxel at a world position, if it lies in a loaded chunk.
pub open spec fn world_voxel(chunks: ChunkMap, p: RedstonePos) -> Option<Voxel> {
    if spec_in_height(p) && chunks.keys().contains(spec_chunk_of(p)) {
        Some(chunks.voxel_at(spec_chunk_of(p), p.x as int % 16, p.y as int, p.z as int % 16))
    } else {
        None
    }
}

/// `new` is `old` with the voxel at `pos` replaced by `v` when `pos` is loaded.
pub open spec fn world_write(old: ChunkMap, new: ChunkMap, pos: RedstonePos, v: Voxel) -> bool {
    &&& new.keys() == old.keys()
    &&& forall|p: RedstonePos| #[trigger]
        world_voxel(new, p) == (if p == pos && world_voxel(old, p).is_some() {
            Some(v)
        } else {
            world_voxel(old, p)
        })
}

/// Same loaded chunks, same enumeration of them.
pub open spec fn same_layout(old: ChunkMap, new: ChunkMap) -> bool {
    &&& new.wf()
    &&& new.keys() == old.keys()
    &&& new.spec_len() == old.spec_len()
    &&& forall|q: ChunkPos| old.keys().contains(q) ==> #[trigger] new.key_index(q) == old.key_index(q)
}

pub proof fn lemma_same_layout_trans(a: ChunkMap, b: ChunkMap, c: ChunkMap)
    requires
        same_layout(a, b),
        same_layout(b, c),
    ensures
        same_layout(a, c),
{
}

/// Two positions in the same chunk with the same local coordinates are the same position.
pub proof fn lemma_world_pos_unique(p: RedstonePos, q: RedstonePos)
    requires
        spec_chunk_of(p) == spec_chunk_of(q),
        p.x as int % 16 == q.x as int % 16,
        p.z as int % 16 == q.z as int % 16,
        p.y == q.y,
    ensures
        p == q,
{
    assert(p.x as int == 16 * (p.x as int / 16) + p.x as int % 16);
    assert(q.x as int == 16 * (q.x as int / 16) + q.x as int % 16);
    assert(p.z as int == 16 * (p.z as int / 16) + p.z as int % 16);
    assert(q.z as int == 16 * (q.z as int / 16) + q.z as int % 16);
    assert((p.x as int / 16) as i32 == (q.x as int / 16) as i32);
    assert(-134217728 <= p.x as int / 16 < 134217728);
    assert(-134217728 <= q.x as int / 16 < 134217728);
    assert(-134217728 <= p.z as int / 16 < 134217728);
    assert(-134217728 <= q.z as int / 16 < 134217728);
}

impl RedstonePos {
    pub fn new(x: i32, y: i32, z: i32) -> (res: Self)
        ensures
            res == (RedstonePos { x, y, z }),
    {
        RedstonePos { x, y, z }
    }

    /// The six face neighbours, in the order -x, +x, -y, +y, -z, +z.
    pub fn neighbors(&self) -> (res: [RedstonePos; 6])
        ensures
            forall|i: int| 0 <= i < 6 ==> #[trigger] res@[i] == spec_neighbor(*self, i),
    {
        [
            RedstonePos::new(self.x.wrapping_sub(1), self.y, self.z),
            RedstonePos::new(self.x.wrapping_add(1), self.y, self.z),
            RedstonePos::new(self.x, self.y.wrapping_sub(1), self.z),
            RedstonePos::new(self.x, self.y.wrapping_add(1), self.z),
            RedstonePos::new(self.x, self.y, self.z.wrapping_sub(1)),
            RedstonePos::new(self.x, self.y, self.z.wrapping_add(1)),
        ]
    }

    /// Chunk position and local (x, y, z) of this world position.
    pub fn to_chunk_local(&self) -> (res: (ChunkPos, usize, usize, usize))
        ensures
            res.0 == spec_chunk_of(*self),
            res.1 == self.x as int % 16,
            res.2 == self.y as usize,
            res.3 == self.z as int % 16,
    {
        let cx = self.x.checked_div_euclid(16).unwrap();
        let cz = self.z.checked_div_euclid(16).unwrap();
        let lx = self.x.checked_rem_euclid(16).unwrap();
        let lz = self.z.checked_rem_euclid(16).unwrap();
        (ChunkPos::new(cx, cz), lx as usize, self.y as usize, lz as usize)
    }

    /// Exact equality of two positions.
    pub fn same(&self, other: &RedstonePos) -> (res: bool)
        ensures
            res == (*self == *other),
    {
        self.x == other.x && self.y == other.y && self.z == other.z
    }
}

/// Lexicographic order on (x, y, z).
pub open spec fn pos_lt(a: RedstonePos, b: RedstonePos) -> bool {
    a.x < b.x || (a.x == b.x && (a.y < b.y || (a.y == b.y && a.z < b.z)))
}

fn pos_less(a: &RedstonePos, b: &RedstonePos) -> (res: bool)
    ensures
        res == pos_lt(*a, *b),
{
    a.x < b.x || (a.x == b.x && (a.y < b.y || (a.y == b.y && a.z < b.z)))
}

/// A set of world positions kept in ascending (x, y, z) order.
#[derive(Debug, Clone)]
pub struct RedstonePosSet {
    items: Vec<RedstonePos>,
}

impl RedstonePosSet {
    pub closed spec fn wf(&self) -> bool {
        forall|i: int, j: int|
            0 <= i < j < self.items@.len() ==> pos_lt(#[trigger] self.items@[i], #[trigger] self.items@[j])
    }

    /// The positions held.
    pub closed spec fn view(&self) -> Set<RedstonePos> {
        self.items@.to_set()
    }

    /// The positions in ascending order.
    pub closed spec fn ordered(&self) -> Seq<RedstonePos> {
        self.items@
    }

    pub proof fn lemma_ordered(&self)
        requires
            self.wf(),
        ensures
            self.ordered().to_set() == self@,
            forall|i: int, j: int|
                0 <= i < j < self.ordered().len() ==> pos_lt(
                    #[trigger] self.ordered()[i],
                    #[trigger] self.ordered()[j],
                ),
            self.ordered().no_duplicates(),
    {
        assert forall|i: int, j: int|
            0 <= i < self.items@.len() && 0 <= j < self.items@.len() && i != j implies self.items@[i]
            != self.items@[j] by {
            if i < j {
                assert(pos_lt(self.items@[i], self.items@[j]));
            } else {
                assert(pos_lt(self.items@[j], self.items@[i]));
            }
        }
    }

    /// An empty set.
    pub fn new() -> (res: Self)
        ensures
            res.wf(),
            res@ == Set::<RedstonePos>::empty(),
    {
        let res = RedstonePosSet { items: Vec::new() };
        assert(res@ =~= Set::<RedstonePos>::empty());
        res
    }

    /// Whether a position is held.
    pub fn contains(&self, pos: &RedstonePos) -> (res: bool)
        ensures
            res == self@.contains(*pos),
    {
        let mut i: usize = 0;
        while i < self.items.len()
            invariant
                i <= self.items@.len(),
                forall|j: int| 0 <= j < i ==> self.items@[j] != *pos,
            decreases self.items@.len() - i,
        {
            if self.items[i].same(pos) {
                assert(self.items@.contains(*pos));
                return true;
            }
            i = i + 1;
        }
        assert(!self.items@.contains(*pos));
        false
    }

    /// Add a position, keeping ascending order (no effect if already held).
    pub fn insert(&mut self, pos: RedstonePos)
        requires
            old(self).wf(),
        ensures
            final(self).wf(),
            final(self)@ == old(self)@.insert(pos),
    {
        let ghost old_items = self.items@;
        let mut k: usize = 0;
        while k < self.items.len() && pos_less(&self.items[k], &pos)
            invariant
                self.items@ == old_items,
                k <= self.items@.len(),
                forall|j: int| 0 <= j < k ==> pos_lt(#[trigger] self.items@[j], pos),
            decreases self.items@.len() - k,
        {
            k = k + 1;
        }
        if k < self.items.len() && self.items[k].same(&pos) {
            proof {
                assert(old_items[k as int] == pos);
                assert(old_items.contains(pos));
                assert(old_items.to_set().contains(pos));
                assert forall|q: RedstonePos|
                self.items@.to_set().contains(q) == old_items.to_set().insert(pos).contains(q) by {
                assert(self.items@.to_set().contains(q) == self.items@.contains(q));
                assert(old_items.to_set().contains(q) == old_items.contains(q));
            }
            assert(self.items@.to_set() =~= old_items.to_set().insert(pos));
            }
            return;
        }
        self.items.insert(k, pos);
        proof {
            assert(self.items@ == old_items.insert(k as int, pos));
            assert forall|i: int, j: int|
                0 <= i < j < self.items@.len() implies pos_lt(
                #[trigger] self.items@[i],
                #[trigger] self.items@[j],
            ) by {
                if j < k {
                } else if j == k {
                    assert(self.items@[i] == old_items[i]);
                } else if i < k {
                    assert(self.items@[j] == old_items[j - 1]);
                    if j - 1 > k {
                        assert(pos_lt(old_items[k as int], old_items[j - 1]));
                    }
                } else if i == k {
                    assert(self.items@[j] == old_items[j - 1]);
                    assert(!pos_lt(old_items[k as int], pos));
                    assert(old_items[k as int] != pos);
                    if j - 1 > k {
                        assert(pos_lt(old_items[k as int], old_items[j - 1]));
                    }
                } else {
                    assert(pos_lt(old_items[i - 1], old_items[j - 1]));
                }
            }
            assert forall|q: RedstonePos|
                self.items@.contains(q) <==> (old_items.contains(q) || q == pos) by {
                assert(self.items@ == old_items.insert(k as int, pos));
                if self.items@.contains(q) {
                    let t = choose|t: int| 0 <= t < self.items@.len() && self.items@[t] == q;
                    if t < k {
                        assert(old_items[t] == q);
                    } else if t > k {
                        assert(old_items[t - 1] == q);
                    }
                }
                if old_items.contains(q) {
                    let t = choose|t: int| 0 <= t < old_items.len() && old_items[t] == q;
                    if t < k {
                        assert(self.items@[t] == q);
                    } else {
                        assert(self.items@[t + 1] == q);
                    }
                }
                if q == pos {
                    assert(self.items@[k as int] == q);
                }
            }
            assert forall|q: RedstonePos|
                self.items@.to_set().contains(q) == old_items.to_set().insert(pos).contains(q) by {
                assert(self.items@.to_set().contains(q) == self.items@.contains(q));
                assert(old_items.to_set().contains(q) == old_items.contains(q));
            }
            assert(self.items@.to_set() =~= old_items.to_set().insert(pos));
        }
    }

    /// Number of positions held.
    pub fn len(&self) -> (res: usize)
        requires
            self.wf(),
        ensures
            res == self@.len(),
    {
        proof {
            self.lemma_ordered();
            self.items@.unique_seq_to_set();
        }
        self.items.len()
    }

    /// Whether no position is held.
    pub fn is_empty(&self) -> (res: bool)
        ensures
            res == (self@ == Set::<RedstonePos>::empty()),
    {
        if self.items.len() == 0 {
            assert(self@ =~= Set::<RedstonePos>::empty());
            true
        } else {
            assert(self@.contains(self.items@[0]));
            false
        }
    }

    /// The positions in ascending order.
    pub fn to_vec(&self) -> (res: Vec<RedstonePos>)
        ensures
            res@ == self.ordered(),
    {
        let res = self.items.clone();
        assert(res@ =~= self.items@);
        res
    }
}


/// A scheduled change at a position: release of a button, a repeater / observer output, a
/// comparator output power or a piston extension, applied once the tick reaches `apply_tick`.
#[derive(Debug, Clone, Copy)]
struct ScheduledChange {
    pos: RedstonePos,
    apply_tick: u64,
    value: u8,
}

/// Clamp a coordinate difference to -1..=1.
pub open spec fn spec_unit(d: i32) -> i32 {
    if d < -1 {
        -1i32
    } else if d > 1 {
        1i32
    } else {
        d
    }
}

/// Whether `to` is the cell directly in front of a block facing `f` at `from`.
pub open spec fn spec_is_front(from: RedstonePos, to: RedstonePos, f: Facing) -> bool {
    spec_unit(to.x.wrapping_sub(from.x)) == spec_offset(f).0 && spec_unit(
        to.y.wrapping_sub(from.y),
    ) == 0 && spec_unit(to.z.wrapping_sub(from.z)) == spec_offset(f).1
}

/// Power a voxel at `from` emits towards `to`.
pub open spec fn spec_emitted_power(from: RedstonePos, v: Voxel, to: RedstonePos) -> u8 {
    match spec_component_of(v.id) {
        Some(RedstoneComponent::Lever) | Some(RedstoneComponent::Button) | Some(
            RedstoneComponent::PressurePlate,
        ) | Some(RedstoneComponent::Torch) => if spec_is_active(v.state) {
            15
        } else {
            0
        },
        Some(RedstoneComponent::Wire) => spec_power(v.state) as u8,
        Some(RedstoneComponent::Repeater) | Some(RedstoneComponent::Observer) => if spec_is_active(
            v.state,
        ) && spec_is_front(from, to, spec_low_facing(v.state)) {
            15
        } else {
            0
        },
        Some(RedstoneComponent::Comparator) => if spec_is_front(
            from,
            to,
            spec_low_facing(v.state),
        ) {
            spec_comparator_output(v.state) as u8
        } else {
            0
        },
        _ => 0,
    }
}

fn unit(d: i32) -> (res: i32)
    ensures
        res == spec_unit(d),
{
    if d < -1 {
        -1
    } else if d > 1 {
        1
    } else {
        d
    }
}

/// Lever state after a toggle: active flag flipped and power 15 or 0 to match.
pub open spec fn spec_lever_toggled(state: BlockState) -> BlockState {
    let a = !spec_is_active(state);
    spec_with_power(with_flag(state, 0x10, a), if a {
        15
    } else {
        0
    })
}

/// State of a button or plate switched on (power 15) or off (power 0).
pub open spec fn spec_switch_state(state: BlockState, on: bool) -> BlockState {
    with_flag(spec_with_power(state, if on {
        15
    } else {
        0
    }), 0x10, on)
}

/// Redstone simulator for power propagation.
pub struct RedstoneSimulator {
    pending_updates: RedstonePosSet,
    button_timers: Vec<ScheduledChange>,
    repeater_timers: Vec<ScheduledChange>,
    comparator_timers: Vec<ScheduledChange>,
    observer_timers: Vec<ScheduledChange>,
    piston_timers: Vec<ScheduledChange>,
    current_tick: u64,
    dirty_chunks: ChunkPosSet,
    dirty_light_chunks: ChunkPosSet,
    dirty_geometry_chunks: ChunkPosSet,
    dirty_geometry_positions: RedstonePosSet,
}

/// Every change in the list is due strictly after tick `t`.
spec fn all_after(v: Seq<ScheduledChange>, t: u64) -> bool {
    forall|i: int| 0 <= i < v.len() ==> (#[trigger] v[i]).apply_tick > t
}

impl RedstoneSimulator {
    pub closed spec fn wf(&self) -> bool {
        &&& self.pending_updates.wf()
        &&& self.dirty_chunks.wf()
        &&& self.dirty_light_chunks.wf()
        &&& self.dirty_geometry_chunks.wf()
        &&& self.dirty_geometry_positions.wf()
    }

    /// Positions waiting to be re-evaluated on the next tick.
    pub closed spec fn pending(&self) -> Set<RedstonePos> {
        self.pending_updates@
    }

    /// Current simulation tick.
    pub closed spec fn now(&self) -> u64 {
        self.current_tick
    }

    /// Chunks whose meshes need rebuilding.
    pub closed spec fn dirty(&self) -> Set<ChunkPos> {
        self.dirty_chunks@
    }

    /// Chunks whose block light needs recomputing.
    pub closed spec fn dirty_light(&self) -> Set<ChunkPos> {
        self.dirty_light_chunks@
    }

    /// Chunks whose geometry changed (pistons).
    pub closed spec fn dirty_geometry(&self) -> Set<ChunkPos> {
        self.dirty_geometry_chunks@
    }

    /// Positions whose geometry changed (pistons).
    pub closed spec fn dirty_geometry_positions_view(&self) -> Set<RedstonePos> {
        self.dirty_geometry_positions@
    }

    /// Pending button releases as (position, release tick), in scheduling order.
    pub closed spec fn button_releases(&self) -> Seq<(RedstonePos, u64)> {
        self.button_timers@.map_values(|t: ScheduledChange| (t.pos, t.apply_tick))
    }

    /// Every scheduled change is due strictly after tick `t`.
    pub closed spec fn nothing_due_by(&self, t: u64) -> bool {
        &&& all_after(self.button_timers@, t)
        &&& all_after(self.repeater_timers@, t)
        &&& all_after(self.comparator_timers@, t)
        &&& all_after(self.observer_timers@, t)
        &&& all_after(self.piston_timers@, t)
    }

    /// Nothing scheduled at all.
    pub closed spec fn no_scheduled_changes(&self) -> bool {
        &&& self.button_timers@.len() == 0
        &&& self.repeater_timers@.len() == 0
        &&& self.comparator_timers@.len() == 0
        &&& self.observer_timers@.len() == 0
        &&& self.piston_timers@.len() == 0
    }

    /// Same scheduled changes.
    /// The changes that are due by tick `t`, in the order a tick applies them: button
    /// releases, then repeater, comparator, observer and piston changes, each in scheduling
    /// order.
    pub closed spec fn due_changes(&self, t: u64) -> Seq<DueChange> {
        due_by(self.button_timers@, t).map_values(|c: ScheduledChange| DueChange::Release(c.pos))
            + due_by(self.repeater_timers@, t).map_values(|c: ScheduledChange| DueChange::Repeater(c.pos, c.value != 0))
            + due_by(self.comparator_timers@, t).map_values(|c: ScheduledChange| DueChange::Comparator(c.pos, c.value))
            + due_by(self.observer_timers@, t).map_values(|c: ScheduledChange| DueChange::Observer(c.pos, c.value != 0))
            + due_by(self.piston_timers@, t).map_values(|c: ScheduledChange| DueChange::Piston(c.pos, c.value != 0))
    }

    pub closed spec fn timers_same(&self, other: &Self) -> bool {
        &&& self.button_timers@ == other.button_timers@
        &&& self.repeater_timers@ == other.repeater_timers@
        &&& self.comparator_timers@ == other.comparator_timers@
        &&& self.observer_timers@ == other.observer_timers@
        &&& self.piston_timers@ == other.piston_timers@
    }

    /// A simulator at tick 0 with nothing pending.
    pub fn new() -> (res: Self)
        ensures
            res.wf(),
            res.pending() == Set::<RedstonePos>::empty(),
            res.now() == 0,
            res.dirty() == Set::<ChunkPos>::empty(),
            res.dirty_light() == Set::<ChunkPos>::empty(),
            res.dirty_geometry() == Set::<ChunkPos>::empty(),
            res.dirty_geometry_positions_view() == Set::<RedstonePos>::empty(),
            res.no_scheduled_changes(),
    {
        RedstoneSimulator {
            pending_updates: RedstonePosSet::new(),
            button_timers: Vec::new(),
            repeater_timers: Vec::new(),
            comparator_timers: Vec::new(),
            observer_timers: Vec::new(),
            piston_timers: Vec::new(),
            current_tick: 0,
            dirty_chunks: ChunkPosSet::new(),
            dirty_light_chunks: ChunkPosSet::new(),
            dirty_geometry_chunks: ChunkPosSet::new(),
            dirty_geometry_positions: RedstonePosSet::new(),
        }
    }

    /// Schedule a redstone update at a position.
    pub fn schedule_update(&mut self, pos: RedstonePos)
        requires
            old(self).wf(),
        ensures
            final(self).wf(),
            final(self).pending() == old(self).pending().insert(pos),
            final(self).now() == old(self).now(),
            final(self).dirty() == old(self).dirty(),
            final(self).dirty_light() == old(self).dirty_light(),
            final(self).dirty_geometry() == old(self).dirty_geometry(),
            final(self).dirty_geometry_positions_view() == old(self).dirty_geometry_positions_view(),
            final(self).timers_same(old(self)),
    {
        self.pending_updates.insert(pos);
    }

    fn schedule_neighbors(&mut self, pos: RedstonePos)
        requires
            old(self).wf(),
        ensures
            final(self).wf(),
            final(self).pending() == old(self).pending().union(neighbor_set(pos)),
            final(self).now() == old(self).now(),
            final(self).dirty() == old(self).dirty(),
            final(self).dirty_light() == old(self).dirty_light(),
            final(self).dirty_geometry() == old(self).dirty_geometry(),
            final(self).dirty_geometry_positions_view() == old(self).dirty_geometry_positions_view(),
            final(self).timers_same(old(self)),
    {
        let ns = pos.neighbors();
        self.pending_updates.insert(ns[0]);
        self.pending_updates.insert(ns[1]);
        self.pending_updates.insert(ns[2]);
        self.pending_updates.insert(ns[3]);
        self.pending_updates.insert(ns[4]);
        self.pending_updates.insert(ns[5]);
        proof {
            assert(self.pending() =~= old(self).pending().union(neighbor_set(pos)));
        }
    }

    /// The voxel at a world position, if loaded.
    fn get_voxel(&self, pos: RedstonePos, chunks: &ChunkMap) -> (res: Option<Voxel>)
        requires
            chunks.wf(),
        ensures
            res == world_voxel(*chunks, pos),
    {
        if pos.y < 0 || pos.y >= CHUNK_SIZE_Y as i32 {
            return None;
        }
        let (chunk_pos, lx, ly, lz) = pos.to_chunk_local();
        chunks.voxel(&chunk_pos, lx, ly, lz)
    }

    /// Write a voxel at a world position (if loaded), marking its chunk dirty and, when the
    /// block light changes, light-dirty.
    fn set_voxel(&mut self, pos: RedstonePos, voxel: Voxel, chunks: &mut ChunkMap)
        requires
            old(self).wf(),
            old(chunks).wf(),
        ensures
            final(self).wf(),
            same_layout(*old(chunks), *final(chunks)),
            world_write(*old(chunks), *final(chunks), pos, voxel),
            final(self).pending() == old(self).pending(),
            final(self).now() == old(self).now(),
            final(self).timers_same(old(self)),
            final(self).dirty() == (if world_voxel(*old(chunks), pos).is_some() {
                old(self).dirty().insert(spec_chunk_of(pos))
            } else {
                old(self).dirty()
            }),
            final(self).dirty_light() == (if world_voxel(*old(chunks), pos).is_some()
                && world_voxel(*old(chunks), pos).unwrap().light_block != voxel.light_block {
                old(self).dirty_light().insert(spec_chunk_of(pos))
            } else {
                old(self).dirty_light()
            }),
            final(self).dirty_geometry() == old(self).dirty_geometry(),
            final(self).dirty_geometry_positions_view() == old(self).dirty_geometry_positions_view(),
    {
        if pos.y < 0 || pos.y >= CHUNK_SIZE_Y as i32 {
            proof {
                assert(world_write(*chunks, *chunks, pos, voxel));
            }
            return;
        }
        let (chunk_pos, lx, ly, lz) = pos.to_chunk_local();
        let ghost old_chunks = *chunks;
        match chunks.voxel(&chunk_pos, lx, ly, lz) {
            Some(old_voxel) => {
                chunks.set_voxel(&chunk_pos, lx, ly, lz, voxel);
                self.dirty_chunks.insert(chunk_pos);
                if old_voxel.light_block != voxel.light_block {
                    self.dirty_light_chunks.insert(chunk_pos);
                }
                proof {
                    lemma_world_write(old_chunks, *chunks, pos, voxel);
                }
            },
            None => {
                proof {
                    assert(world_write(*chunks, *chunks, pos, voxel));
                }
            },
        }
    }
}

/// After writing one cell of the chunk holding `pos`, the world view changed exactly at `pos`.
pub proof fn lemma_world_write(old: ChunkMap, new: ChunkMap, pos: RedstonePos, v: Voxel)
    requires
        old.wf(),
        new.wf(),
        spec_in_height(pos),
        old.keys().contains(spec_chunk_of(pos)),
        new.keys() == old.keys(),
        new.cells_at(spec_chunk_of(pos)) == old.cells_at(spec_chunk_of(pos)).update(
            voxel_index(pos.x as int % 16, pos.y as int, pos.z as int % 16),
            v,
        ),
        forall|q: ChunkPos|
            q != spec_chunk_of(pos) && old.keys().contains(q) ==> #[trigger] new.cells_at(q)
                == old.cells_at(q),
    ensures
        world_write(old, new, pos, v),
{
    assert forall|p: RedstonePos| #[trigger]
        world_voxel(new, p) == (if p == pos && world_voxel(old, p).is_some() {
            Some(v)
        } else {
            world_voxel(old, p)
        }) by {
        if spec_in_height(p) && old.keys().contains(spec_chunk_of(p)) {
            old.lemma_wf_cells(spec_chunk_of(p));
            let ip = voxel_index(p.x as int % 16, p.y as int, p.z as int % 16);
            let iq = voxel_index(pos.x as int % 16, pos.y as int, pos.z as int % 16);
            lemma_voxel_index_bounds(p.x as int % 16, p.y as int, p.z as int % 16);
            if spec_chunk_of(p) == spec_chunk_of(pos) && p != pos {
                if ip == iq {
                    lemma_voxel_index_injective(
                        p.x as int % 16,
                        p.y as int,
                        p.z as int % 16,
                        pos.x as int % 16,
                        pos.y as int,
                        pos.z as int % 16,
                    );
                    lemma_world_pos_unique(p, pos);
                }
            }
        }
    }
}


/// The changes of `s` not scheduled at `pos`, in order.
spec fn without_pos(s: Seq<ScheduledChange>, pos: RedstonePos) -> Seq<ScheduledChange>
    decreases s.len(),
{
    if s.len() == 0 {
        s
    } else {
        let r = without_pos(s.drop_last(), pos);
        if s.last().pos == pos {
            r
        } else {
            r.push(s.last())
        }
    }
}

/// A timer list after re-evaluating the block at `pos`: untouched (`None`), cleared of the
/// position's changes, or cleared and given the new changes.
spec fn rescheduled(s: Seq<ScheduledChange>, pos: RedstonePos, plan: Option<Seq<ScheduledChange>>) -> Seq<ScheduledChange> {
    match plan {
        Some(new_changes) => without_pos(s, pos) + new_changes,
        None => s,
    }
}

/// `now + d`, saturating at the largest tick.
pub open spec fn tick_after(now: u64, d: int) -> u64 {
    if now + d > u64::MAX {
        u64::MAX
    } else {
        (now + d) as u64
    }
}

/// Drop every change scheduled at `pos`.
fn remove_at(timers: &mut Vec<ScheduledChange>, pos: RedstonePos)
    ensures
        forall|i: int|
            0 <= i < final(timers)@.len() ==> old(timers)@.contains(#[trigger] final(timers)@[i])
                && final(timers)@[i].pos != pos,
        final(timers)@ == without_pos(old(timers)@, pos),
{
    let ghost orig = timers@;
    let mut kept: Vec<ScheduledChange> = Vec::new();
    let mut i: usize = 0;
    while i < timers.len()
        invariant
            timers@ == orig,
            i <= timers@.len(),
            forall|k: int|
                0 <= k < kept@.len() ==> orig.contains(#[trigger] kept@[k]) && kept@[k].pos != pos,
            kept@ == without_pos(orig.take(i as int), pos),
        decreases timers@.len() - i,
    {
        proof {
            assert(orig.take(i + 1).drop_last() =~= orig.take(i as int));
        }
        let t = timers[i];
        if !t.pos.same(&pos) {
            kept.push(t);
            proof {
                assert(orig[i as int] == t);
                assert(orig.contains(t));
            }
        }
        i = i + 1;
    }
    assert(orig.take(i as int) =~= orig);
    *timers = kept;
}

/// Split off the changes due by `now` (in scheduling order); the rest stay.
fn take_due(timers: &mut Vec<ScheduledChange>, now: u64) -> (due: Vec<ScheduledChange>)
    ensures
        all_after(final(timers)@, now),
        forall|i: int|
            0 <= i < final(timers)@.len() ==> old(timers)@.contains(#[trigger] final(timers)@[i]),
        due@ == due_by(old(timers)@, now),
{
    let ghost orig = timers@;
    let mut kept: Vec<ScheduledChange> = Vec::new();
    let mut due: Vec<ScheduledChange> = Vec::new();
    let mut i: usize = 0;
    while i < timers.len()
        invariant
            timers@ == orig,
            i <= timers@.len(),
            all_after(kept@, now),
            forall|k: int| 0 <= k < kept@.len() ==> orig.contains(#[trigger] kept@[k]),
            due@ == due_by(orig.take(i as int), now),
        decreases timers@.len() - i,
    {
        let t = timers[i];
        proof {
            let pred = |x: ScheduledChange| x.apply_tick <= now;
            assert(orig.take(i + 1) =~= orig.take(i as int).push(t));
            orig.take(i as int).lemma_filter_push(t, pred);
            assert(orig.take(i + 1).filter(pred) == if pred(t) {
                orig.take(i as int).filter(pred).push(t)
            } else {
                orig.take(i as int).filter(pred)
            });
        }
        if t.apply_tick <= now {
            due.push(t);
        } else {
            kept.push(t);
            proof {
                assert(orig[i as int] == t);
                assert(orig.contains(t));
            }
        }
        i = i + 1;
    }
    assert(orig.take(i as int) =~= orig);
    *timers = kept;
    due
}

/// The changes of a timer list that are due by `now`, in scheduling order.
spec fn due_by(s: Seq<ScheduledChange>, now: u64) -> Seq<ScheduledChange> {
    s.filter(|t: ScheduledChange| t.apply_tick <= now)
}

/// A scheduled change that has come due: a button release, a repeater output, a
/// comparator output power, an observer output or a piston extension.
pub enum DueChange {
    Release(RedstonePos),
    Repeater(RedstonePos, bool),
    Comparator(RedstonePos, u8),
    Observer(RedstonePos, bool),
    Piston(RedstonePos, bool),
}

/// The world and pending set after one due change, from `(c0, p0)` to `(c1, p1)`: the block
/// written when it is of the right kind and its output changes (its neighbours then
/// scheduled; for a piston, the moved blocks and what they touch), and nothing otherwise.
pub open spec fn due_applied(
    c0: ChunkMap,
    p0: Set<RedstonePos>,
    c1: ChunkMap,
    p1: Set<RedstonePos>,
    ch: DueChange,
) -> bool {
    match ch {
        DueChange::Release(pos) => {
            let v = world_voxel(c0, pos);
            if v.is_some() && (v.unwrap().id == redstone_blocks::STONE_BUTTON || v.unwrap().id
                == redstone_blocks::OAK_BUTTON) {
                &&& world_write(c0, c1, pos, Voxel { state: with_flag(spec_with_power(v.unwrap().state, 0), 0x10, false), ..v.unwrap() })
                &&& p1 == p0.union(neighbor_set(pos))
            } else {
                c1 == c0 && p1 == p0
            }
        },
        DueChange::Repeater(pos, desired_active) => {
            let v = world_voxel(c0, pos);
            if v.is_some() && v.unwrap().id == redstone_blocks::REDSTONE_REPEATER && spec_is_active(v.unwrap().state) != desired_active {
                &&& world_write(c0, c1, pos, Voxel { state: with_flag(v.unwrap().state, 0x10, desired_active), ..v.unwrap() })
                &&& p1 == p0.union(neighbor_set(pos))
            } else {
                c1 == c0 && p1 == p0
            }
        },
        DueChange::Comparator(pos, desired_power) => {
            let v = world_voxel(c0, pos);
            if v.is_some() && v.unwrap().id == redstone_blocks::REDSTONE_COMPARATOR && spec_comparator_output(v.unwrap().state) != desired_power {
                &&& world_write(c0, c1, pos, Voxel { state: with_flag(with_field(v.unwrap().state, 15, 5, (if desired_power > 15 { 15 } else { desired_power }) as u16), 0x10, desired_power > 0), ..v.unwrap() })
                &&& p1 == p0.union(neighbor_set(pos))
            } else {
                c1 == c0 && p1 == p0
            }
        },
        DueChange::Observer(pos, desired_active) => {
            let v = world_voxel(c0, pos);
            if v.is_some() && v.unwrap().id == redstone_blocks::REDSTONE_OBSERVER && spec_is_active(v.unwrap().state) != desired_active {
                &&& world_write(c0, c1, pos, Voxel { state: with_flag(v.unwrap().state, 0x10, desired_active), ..v.unwrap() })
                &&& p1 == p0.union(neighbor_set(pos))
            } else {
                c1 == c0 && p1 == p0
            }
        },
        DueChange::Piston(pos, desired_extended) => match piston_moves(c0, pos, desired_extended) {
            Some(m) => writes_applied(c0, c1, m.0) && p1 == p0.union(touched(m.1)),
            None => c1 == c0 && p1 == p0,
        },
    }
}

/// The worlds `cs` and pending sets `ps` that applying the due changes `ops` in order goes
/// through, from `(c0, p0)`.
pub open spec fn due_run(
    c0: ChunkMap,
    p0: Set<RedstonePos>,
    ops: Seq<DueChange>,
    cs: Seq<ChunkMap>,
    ps: Seq<Set<RedstonePos>>,
) -> bool {
    &&& cs.len() == ops.len() + 1
    &&& ps.len() == ops.len() + 1
    &&& cs[0] == c0
    &&& ps[0] == p0
    &&& forall|j: int| 0 <= j < ops.len() ==> #[trigger] due_applied(cs[j], ps[j], cs[j + 1], ps[j + 1], ops[j])
}

/// Positions in strictly ascending order.
pub open spec fn ascending(s: Seq<RedstonePos>) -> bool {
    forall|i: int, j: int| 0 <= i < j < s.len() ==> pos_lt(#[trigger] s[i], #[trigger] s[j])
}

/// The first `j` neighbours of `p` (in the order of `spec_neighbor`) that are not in `vis`.
pub open spec fn fresh_neighbors(p: RedstonePos, vis: Seq<RedstonePos>, j: int) -> Seq<RedstonePos>
    decreases j,
{
    if j <= 0 {
        Seq::empty()
    } else if vis.contains(spec_neighbor(p, j - 1)) {
        fresh_neighbors(p, vis, j - 1)
    } else {
        fresh_neighbors(p, vis, j - 1).push(spec_neighbor(p, j - 1))
    }
}

/// One step of the breadth-first re-evaluation, over states (world, queue, queue head,
/// visited positions): the position at the head is taken; one already visited is skipped;
/// otherwise it is marked visited and re-evaluated, and when its block changed its
/// neighbours not yet visited join the queue.
pub open spec fn bfs_next(
    a: (ChunkMap, Seq<RedstonePos>, int, Seq<RedstonePos>),
    b: (ChunkMap, Seq<RedstonePos>, int, Seq<RedstonePos>),
) -> bool {
    let p = a.1[a.2];
    &&& 0 <= a.2 < a.1.len()
    &&& b.2 == a.2 + 1
    &&& if a.3.contains(p) {
        b.0 == a.0 && b.1 == a.1 && b.3 == a.3
    } else {
        &&& processed(a.0, b.0, p)
        &&& b.3 == a.3.push(p)
        &&& b.1 == if process_changes(a.0, p) {
            a.1 + fresh_neighbors(p, b.3, 6)
        } else {
            a.1
        }
    }
}

/// A whole breadth-first run from world `c` with pending set `pend`: the queue starts as the
/// pending positions in ascending order, every step is `bfs_next`, and the run ends when the
/// queue is used up.
pub open spec fn bfs_run(c: ChunkMap, pend: Set<RedstonePos>, tr: Seq<(ChunkMap, Seq<RedstonePos>, int, Seq<RedstonePos>)>) -> bool {
    &&& tr.len() >= 1
    &&& tr[0].0 == c
    &&& tr[0].2 == 0
    &&& tr[0].3 == Seq::<RedstonePos>::empty()
    &&& ascending(tr[0].1)
    &&& tr[0].1.to_set() == pend
    &&& forall|j: int| 0 <= j < tr.len() - 1 ==> #[trigger] bfs_next(tr[j], tr[j + 1])
    &&& tr.last().2 == tr.last().1.len()
}

/// One tick's effect on the world: the due changes `ops` applied in order from `(c0, p0)`,
/// then the breadth-first re-evaluation of what is pending after them.
pub open spec fn tick_run(
    c0: ChunkMap,
    p0: Set<RedstonePos>,
    ops: Seq<DueChange>,
    cs: Seq<ChunkMap>,
    ps: Seq<Set<RedstonePos>>,
    tr: Seq<(ChunkMap, Seq<RedstonePos>, int, Seq<RedstonePos>)>,
) -> bool {
    &&& due_run(c0, p0, ops, cs, ps)
    &&& bfs_run(cs.last(), ps.last(), tr)
}

proof fn lemma_subset_after(a: Seq<ScheduledChange>, b: Seq<ScheduledChange>, t: u64)
    requires
        all_after(a, t),
        forall|i: int| 0 <= i < b.len() ==> a.contains(#[trigger] b[i]),
    ensures
        all_after(b, t),
{
    assert forall|i: int| 0 <= i < b.len() implies (#[trigger] b[i]).apply_tick > t by {
        assert(a.contains(b[i]));
        let k = choose|k: int| 0 <= k < a.len() && a[k] == b[i];
        assert(a[k].apply_tick > t);
    }
}

impl RedstoneSimulator {
    /// What every re-evaluation step keeps: validity, loaded chunks, pending set, clock, and
    /// (while the clock is below its maximum) that nothing is overdue.
    spec fn update_frame(&self, old_s: &Self, old_c: ChunkMap, new_c: ChunkMap) -> bool {
        &&& self.wf()
        &&& same_layout(old_c, new_c)
        &&& self.pending() == old_s.pending()
        &&& self.now() == old_s.now()
        &&& (old_s.now() < u64::MAX && old_s.nothing_due_by(old_s.now()) ==> self.nothing_due_by(
            self.now(),
        ))
    }

    /// Power emitted by a voxel at `from` towards `to`.
    pub fn get_emitted_power_towards(&self, from: RedstonePos, voxel: Voxel, to: RedstonePos) -> (res:
        u8)
        ensures
            res == spec_emitted_power(from, voxel, to),
            res <= 15,
    {
        let dx = unit(to.x.wrapping_sub(from.x));
        let dy = unit(to.y.wrapping_sub(from.y));
        let dz = unit(to.z.wrapping_sub(from.z));
        match RedstoneComponent::from_block_id(voxel.id) {
            Some(RedstoneComponent::Lever) | Some(RedstoneComponent::Button) | Some(
                RedstoneComponent::PressurePlate,
            ) | Some(RedstoneComponent::Torch) => {
                if is_active(voxel.state) {
                    MAX_POWER
                } else {
                    0
                }
            },
            Some(RedstoneComponent::Wire) => get_power_level(voxel.state),
            Some(RedstoneComponent::Repeater) | Some(RedstoneComponent::Observer) => {
                if !is_active(voxel.state) {
                    return 0;
                }
                let (fx, fz) = Facing::from_state(voxel.state).offset();
                if dx == fx && dy == 0 && dz == fz {
                    MAX_POWER
                } else {
                    0
                }
            },
            Some(RedstoneComponent::Comparator) => {
                let output = comparator_output_power(voxel.state);
                if output == 0 {
                    return 0;
                }
                let (fx, fz) = Facing::from_state(voxel.state).offset();
                if dx == fx && dy == 0 && dz == fz {
                    output
                } else {
                    0
                }
            },
            _ => 0,
        }
    }

    /// Whether some face neighbour emits power towards `pos`.
    fn is_powered_by_neighbors(&self, pos: RedstonePos, chunks: &ChunkMap) -> (res: bool)
        requires
            chunks.wf(),
        ensures
            res == spec_powered_by_neighbors(*chunks, pos),
            res == exists|i: int|
                0 <= i < 6 && #[trigger] world_voxel(*chunks, spec_neighbor(pos, i)).is_some()
                    && spec_emitted_power(
                    spec_neighbor(pos, i),
                    world_voxel(*chunks, spec_neighbor(pos, i)).unwrap(),
                    pos,
                ) > 0,
    {
        let ns = pos.neighbors();
        let mut i: usize = 0;
        while i < 6
            invariant
                chunks.wf(),
                0 <= i <= 6,
                forall|k: int| 0 <= k < 6 ==> #[trigger] ns@[k] == spec_neighbor(pos, k),
                forall|k: int|
                    0 <= k < i ==> !(#[trigger] world_voxel(*chunks, spec_neighbor(pos, k)).is_some()
                        && spec_emitted_power(
                        spec_neighbor(pos, k),
                        world_voxel(*chunks, spec_neighbor(pos, k)).unwrap(),
                        pos,
                    ) > 0),
            decreases 6 - i,
        {
            let n = ns[i];
            match self.get_voxel(n, chunks) {
                Some(nv) => {
                    if self.get_emitted_power_towards(n, nv, pos) > 0 {
                        assert(world_voxel(*chunks, spec_neighbor(pos, i as int)).is_some());
                        return true;
                    }
                },
                None => {},
            }
            i = i + 1;
        }
        false
    }

    /// Re-evaluate a wire: strongest neighbour power minus one.
    fn update_wire(&mut self, pos: RedstonePos, chunks: &mut ChunkMap) -> (res: bool)
        requires
            old(self).wf(),
            old(chunks).wf(),
        ensures
            final(self).update_frame(old(self), *old(chunks), *final(chunks)),
            res ==> world_voxel(*old(chunks), pos).is_some(),
            applied(*old(chunks), *final(chunks), pos, wire_write(*old(chunks), pos)),
            res == wire_write(*old(chunks), pos).is_some(),
            final(self).timers_same(old(self)),
            final(self).dirty() == if wire_write(*old(chunks), pos).is_some() {
                old(self).dirty().insert(spec_chunk_of(pos))
            } else {
                old(self).dirty()
            },
    {
        let voxel = match self.get_voxel(pos, chunks) {
            Some(v) => v,
            None => return false,
        };
        let old_power = get_power_level(voxel.state);
        let mut max_power: u8 = 0;
        let ns = pos.neighbors();
        let mut i: usize = 0;
        while i < 6
            invariant
                chunks.wf(),
                0 <= i <= 6,
                max_power <= 15,
                max_power == max_received(*chunks, pos, i as int),
                forall|k: int| 0 <= k < 6 ==> #[trigger] ns@[k] == spec_neighbor(pos, k),
            decreases 6 - i,
        {
            let n = ns[i];
            match self.get_voxel(n, chunks) {
                Some(nv) => {
                    let np = self.get_emitted_power_towards(n, nv, pos);
                    if np > 0 {
                        let received = np.saturating_sub(1);
                        if received > max_power {
                            max_power = received;
                        }
                    }
                },
                None => {},
            }
            i = i + 1;
        }
        if max_power == old_power {
            return false;
        }
        let new_state = set_power_level(voxel.state, max_power);
        self.set_voxel(
            pos,
            Voxel { id: voxel.id, state: new_state, light_sky: voxel.light_sky, light_block: voxel.light_block },
            chunks,
        );
        true
    }

    /// Re-evaluate a lamp: lit exactly when a neighbour powers it.
    fn update_lamp(&mut self, pos: RedstonePos, chunks: &mut ChunkMap) -> (res: bool)
        requires
            old(self).wf(),
            old(chunks).wf(),
        ensures
            final(self).update_frame(old(self), *old(chunks), *final(chunks)),
            res ==> world_voxel(*old(chunks), pos).is_some(),
            applied(*old(chunks), *final(chunks), pos, lamp_write(*old(chunks), pos)),
            res == lamp_write(*old(chunks), pos).is_some(),
            final(self).timers_same(old(self)),
            final(self).dirty() == if lamp_write(*old(chunks), pos).is_some() {
                old(self).dirty().insert(spec_chunk_of(pos))
            } else {
                old(self).dirty()
            },
    {
        let voxel = match self.get_voxel(pos, chunks) {
            Some(v) => v,
            None => return false,
        };
        let powered = self.is_powered_by_neighbors(pos, chunks);
        let is_lit = voxel.id == redstone_blocks::REDSTONE_LAMP_LIT;
        if powered == is_lit {
            return false;
        }
        let new_id = if powered {
            redstone_blocks::REDSTONE_LAMP_LIT
        } else {
            redstone_blocks::REDSTONE_LAMP
        };
        self.set_voxel(
            pos,
            Voxel {
                id: new_id,
                state: voxel.state,
                light_sky: voxel.light_sky,
                light_block: if powered {
                    15
                } else {
                    0
                },
            },
            chunks,
        );
        true
    }

    /// Re-evaluate a door: powered doors open, unpowered ones close (only on a change of power).
    fn update_door(&mut self, pos: RedstonePos, chunks: &mut ChunkMap) -> (res: bool)
        requires
            old(self).wf(),
            old(chunks).wf(),
        ensures
            final(self).update_frame(old(self), *old(chunks), *final(chunks)),
            res ==> world_voxel(*old(chunks), pos).is_some(),
            final(self).timers_same(old(self)),
            res == door_change(*old(chunks), pos).is_some(),
            door_applied(*old(chunks), *final(chunks), pos),
    {
        let voxel = match self.get_voxel(pos, chunks) {
            Some(v) => v,
            None => return false,
        };
        if !is_door(voxel.id) {
            return false;
        }
        let lower_pos = if is_door_upper(voxel.id) {
            RedstonePos::new(pos.x, pos.y - 1, pos.z)
        } else {
            pos
        };
        let upper_pos = RedstonePos::new(lower_pos.x, lower_pos.y + 1, lower_pos.z);
        let lower_voxel = match self.get_voxel(lower_pos, chunks) {
            Some(v) => v,
            None => return false,
        };
        if !is_door(lower_voxel.id) {
            return false;
        }
        let powered = self.is_powered_by_neighbors(lower_pos, chunks)
            || self.is_powered_by_neighbors(upper_pos, chunks);
        let was_powered = is_redstone_powered(lower_voxel.state);
        if powered == was_powered {
            return false;
        }
        let new_state = set_door_open(set_redstone_powered(lower_voxel.state, powered), powered);
        let ghost c0 = *chunks;
        self.set_voxel(lower_pos, Voxel { state: new_state, ..lower_voxel }, chunks);
        let ghost c1 = *chunks;
        proof {
            assert(world_voxel(c1, upper_pos) == world_voxel(c0, upper_pos));
        }
        match self.get_voxel(upper_pos, chunks) {
            Some(upper_voxel) => {
                if is_door(upper_voxel.id) {
                    self.set_voxel(upper_pos, Voxel { state: new_state, ..upper_voxel }, chunks);
                    proof {
                        lemma_same_layout_trans(c0, c1, *chunks);
                    }
                }
            },
            None => {},
        }
        proof {
            assert(upper_pos == above(lower_pos));
            assert(c0 == *old(chunks));
            assert(world_write(c0, c1, lower_pos, Voxel { state: new_state, ..lower_voxel }) && applied(
                c1,
                *chunks,
                above(lower_pos),
                door_upper_write(c0, lower_pos, new_state),
            ));
        }
        true
    }

    /// Re-evaluate a trapdoor: powered ones open, unpowered ones close.
    fn update_trapdoor(&mut self, pos: RedstonePos, chunks: &mut ChunkMap) -> (res: bool)
        requires
            old(self).wf(),
            old(chunks).wf(),
        ensures
            final(self).update_frame(old(self), *old(chunks), *final(chunks)),
            res ==> world_voxel(*old(chunks), pos).is_some(),
            applied(*old(chunks), *final(chunks), pos, opener_write(*old(chunks), pos, crate::interactive_blocks::TRAPDOOR)),
            res == opener_write(*old(chunks), pos, crate::interactive_blocks::TRAPDOOR).is_some(),
            final(self).timers_same(old(self)),
            final(self).dirty() == if opener_write(*old(chunks), pos, crate::interactive_blocks::TRAPDOOR).is_some() {
                old(self).dirty().insert(spec_chunk_of(pos))
            } else {
                old(self).dirty()
            },
    {
        let voxel = match self.get_voxel(pos, chunks) {
            Some(v) => v,
            None => return false,
        };
        if !is_trapdoor(voxel.id) {
            return false;
        }
        let powered = self.is_powered_by_neighbors(pos, chunks);
        let was_powered = is_redstone_powered(voxel.state);
        if powered == was_powered {
            return false;
        }
        let new_state = set_trapdoor_open(set_redstone_powered(voxel.state, powered), powered);
        self.set_voxel(pos, Voxel { state: new_state, ..voxel }, chunks);
        true
    }

    /// Re-evaluate a fence gate: powered ones open, unpowered ones close.
    fn update_fence_gate(&mut self, pos: RedstonePos, chunks: &mut ChunkMap) -> (res: bool)
        requires
            old(self).wf(),
            old(chunks).wf(),
        ensures
            final(self).update_frame(old(self), *old(chunks), *final(chunks)),
            res ==> world_voxel(*old(chunks), pos).is_some(),
            applied(*old(chunks), *final(chunks), pos, opener_write(*old(chunks), pos, crate::interactive_blocks::OAK_FENCE_GATE)),
            res == opener_write(*old(chunks), pos, crate::interactive_blocks::OAK_FENCE_GATE).is_some(),
            final(self).timers_same(old(self)),
            final(self).dirty() == if opener_write(*old(chunks), pos, crate::interactive_blocks::OAK_FENCE_GATE).is_some() {
                old(self).dirty().insert(spec_chunk_of(pos))
            } else {
                old(self).dirty()
            },
    {
        let voxel = match self.get_voxel(pos, chunks) {
            Some(v) => v,
            None => return false,
        };
        if !is_fence_gate(voxel.id) {
            return false;
        }
        let powered = self.is_powered_by_neighbors(pos, chunks);
        let was_powered = is_redstone_powered(voxel.state);
        if powered == was_powered {
            return false;
        }
        let new_state = set_fence_gate_open(set_redstone_powered(voxel.state, powered), powered);
        self.set_voxel(pos, Voxel { state: new_state, ..voxel }, chunks);
        true
    }

    /// Re-evaluate a torch: on exactly when its supporting block carries no power.
    fn update_torch(&mut self, pos: RedstonePos, chunks: &mut ChunkMap) -> (res: bool)
        requires
            old(self).wf(),
            old(chunks).wf(),
        ensures
            final(self).update_frame(old(self), *old(chunks), *final(chunks)),
            res ==> world_voxel(*old(chunks), pos).is_some(),
            applied(*old(chunks), *final(chunks), pos, torch_write(*old(chunks), pos)),
            res == torch_write(*old(chunks), pos).is_some(),
            final(self).timers_same(old(self)),
            final(self).dirty() == if torch_write(*old(chunks), pos).is_some() {
                old(self).dirty().insert(spec_chunk_of(pos))
            } else {
                old(self).dirty()
            },
    {
        let voxel = match self.get_voxel(pos, chunks) {
            Some(v) => v,
            None => return false,
        };
        let support_pos = if is_torch_wall(voxel.state) {
            let (dx, dz) = torch_facing(voxel.state).offset();
            RedstonePos::new(pos.x.wrapping_sub(dx), pos.y, pos.z.wrapping_sub(dz))
        } else {
            RedstonePos::new(pos.x, pos.y - 1, pos.z)
        };
        let powered_from_support = match self.get_voxel(support_pos, chunks) {
            Some(sv) => get_power_level(sv.state) > 0,
            None => false,
        };
        let should_be_active = !powered_from_support;
        let was_active = is_active(voxel.state);
        if should_be_active == was_active {
            return false;
        }
        let new_power = if should_be_active {
            MAX_POWER
        } else {
            0
        };
        let new_state = set_active(set_power_level(voxel.state, new_power), should_be_active);
        self.set_voxel(
            pos,
            Voxel {
                id: voxel.id,
                state: new_state,
                light_sky: voxel.light_sky,
                light_block: if should_be_active {
                    7
                } else {
                    0
                },
            },
            chunks,
        );
        true
    }

    /// Re-evaluate a repeater: schedule its output to follow its input after its delay.
    fn update_repeater(&mut self, pos: RedstonePos, chunks: &mut ChunkMap) -> (res: bool)
        requires
            old(self).wf(),
            old(chunks).wf(),
        ensures
            final(self).update_frame(old(self), *old(chunks), *final(chunks)),
            !res,
            *final(chunks) == *old(chunks),
            final(self).repeater_timers@ == rescheduled(old(self).repeater_timers@, pos, repeater_plan(*old(chunks), pos, old(self).now())),
            final(self).button_timers@ == old(self).button_timers@,
            final(self).comparator_timers@ == old(self).comparator_timers@,
            final(self).observer_timers@ == old(self).observer_timers@,
            final(self).piston_timers@ == old(self).piston_timers@,
    {
        let voxel = match self.get_voxel(pos, chunks) {
            Some(v) => v,
            None => return false,
        };
        if voxel.id != redstone_blocks::REDSTONE_REPEATER {
            return false;
        }
        let (dx, dz) = repeater_facing(voxel.state).offset();
        let input_pos = RedstonePos::new(pos.x.wrapping_sub(dx), pos.y, pos.z.wrapping_sub(dz));
        let input_power = match self.get_voxel(input_pos, chunks) {
            Some(iv) => self.get_emitted_power_towards(input_pos, iv, pos),
            None => 0,
        };
        let desired_active = input_power > 0;
        let was_active = is_active(voxel.state);
        let ghost before = self.repeater_timers@;
        if desired_active == was_active {
            remove_at(&mut self.repeater_timers, pos);
            proof {
                if old(self).now() < u64::MAX && old(self).nothing_due_by(old(self).now()) {
                    lemma_subset_after(before, self.repeater_timers@, self.current_tick);
                }
            }
            return false;
        }
        let delay_ticks = repeater_delay_ticks(voxel.state) as u64;
        let apply_tick = self.current_tick.saturating_add(delay_ticks);
        remove_at(&mut self.repeater_timers, pos);
        proof {
            if old(self).now() < u64::MAX && old(self).nothing_due_by(old(self).now()) {
                lemma_subset_after(before, self.repeater_timers@, self.current_tick);
            }
        }
        self.repeater_timers.push(
            ScheduledChange { pos, apply_tick, value: if desired_active {
                1
            } else {
                0
            } },
        );
        false
    }

    /// Re-evaluate a comparator: schedule its output (compare or subtract mode) for next tick.
    fn update_comparator(&mut self, pos: RedstonePos, chunks: &mut ChunkMap) -> (res: bool)
        requires
            old(self).wf(),
            old(chunks).wf(),
        ensures
            final(self).update_frame(old(self), *old(chunks), *final(chunks)),
            !res,
            *final(chunks) == *old(chunks),
            final(self).comparator_timers@ == rescheduled(old(self).comparator_timers@, pos, comparator_plan(*old(chunks), pos, old(self).now())),
            final(self).button_timers@ == old(self).button_timers@,
            final(self).repeater_timers@ == old(self).repeater_timers@,
            final(self).observer_timers@ == old(self).observer_timers@,
            final(self).piston_timers@ == old(self).piston_timers@,
    {
        let voxel = match self.get_voxel(pos, chunks) {
            Some(v) => v,
            None => return false,
        };
        if voxel.id != redstone_blocks::REDSTONE_COMPARATOR {
            return false;
        }
        let (dx, dz) = comparator_facing(voxel.state).offset();
        let rear_pos = RedstonePos::new(pos.x.wrapping_sub(dx), pos.y, pos.z.wrapping_sub(dz));
        let left_pos = RedstonePos::new(pos.x.wrapping_add(dz), pos.y, pos.z.wrapping_sub(dx));
        let right_pos = RedstonePos::new(pos.x.wrapping_sub(dz), pos.y, pos.z.wrapping_add(dx));
        let rear_power = match self.get_voxel(rear_pos, chunks) {
            Some(rv) => {
                if is_chest(rv.id) || rv.id == mechanical_blocks::HOPPER || rv.id
                    == mechanical_blocks::DISPENSER || rv.id == mechanical_blocks::DROPPER {
                    get_power_level(rv.state)
                } else {
                    self.get_emitted_power_towards(rear_pos, rv, pos)
                }
            },
            None => 0,
        };
        let mut side_power_max: u8 = 0;
        match self.get_voxel(left_pos, chunks) {
            Some(sv) => {
                let p = self.get_emitted_power_towards(left_pos, sv, pos);
                if p > side_power_max {
                    side_power_max = p;
                }
            },
            None => {},
        }
        match self.get_voxel(right_pos, chunks) {
            Some(sv) => {
                let p = self.get_emitted_power_towards(right_pos, sv, pos);
                if p > side_power_max {
                    side_power_max = p;
                }
            },
            None => {},
        }
        let subtract = is_comparator_subtract_mode(voxel.state);
        let desired_power = if subtract {
            rear_power.saturating_sub(side_power_max)
        } else if rear_power >= side_power_max {
            rear_power
        } else {
            0
        };
        let was_power = comparator_output_power(voxel.state);
        let ghost before = self.comparator_timers@;
        if desired_power == was_power {
            remove_at(&mut self.comparator_timers, pos);
            proof {
                if old(self).now() < u64::MAX && old(self).nothing_due_by(old(self).now()) {
                    lemma_subset_after(before, self.comparator_timers@, self.current_tick);
                }
            }
            return false;
        }
        let apply_tick = self.current_tick.saturating_add(1);
        remove_at(&mut self.comparator_timers, pos);
        proof {
            if old(self).now() < u64::MAX && old(self).nothing_due_by(old(self).now()) {
                lemma_subset_after(before, self.comparator_timers@, self.current_tick);
            }
        }
        self.comparator_timers.push(ScheduledChange { pos, apply_tick, value: desired_power });
        false
    }

    /// Hash of the block an observer watches (never 0, so 0 can mean "unset").
    fn observed_voxel_hash(voxel: Option<Voxel>) -> (res: u8)
        ensures
            res & 1 == 1,
            res == spec_observed_hash(voxel),
    {
        let (id, state) = match voxel {
            Some(v) => (v.id as u32, v.state as u32),
            None => (0u32, 0u32),
        };
        let mut h = id.wrapping_mul(31) ^ state.wrapping_mul(131);
        h = h ^ (h >> 16u32);
        let low = (h & 0xFF) as u8;
        let r = low | 1;
        assert(r & 1 == 1) by (bit_vector)
            requires
                r == low | 1,
        ;
        r
    }

    /// Re-evaluate an observer: on a change of the watched block, schedule a two-tick pulse.
    fn update_observer(&mut self, pos: RedstonePos, chunks: &mut ChunkMap) -> (res: bool)
        requires
            old(self).wf(),
            old(chunks).wf(),
        ensures
            final(self).update_frame(old(self), *old(chunks), *final(chunks)),
            !res,
            applied(*old(chunks), *final(chunks), pos, observer_write(*old(chunks), pos)),
            final(self).observer_timers@ == rescheduled(old(self).observer_timers@, pos, observer_plan(*old(chunks), pos, old(self).now())),
            final(self).button_timers@ == old(self).button_timers@,
            final(self).repeater_timers@ == old(self).repeater_timers@,
            final(self).comparator_timers@ == old(self).comparator_timers@,
            final(self).piston_timers@ == old(self).piston_timers@,
    {
        let voxel = match self.get_voxel(pos, chunks) {
            Some(v) => v,
            None => return false,
        };
        if voxel.id != redstone_blocks::REDSTONE_OBSERVER {
            return false;
        }
        let (dx, dz) = observer_facing(voxel.state).offset();
        let observed_pos = RedstonePos::new(pos.x.wrapping_sub(dx), pos.y, pos.z.wrapping_sub(dz));
        let observed_voxel = self.get_voxel(observed_pos, chunks);
        let new_hash = Self::observed_voxel_hash(observed_voxel);
        assert(new_hash != 0) by (bit_vector)
            requires
                new_hash & 1 == 1,
        ;
        let stored_hash = observer_observed_hash(voxel.state);
        if stored_hash == 0 {
            let new_state = set_observer_observed_hash(voxel.state, new_hash);
            self.set_voxel(pos, Voxel { id: voxel.id, state: new_state, ..voxel }, chunks);
            return false;
        }
        if stored_hash == new_hash {
            return false;
        }
        let new_state = set_observer_observed_hash(voxel.state, new_hash);
        self.set_voxel(pos, Voxel { id: voxel.id, state: new_state, ..voxel }, chunks);
        let on_tick = self.current_tick.saturating_add(1);
        let off_tick = on_tick.saturating_add(2);
        let ghost before = self.observer_timers@;
        remove_at(&mut self.observer_timers, pos);
        proof {
            if old(self).now() < u64::MAX && old(self).nothing_due_by(old(self).now()) {
                lemma_subset_after(before, self.observer_timers@, self.current_tick);
            }
        }
        self.observer_timers.push(ScheduledChange { pos, apply_tick: on_tick, value: 1 });
        self.observer_timers.push(ScheduledChange { pos, apply_tick: off_tick, value: 0 });
        false
    }

    /// Blocks a piston moves into (air and fluids).
    fn is_piston_replaceable(block_id: BlockId) -> (res: bool)
        ensures
            res == (block_id == BLOCK_AIR || spec_is_fluid(block_id)),
    {
        block_id == BLOCK_AIR || is_fluid(block_id)
    }

    /// Blocks a piston can push: full-collision blocks that are not immovable, machines,
    /// containers, doors, beds or plants.
    fn is_piston_pushable(block_id: BlockId, state: BlockState) -> (res: bool)
        ensures
            res == spec_piston_pushable(block_id, state),
    {
        if Self::is_piston_replaceable(block_id) {
            return false;
        }
        if block_id == BLOCK_BEDROCK || block_id == BLOCK_OBSIDIAN || block_id
            == mechanical_blocks::PISTON {
            return false;
        }
        if block_id == mechanical_blocks::PISTON_HEAD {
            return false;
        }
        if block_id == mechanical_blocks::DISPENSER || block_id == mechanical_blocks::DROPPER
            || block_id == mechanical_blocks::HOPPER {
            return false;
        }
        if block_id == BLOCK_FURNACE || block_id == BLOCK_FURNACE_LIT || block_id
            == BLOCK_BREWING_STAND || block_id == BLOCK_ENCHANTING_TABLE || is_chest(block_id) {
            return false;
        }
        if is_door(block_id) || is_bed(block_id) {
            return false;
        }
        if is_crop(block_id) || block_id == BLOCK_SUGAR_CANE {
            return false;
        }
        has_full_collision(block_id, state)
    }

    /// Re-evaluate a piston: schedule extension / retraction for next tick on a change.
    fn update_piston(&mut self, pos: RedstonePos, chunks: &mut ChunkMap) -> (res: bool)
        requires
            old(self).wf(),
            old(chunks).wf(),
        ensures
            final(self).update_frame(old(self), *old(chunks), *final(chunks)),
            !res,
            *final(chunks) == *old(chunks),
            final(self).piston_timers@ == rescheduled(old(self).piston_timers@, pos, piston_plan(*old(chunks), pos, old(self).now())),
            final(self).button_timers@ == old(self).button_timers@,
            final(self).repeater_timers@ == old(self).repeater_timers@,
            final(self).comparator_timers@ == old(self).comparator_timers@,
            final(self).observer_timers@ == old(self).observer_timers@,
    {
        let voxel = match self.get_voxel(pos, chunks) {
            Some(v) => v,
            None => return false,
        };
        if voxel.id != mechanical_blocks::PISTON {
            return false;
        }
        let desired_extended = self.is_powered_by_neighbors(pos, chunks);
        let was_extended = is_active(voxel.state);
        let ghost before = self.piston_timers@;
        if desired_extended == was_extended {
            remove_at(&mut self.piston_timers, pos);
            proof {
                if old(self).now() < u64::MAX && old(self).nothing_due_by(old(self).now()) {
                    lemma_subset_after(before, self.piston_timers@, self.current_tick);
                }
            }
            return false;
        }
        let apply_tick = self.current_tick.saturating_add(1);
        remove_at(&mut self.piston_timers, pos);
        proof {
            if old(self).now() < u64::MAX && old(self).nothing_due_by(old(self).now()) {
                lemma_subset_after(before, self.piston_timers@, self.current_tick);
            }
        }
        self.piston_timers.push(
            ScheduledChange { pos, apply_tick, value: if desired_extended {
                1
            } else {
                0
            } },
        );
        false
    }

    /// A hopper's active flag follows whether it is powered.
    fn update_hopper_powered_state(&mut self, pos: RedstonePos, chunks: &mut ChunkMap)
        requires
            old(self).wf(),
            old(chunks).wf(),
        ensures
            final(self).update_frame(old(self), *old(chunks), *final(chunks)),
            applied(*old(chunks), *final(chunks), pos, hopper_write(*old(chunks), pos)),
            final(self).timers_same(old(self)),
            final(self).dirty() == if hopper_write(*old(chunks), pos).is_some() {
                old(self).dirty().insert(spec_chunk_of(pos))
            } else {
                old(self).dirty()
            },
    {
        let voxel = match self.get_voxel(pos, chunks) {
            Some(v) => v,
            None => return,
        };
        if voxel.id != mechanical_blocks::HOPPER {
            return;
        }
        let powered = self.is_powered_by_neighbors(pos, chunks);
        if is_active(voxel.state) == powered {
            return;
        }
        let new_state = set_active(voxel.state, powered);
        self.set_voxel(pos, Voxel { id: voxel.id, state: new_state, ..voxel }, chunks);
    }

    /// Re-evaluate the block at `pos`; true when its own power or state changed.
    fn process_update(&mut self, pos: RedstonePos, chunks: &mut ChunkMap) -> (res: bool)
        requires
            old(self).wf(),
            old(chunks).wf(),
        ensures
            final(self).update_frame(old(self), *old(chunks), *final(chunks)),
            res ==> world_voxel(*old(chunks), pos).is_some(),
            res == process_changes(*old(chunks), pos),
            processed(*old(chunks), *final(chunks), pos),
            final(self).button_timers@ == old(self).button_timers@,
            final(self).repeater_timers@ == rescheduled(old(self).repeater_timers@, pos, repeater_plan(*old(chunks), pos, old(self).now())),
            final(self).comparator_timers@ == rescheduled(old(self).comparator_timers@, pos, comparator_plan(*old(chunks), pos, old(self).now())),
            final(self).observer_timers@ == rescheduled(old(self).observer_timers@, pos, observer_plan(*old(chunks), pos, old(self).now())),
            final(self).piston_timers@ == rescheduled(old(self).piston_timers@, pos, piston_plan(*old(chunks), pos, old(self).now())),
    {
        if pos.y < 0 || pos.y >= CHUNK_SIZE_Y as i32 {
            return false;
        }
        let voxel = match self.get_voxel(pos, chunks) {
            Some(v) => v,
            None => return false,
        };
        match RedstoneComponent::from_block_id(voxel.id) {
            Some(RedstoneComponent::Wire) => self.update_wire(pos, chunks),
            Some(RedstoneComponent::Lamp) => self.update_lamp(pos, chunks),
            Some(RedstoneComponent::Torch) => self.update_torch(pos, chunks),
            Some(RedstoneComponent::Repeater) => self.update_repeater(pos, chunks),
            Some(RedstoneComponent::Comparator) => self.update_comparator(pos, chunks),
            Some(RedstoneComponent::Observer) => self.update_observer(pos, chunks),
            Some(_) => false,
            None => {
                if is_door(voxel.id) {
                    return self.update_door(pos, chunks);
                }
                if is_trapdoor(voxel.id) {
                    return self.update_trapdoor(pos, chunks);
                }
                if is_fence_gate(voxel.id) {
                    return self.update_fence_gate(pos, chunks);
                }
                if voxel.id == mechanical_blocks::PISTON {
                    return self.update_piston(pos, chunks);
                }
                if voxel.id == mechanical_blocks::HOPPER {
                    self.update_hopper_powered_state(pos, chunks);
                    return false;
                }
                false
            },
        }
    }
}

/// Whether some loaded neighbour emits power towards `pos`.
pub open spec fn spec_powered_by_neighbors(chunks: ChunkMap, pos: RedstonePos) -> bool {
    exists|i: int|
        0 <= i < 6 && #[trigger] world_voxel(chunks, spec_neighbor(pos, i)).is_some() && spec_emitted_power(
            spec_neighbor(pos, i),
            world_voxel(chunks, spec_neighbor(pos, i)).unwrap(),
            pos,
        ) > 0
}

/// The power `pos` receives from neighbour `i`: one less than what that neighbour emits
/// towards it.
pub open spec fn received_from(chunks: ChunkMap, pos: RedstonePos, i: int) -> u8 {
    match world_voxel(chunks, spec_neighbor(pos, i)) {
        Some(nv) => {
            let np = spec_emitted_power(spec_neighbor(pos, i), nv, pos);
            if np > 0 {
                (np - 1) as u8
            } else {
                0
            }
        },
        None => 0,
    }
}

/// The strongest power received from the first `n` neighbours.
pub open spec fn max_received(chunks: ChunkMap, pos: RedstonePos, n: int) -> u8
    decreases n,
{
    if n <= 0 {
        0
    } else {
        let m = max_received(chunks, pos, n - 1);
        let r = received_from(chunks, pos, n - 1);
        if r > m {
            r
        } else {
            m
        }
    }
}

/// The voxel a wire at `pos` becomes when its power must change: the strongest received
/// power; `None` when nothing is loaded there or the power is already right.
pub open spec fn wire_write(chunks: ChunkMap, pos: RedstonePos) -> Option<Voxel> {
    match world_voxel(chunks, pos) {
        Some(v) => {
            let m = max_received(chunks, pos, 6);
            if m == spec_power(v.state) {
                None
            } else {
                Some(Voxel { state: spec_with_power(v.state, m), ..v })
            }
        },
        None => None,
    }
}

/// The voxel a lamp at `pos` becomes when its lit state must change: lit (block light 15)
/// exactly when a neighbour powers it.
pub open spec fn lamp_write(chunks: ChunkMap, pos: RedstonePos) -> Option<Voxel> {
    match world_voxel(chunks, pos) {
        Some(v) => {
            let powered = spec_powered_by_neighbors(chunks, pos);
            if powered == (v.id == redstone_blocks::REDSTONE_LAMP_LIT) {
                None
            } else {
                Some(
                    Voxel {
                        id: if powered {
                            redstone_blocks::REDSTONE_LAMP_LIT
                        } else {
                            redstone_blocks::REDSTONE_LAMP
                        },
                        state: v.state,
                        light_sky: v.light_sky,
                        light_block: if powered {
                            15
                        } else {
                            0
                        },
                    },
                )
            }
        },
        None => None,
    }
}

/// The voxel a trapdoor (or, with `gate`, a fence gate) at `pos` becomes when its power
/// changes: powered and open exactly when a neighbour powers it.
pub open spec fn opener_write(chunks: ChunkMap, pos: RedstonePos, id: BlockId) -> Option<Voxel> {
    match world_voxel(chunks, pos) {
        Some(v) => {
            let powered = spec_powered_by_neighbors(chunks, pos);
            if v.id != id || powered == crate::interaction::spec_is_redstone_powered(v.state) {
                None
            } else {
                Some(Voxel { state: with_flag(with_flag(v.state, 0x10, powered), 0x08, powered), ..v })
            }
        },
        None => None,
    }
}

/// The block a torch at `pos` with state `state` stands on: behind it when wall-mounted,
/// below it otherwise.
pub open spec fn torch_support(pos: RedstonePos, state: BlockState) -> RedstonePos {
    if crate::interaction::spec_is_wall_mounted(state) {
        let o = spec_offset(crate::interaction::spec_wall_mounted_facing(state));
        RedstonePos { x: pos.x.wrapping_sub(o.0), y: pos.y, z: pos.z.wrapping_sub(o.1) }
    } else {
        RedstonePos { x: pos.x, y: (pos.y - 1) as i32, z: pos.z }
    }
}

/// The voxel a torch at `pos` becomes when it must switch: on (power 15, block light 7)
/// exactly when its support carries no power, off (power 0, no light) otherwise.
pub open spec fn torch_write(chunks: ChunkMap, pos: RedstonePos) -> Option<Voxel> {
    match world_voxel(chunks, pos) {
        Some(v) => {
            let powered = match world_voxel(chunks, torch_support(pos, v.state)) {
                Some(sv) => spec_power(sv.state) > 0,
                None => false,
            };
            let on = !powered;
            if on == spec_is_active(v.state) {
                None
            } else {
                Some(
                    Voxel {
                        id: v.id,
                        state: with_flag(spec_with_power(v.state, if on { 15 } else { 0 }), 0x10, on),
                        light_sky: v.light_sky,
                        light_block: if on {
                            7
                        } else {
                            0
                        },
                    },
                )
            }
        },
        None => None,
    }
}

/// The voxel a hopper at `pos` becomes when its active flag must follow its power.
pub open spec fn hopper_write(chunks: ChunkMap, pos: RedstonePos) -> Option<Voxel> {
    match world_voxel(chunks, pos) {
        Some(v) => {
            let powered = spec_powered_by_neighbors(chunks, pos);
            if v.id != mechanical_blocks::HOPPER || spec_is_active(v.state) == powered {
                None
            } else {
                Some(Voxel { state: with_flag(v.state, 0x10, powered), ..v })
            }
        },
        None => None,
    }
}

/// The block above `p`.
pub open spec fn above(p: RedstonePos) -> RedstonePos {
    RedstonePos { x: p.x, y: (p.y + 1) as i32, z: p.z }
}

/// For a door at `pos`, when its power must change: its lower half and the lower half's new
/// state (powered and open exactly when a neighbour of either half powers it).
pub open spec fn door_change(chunks: ChunkMap, pos: RedstonePos) -> Option<(RedstonePos, BlockState)> {
    match world_voxel(chunks, pos) {
        Some(v) => {
            if !spec_is_door(v.id) {
                None
            } else {
                let lp = if crate::interaction::spec_is_door_upper(v.id) {
                    RedstonePos { x: pos.x, y: (pos.y - 1) as i32, z: pos.z }
                } else {
                    pos
                };
                match world_voxel(chunks, lp) {
                    Some(lv) => {
                        let powered = spec_powered_by_neighbors(chunks, lp) || spec_powered_by_neighbors(chunks, above(lp));
                        if !spec_is_door(lv.id) || powered == crate::interaction::spec_is_redstone_powered(lv.state) {
                            None
                        } else {
                            Some((lp, with_flag(with_flag(lv.state, 0x10, powered), 0x08, powered)))
                        }
                    },
                    None => None,
                }
            }
        },
        None => None,
    }
}

/// The upper half of a door takes the lower half's new state, when it is a loaded door.
pub open spec fn door_upper_write(chunks: ChunkMap, lower: RedstonePos, state: BlockState) -> Option<Voxel> {
    match world_voxel(chunks, above(lower)) {
        Some(uv) => if spec_is_door(uv.id) {
            Some(Voxel { state, ..uv })
        } else {
            None
        },
        None => None,
    }
}

/// The position `o` steps behind `pos` (against offset `o`).
pub open spec fn behind(pos: RedstonePos, o: (i32, i32)) -> RedstonePos {
    RedstonePos { x: pos.x.wrapping_sub(o.0), y: pos.y, z: pos.z.wrapping_sub(o.1) }
}

/// Power emitted towards `to` by whatever is loaded at `from` (0 when nothing is).
pub open spec fn power_from(chunks: ChunkMap, from: RedstonePos, to: RedstonePos) -> u8 {
    match world_voxel(chunks, from) {
        Some(v) => spec_emitted_power(from, v, to),
        None => 0,
    }
}

/// New changes for a repeater at `pos` at tick `now`: its output is to follow its input
/// (the block behind it) after its delay; `None` when `pos` holds no repeater.
spec fn repeater_plan(chunks: ChunkMap, pos: RedstonePos, now: u64) -> Option<Seq<ScheduledChange>> {
    match world_voxel(chunks, pos) {
        Some(v) => if v.id != redstone_blocks::REDSTONE_REPEATER {
            None
        } else {
            let ip = behind(pos, spec_offset(spec_low_facing(v.state)));
            let desired = power_from(chunks, ip, pos) > 0;
            if desired == spec_is_active(v.state) {
                Some(Seq::empty())
            } else {
                Some(seq![ScheduledChange { pos, apply_tick: tick_after(now, spec_repeater_delay(v.state)), value: if desired { 1u8 } else { 0u8 } }])
            }
        },
        None => None,
    }
}

/// New changes for a piston at `pos` at tick `now`: extend (1) or retract (0) next tick when
/// whether a neighbour powers it differs from its extension; `None` when `pos` holds no
/// piston.
spec fn piston_plan(chunks: ChunkMap, pos: RedstonePos, now: u64) -> Option<Seq<ScheduledChange>> {
    match world_voxel(chunks, pos) {
        Some(v) => if v.id != mechanical_blocks::PISTON {
            None
        } else {
            let desired = spec_powered_by_neighbors(chunks, pos);
            if desired == spec_is_active(v.state) {
                Some(Seq::empty())
            } else {
                Some(seq![ScheduledChange { pos, apply_tick: tick_after(now, 1), value: if desired { 1u8 } else { 0u8 } }])
            }
        },
        None => None,
    }
}

/// The output a comparator at `pos` with state `state` computes: the rear input (a
/// container's stored power level, or the power emitted towards it) compared with, or minus
/// in subtract mode, the stronger side input.
pub open spec fn comparator_desired(chunks: ChunkMap, pos: RedstonePos, state: BlockState) -> u8 {
    let o = spec_offset(spec_low_facing(state));
    let rear = behind(pos, o);
    let left = RedstonePos { x: pos.x.wrapping_add(o.1), y: pos.y, z: pos.z.wrapping_sub(o.0) };
    let right = RedstonePos { x: pos.x.wrapping_sub(o.1), y: pos.y, z: pos.z.wrapping_add(o.0) };
    let rear_power: u8 = match world_voxel(chunks, rear) {
        Some(rv) => if rv.id == crate::interactive_blocks::CHEST || rv.id == mechanical_blocks::HOPPER || rv.id
            == mechanical_blocks::DISPENSER || rv.id == mechanical_blocks::DROPPER {
            spec_power(rv.state) as u8
        } else {
            spec_emitted_power(rear, rv, pos)
        },
        None => 0,
    };
    let l = power_from(chunks, left, pos);
    let r = power_from(chunks, right, pos);
    let side: u8 = if r > l { r } else { l };
    if flag(state, 0x04) {
        if rear_power > side { (rear_power - side) as u8 } else { 0 }
    } else if rear_power >= side {
        rear_power
    } else {
        0
    }
}

/// New changes for a comparator at `pos` at tick `now`: its output power next tick when it
/// differs; `None` when `pos` holds no comparator.
spec fn comparator_plan(chunks: ChunkMap, pos: RedstonePos, now: u64) -> Option<Seq<ScheduledChange>> {
    match world_voxel(chunks, pos) {
        Some(v) => if v.id != redstone_blocks::REDSTONE_COMPARATOR {
            None
        } else {
            let d = comparator_desired(chunks, pos, v.state);
            if d == spec_comparator_output(v.state) {
                Some(Seq::empty())
            } else {
                Some(seq![ScheduledChange { pos, apply_tick: tick_after(now, 1), value: d }])
            }
        },
        None => None,
    }
}

/// The hash an observer keeps of the block it watches (odd, so never 0).
pub open spec fn spec_observed_hash(voxel: Option<Voxel>) -> u8 {
    let id: u32 = match voxel {
        Some(v) => v.id as u32,
        None => 0u32,
    };
    let state: u32 = match voxel {
        Some(v) => v.state as u32,
        None => 0u32,
    };
    let h0 = id.wrapping_mul(31) ^ state.wrapping_mul(131);
    let h = h0 ^ (h0 >> 16u32);
    ((h & 0xFF) as u8) | 1
}

/// The observer at `pos`, if it must store a new hash of the watched block: with that hash.
pub open spec fn observer_write(chunks: ChunkMap, pos: RedstonePos) -> Option<Voxel> {
    match world_voxel(chunks, pos) {
        Some(v) => {
            let h = spec_observed_hash(world_voxel(chunks, behind(pos, spec_offset(spec_low_facing(v.state)))));
            if v.id != redstone_blocks::REDSTONE_OBSERVER || spec_observer_hash(v.state) == h as u16 {
                None
            } else {
                Some(Voxel { state: with_field(v.state, 255, 5, h as u16), ..v })
            }
        },
        None => None,
    }
}

/// New changes for an observer at `pos` at tick `now`: when a stored hash changes, a pulse on
/// next tick and off two ticks later; `None` otherwise.
spec fn observer_plan(chunks: ChunkMap, pos: RedstonePos, now: u64) -> Option<Seq<ScheduledChange>> {
    match world_voxel(chunks, pos) {
        Some(v) => {
            let h = spec_observed_hash(world_voxel(chunks, behind(pos, spec_offset(spec_low_facing(v.state)))));
            if v.id != redstone_blocks::REDSTONE_OBSERVER || spec_observer_hash(v.state) == 0 || spec_observer_hash(v.state) == h as u16 {
                None
            } else {
                Some(seq![
                    ScheduledChange { pos, apply_tick: tick_after(now, 1), value: 1u8 },
                    ScheduledChange { pos, apply_tick: tick_after(tick_after(now, 1), 2), value: 0u8 },
                ])
            }
        },
        None => None,
    }
}

/// The world after a door at `pos` follows its power (see `door_change`).
pub open spec fn door_applied(old: ChunkMap, new: ChunkMap, pos: RedstonePos) -> bool {
    match door_change(old, pos) {
        Some(ch) => exists|mid: ChunkMap|
            world_write(old, mid, ch.0, Voxel { state: ch.1, ..world_voxel(old, ch.0).unwrap() })
                && applied(mid, new, above(ch.0), door_upper_write(old, ch.0, ch.1)),
        None => new == old,
    }
}

/// Whether re-evaluating the block at `pos` changes that block's own power or state now:
/// wires, lamps, torches, doors, trapdoors and fence gates that must follow their power.
pub open spec fn process_changes(chunks: ChunkMap, pos: RedstonePos) -> bool {
    match world_voxel(chunks, pos) {
        Some(v) => match spec_component_of(v.id) {
            Some(RedstoneComponent::Wire) => wire_write(chunks, pos).is_some(),
            Some(RedstoneComponent::Lamp) => lamp_write(chunks, pos).is_some(),
            Some(RedstoneComponent::Torch) => torch_write(chunks, pos).is_some(),
            Some(_) => false,
            None => if spec_is_door(v.id) {
                door_change(chunks, pos).is_some()
            } else if v.id == crate::interactive_blocks::TRAPDOOR || v.id == crate::interactive_blocks::OAK_FENCE_GATE {
                opener_write(chunks, pos, v.id).is_some()
            } else {
                false
            },
        },
        None => false,
    }
}

/// The world after re-evaluating the block at `pos`, by the kind of block there.
pub open spec fn processed(old: ChunkMap, new: ChunkMap, pos: RedstonePos) -> bool {
    match world_voxel(old, pos) {
        Some(v) => match spec_component_of(v.id) {
            Some(RedstoneComponent::Wire) => applied(old, new, pos, wire_write(old, pos)),
            Some(RedstoneComponent::Lamp) => applied(old, new, pos, lamp_write(old, pos)),
            Some(RedstoneComponent::Torch) => applied(old, new, pos, torch_write(old, pos)),
            Some(RedstoneComponent::Observer) => applied(old, new, pos, observer_write(old, pos)),
            Some(_) => new == old,
            None => if spec_is_door(v.id) {
                door_applied(old, new, pos)
            } else if v.id == crate::interactive_blocks::TRAPDOOR || v.id == crate::interactive_blocks::OAK_FENCE_GATE {
                applied(old, new, pos, opener_write(old, pos, v.id))
            } else if v.id == mechanical_blocks::HOPPER {
                applied(old, new, pos, hopper_write(old, pos))
            } else {
                new == old
            },
        },
        None => new == old,
    }
}

/// One step from `p` along offset `o`.
pub open spec fn step(p: RedstonePos, o: (i32, i32)) -> RedstonePos {
    RedstonePos { x: p.x.wrapping_add(o.0), y: p.y, z: p.z.wrapping_add(o.1) }
}

/// The cell `k` steps from `p` along offset `o`.
pub open spec fn cell_ahead(p: RedstonePos, o: (i32, i32), k: nat) -> RedstonePos
    decreases k,
{
    if k == 0 {
        p
    } else {
        step(cell_ahead(p, o, (k - 1) as nat), o)
    }
}

/// How many blocks a piston pushes, scanning from `cursor` (the `n`-th cell ahead of its
/// head): the pushable blocks up to the first air or fluid, at most 12; `None` when the run
/// meets an unloaded cell, a block it cannot push, or is too long.
pub open spec fn push_run(chunks: ChunkMap, cursor: RedstonePos, o: (i32, i32), n: nat) -> Option<nat>
    decreases 13 - n,
{
    if n > 12 {
        None
    } else {
        match world_voxel(chunks, cursor) {
            Some(f) => if f.id == BLOCK_AIR || spec_is_fluid(f.id) {
                Some(n)
            } else if n >= 12 || !spec_piston_pushable(f.id, f.state) {
                None
            } else {
                push_run(chunks, step(cursor, o), o, n + 1)
            },
            None => None,
        }
    }
}

/// A pushed block: same id and state, no light.
pub open spec fn moved(v: Voxel) -> Voxel {
    Voxel { id: v.id, state: v.state, light_sky: 0, light_block: 0 }
}

/// The writes of pushing `n` blocks one step, farthest first.
pub open spec fn push_writes(chunks: ChunkMap, head: RedstonePos, o: (i32, i32), n: nat) -> Seq<(RedstonePos, Voxel)> {
    Seq::new(n, |j: int| (cell_ahead(head, o, (n - j) as nat), moved(world_voxel(chunks, cell_ahead(head, o, (n - 1 - j) as nat)).unwrap())))
}

/// The cells pushed blocks land on, farthest first.
pub open spec fn push_dests(head: RedstonePos, o: (i32, i32), n: nat) -> Seq<RedstonePos> {
    Seq::new(n, |j: int| cell_ahead(head, o, (n - j) as nat))
}

/// The world after the writes `ws`, in order: a chain of worlds from `old` to `new`, each
/// the one before with the next write.
pub open spec fn writes_applied(old: ChunkMap, new: ChunkMap, ws: Seq<(RedstonePos, Voxel)>) -> bool {
    exists|states: Seq<ChunkMap>|
        #[trigger] states.len() == ws.len() + 1 && states[0] == old && states[ws.len() as int] == new && forall|i: int|
            0 <= i < ws.len() ==> world_write(#[trigger] states[i], states[i + 1], ws[i].0, ws[i].1)
}

proof fn lemma_writes_none(old: ChunkMap)
    ensures
        writes_applied(old, old, Seq::empty()),
{
    let states = seq![old];
    assert(states.len() == 0 + 1 && states[0] == old && states[0] == old);
}

proof fn lemma_writes_push(old: ChunkMap, mid: ChunkMap, new: ChunkMap, ws: Seq<(RedstonePos, Voxel)>, w: (RedstonePos, Voxel))
    requires
        writes_applied(old, mid, ws),
        world_write(mid, new, w.0, w.1),
    ensures
        writes_applied(old, new, ws.push(w)),
{
    let states = choose|states: Seq<ChunkMap>|
        #[trigger] states.len() == ws.len() + 1 && states[0] == old && states[ws.len() as int] == mid && forall|i: int|
            0 <= i < ws.len() ==> world_write(#[trigger] states[i], states[i + 1], ws[i].0, ws[i].1);
    let s2 = states.push(new);
    let ws2 = ws.push(w);
    assert forall|i: int| 0 <= i < ws2.len() implies world_write(#[trigger] s2[i], s2[i + 1], ws2[i].0, ws2[i].1) by {
        if i < ws.len() {
            assert(s2[i] == states[i] && s2[i + 1] == states[i + 1] && ws2[i] == ws[i]);
        } else {
            assert(s2[i] == mid && s2[i + 1] == new && ws2[i] == w);
        }
    }
    assert(s2.len() == ws2.len() + 1 && s2[0] == old && s2[ws2.len() as int] == new);
}

/// The positions in `ps` and their neighbours.
pub open spec fn touched(ps: Seq<RedstonePos>) -> Set<RedstonePos> {
    Set::new(|p: RedstonePos| exists|i: int| 0 <= i < ps.len() && (p == ps[i] || neighbor_set(ps[i]).contains(p)))
}

/// What moving the piston at `pos` to `desired` extension does: the writes, in order, and
/// the positions whose neighbourhoods are re-evaluated; `None` when nothing happens (no
/// piston there, already in that state, or a push that cannot be made). Extending pushes
/// the run ahead one step, puts a head facing the same way in front and marks the piston
/// extended; retracting clears a head in front and marks it retracted.
pub open spec fn piston_moves(chunks: ChunkMap, pos: RedstonePos, desired: bool) -> Option<(Seq<(RedstonePos, Voxel)>, Seq<RedstonePos>)> {
    match world_voxel(chunks, pos) {
        Some(v) => if v.id != mechanical_blocks::PISTON || spec_is_active(v.state) == desired {
            None
        } else {
            let f = spec_low_facing(v.state);
            let o = spec_offset(f);
            let head = step(pos, o);
            let piston = Voxel { state: with_flag(v.state, 0x10, desired), ..v };
            if desired {
                match push_run(chunks, head, o, 0) {
                    Some(n) => Some((
                        push_writes(chunks, head, o, n) + seq![
                            (head, Voxel { id: mechanical_blocks::PISTON_HEAD, state: (0u16 & !3u16) | spec_facing_bits(f), light_sky: 0, light_block: 0 }),
                            (pos, piston),
                        ],
                        seq![pos, head] + push_dests(head, o, n),
                    )),
                    None => None,
                }
            } else {
                let clear: Seq<(RedstonePos, Voxel)> = match world_voxel(chunks, head) {
                    Some(hv) => if hv.id == mechanical_blocks::PISTON_HEAD {
                        seq![(head, Voxel { id: 0, state: 0, light_sky: 0, light_block: 0 })]
                    } else {
                        Seq::empty()
                    },
                    None => Seq::empty(),
                };
                Some((clear + seq![(pos, piston)], seq![pos, head]))
            }
        },
        None => None,
    }
}

/// Applying an optional write at `pos`: the world with it, or the same world.
pub open spec fn applied(old: ChunkMap, new: ChunkMap, pos: RedstonePos, w: Option<Voxel>) -> bool {
    match w {
        Some(v) => world_write(old, new, pos, v),
        None => new == old,
    }
}

/// Blocks a piston can push.
pub open spec fn spec_piston_pushable(id: BlockId, state: BlockState) -> bool {
    !(id == BLOCK_AIR || spec_is_fluid(id)) && id != BLOCK_BEDROCK && id != BLOCK_OBSIDIAN && id
        != mechanical_blocks::PISTON && id != mechanical_blocks::PISTON_HEAD && id
        != mechanical_blocks::DISPENSER && id != mechanical_blocks::DROPPER && id
        != mechanical_blocks::HOPPER && id != BLOCK_FURNACE && id != BLOCK_FURNACE_LIT && id
        != BLOCK_BREWING_STAND && id != BLOCK_ENCHANTING_TABLE && id != crate::interactive_blocks::CHEST
        && !spec_is_door(id) && !spec_is_bed(id) && !spec_is_crop(id) && id != BLOCK_SUGAR_CANE
        && spec_has_full_collision(id, state)
}


/// Obsidian, bedrock, pistons and their heads, containers and machines, air and water are
/// never pushed, whatever their state; stone always is.
pub proof fn law_immovable_blocks_are_never_pushed(state: BlockState)
    ensures
        !spec_piston_pushable(BLOCK_AIR, state),
        !spec_piston_pushable(crate::chunk::BLOCK_WATER, state),
        !spec_piston_pushable(mechanical_blocks::PISTON_HEAD, state),
        !spec_piston_pushable(mechanical_blocks::DISPENSER, state),
        !spec_piston_pushable(mechanical_blocks::DROPPER, state),
        !spec_piston_pushable(mechanical_blocks::HOPPER, state),
        !spec_piston_pushable(BLOCK_FURNACE, state),
        !spec_piston_pushable(crate::interactive_blocks::CHEST, state),
        !spec_piston_pushable(BLOCK_OBSIDIAN, state),
        !spec_piston_pushable(BLOCK_BEDROCK, state),
        !spec_piston_pushable(mechanical_blocks::PISTON, state),
        spec_piston_pushable(crate::chunk::BLOCK_STONE, state),
{
}

/// A retracted piston whose head cell holds obsidian or bedrock cannot extend: the push is
/// refused, so applying the extension changes nothing.
pub proof fn law_piston_blocked_by_immovable(chunks: ChunkMap, pos: RedstonePos, piston: Voxel, front: Voxel)
    requires
        world_voxel(chunks, pos) == Some(piston),
        piston.id == mechanical_blocks::PISTON,
        !spec_is_active(piston.state),
        world_voxel(chunks, step(pos, spec_offset(spec_low_facing(piston.state)))) == Some(front),
        front.id == BLOCK_OBSIDIAN || front.id == BLOCK_BEDROCK,
    ensures
        piston_moves(chunks, pos, true) is None,
{
    let o = spec_offset(spec_low_facing(piston.state));
    let head = step(pos, o);
    law_immovable_blocks_are_never_pushed(front.state);
    assert(push_run(chunks, head, o, 0) is None);
}

fn pos_in(v: &Vec<RedstonePos>, p: RedstonePos) -> (res: bool)
    ensures
        res == v@.contains(p),
{
    let mut i: usize = 0;
    while i < v.len()
        invariant
            i <= v@.len(),
            forall|j: int| 0 <= j < i ==> v@[j] != p,
        decreases v@.len() - i,
    {
        if v[i].same(&p) {
            assert(v@[i as int] == p);
            return true;
        }
        i = i + 1;
    }
    false
}

/// Enumeration of the loaded world positions of `chunks` by chunk order and cell index.
pub open spec fn loaded_index(chunks: ChunkMap, p: RedstonePos) -> int {
    chunks.key_index(spec_chunk_of(p)) * 65536 + voxel_index(p.x as int % 16, p.y as int, p.z as int % 16)
}

proof fn lemma_loaded_index(chunks: ChunkMap, p: RedstonePos, q: RedstonePos)
    requires
        chunks.wf(),
        world_voxel(chunks, p).is_some(),
        world_voxel(chunks, q).is_some(),
    ensures
        0 <= loaded_index(chunks, p) < chunks.spec_len() * 65536,
        loaded_index(chunks, p) == loaded_index(chunks, q) ==> p == q,
{
    let cp = spec_chunk_of(p);
    let cq = spec_chunk_of(q);
    chunks.lemma_key_index(cp, cq);
    let ip = voxel_index(p.x as int % 16, p.y as int, p.z as int % 16);
    let iq = voxel_index(q.x as int % 16, q.y as int, q.z as int % 16);
    lemma_voxel_index_bounds(p.x as int % 16, p.y as int, p.z as int % 16);
    lemma_voxel_index_bounds(q.x as int % 16, q.y as int, q.z as int % 16);
    let kp = chunks.key_index(cp);
    let kq = chunks.key_index(cq);
    assert(kp * 65536 + ip < chunks.spec_len() * 65536) by (nonlinear_arith)
        requires
            0 <= kp < chunks.spec_len(),
            0 <= ip < 65536,
    ;
    assert(0 <= kp * 65536) by (nonlinear_arith)
        requires
            0 <= kp,
    ;
    if loaded_index(chunks, p) == loaded_index(chunks, q) {
        assert(kp == kq && ip == iq) by (nonlinear_arith)
            requires
                kp * 65536 + ip == kq * 65536 + iq,
                0 <= ip < 65536,
                0 <= iq < 65536,
                0 <= kp,
                0 <= kq,
        ;
        lemma_voxel_index_injective(
            p.x as int % 16,
            p.y as int,
            p.z as int % 16,
            q.x as int % 16,
            q.y as int,
            q.z as int % 16,
        );
        lemma_world_pos_unique(p, q);
    }
}

impl RedstoneSimulator {
    /// What the timer-driven steps keep: validity, loaded chunks, clock and scheduled changes.
    spec fn apply_frame(&self, old_s: &Self, old_c: ChunkMap, new_c: ChunkMap) -> bool {
        &&& self.wf()
        &&& same_layout(old_c, new_c)
        &&& self.now() == old_s.now()
        &&& self.timers_same(old_s)
    }

    /// Toggle a lever: flip its active flag, power 15 when on and 0 when off, and schedule its
    /// neighbours. Anything other than a loaded lever is left alone.
    pub fn toggle_lever(&mut self, pos: RedstonePos, chunks: &mut ChunkMap)
        requires
            old(self).wf(),
            old(chunks).wf(),
        ensures
            final(self).wf(),
            same_layout(*old(chunks), *final(chunks)),
            final(self).now() == old(self).now(),
            final(self).timers_same(old(self)),
            final(self).dirty_light() == old(self).dirty_light(),
            final(self).dirty_geometry() == old(self).dirty_geometry(),
            final(self).dirty_geometry_positions_view() == old(self).dirty_geometry_positions_view(),
            ({
                let v = world_voxel(*old(chunks), pos);
                if v.is_some() && v.unwrap().id == redstone_blocks::LEVER {
                    &&& world_write(
                        *old(chunks),
                        *final(chunks),
                        pos,
                        Voxel { state: spec_lever_toggled(v.unwrap().state), ..v.unwrap() },
                    )
                    &&& final(self).pending() == old(self).pending().union(neighbor_set(pos))
                    &&& final(self).dirty() == old(self).dirty().insert(spec_chunk_of(pos))
                } else {
                    &&& *final(chunks) == *old(chunks)
                    &&& final(self).pending() == old(self).pending()
                    &&& final(self).dirty() == old(self).dirty()
                }
            }),
    {
        let voxel = match self.get_voxel(pos, chunks) {
            Some(v) => v,
            None => return ,
        };
        if voxel.id != redstone_blocks::LEVER {
            return ;
        }
        let new_active = !is_active(voxel.state);
        let new_state = set_active(voxel.state, new_active);
        let new_power = if new_active {
            MAX_POWER
        } else {
            0
        };
        let new_state = set_power_level(new_state, new_power);
        self.set_voxel(pos, Voxel { id: voxel.id, state: new_state, ..voxel }, chunks);
        self.schedule_neighbors(pos);
    }

    /// Press a button: power 15, active, released 20 ticks later; neighbours are scheduled.
    /// A button that is already pressed, or anything else, is left alone.
    pub fn activate_button(&mut self, pos: RedstonePos, chunks: &mut ChunkMap)
        requires
            old(self).wf(),
            old(chunks).wf(),
            old(self).now() <= u64::MAX - 20,
        ensures
            final(self).wf(),
            same_layout(*old(chunks), *final(chunks)),
            final(self).now() == old(self).now(),
            ({
                let v = world_voxel(*old(chunks), pos);
                if v.is_some() && (v.unwrap().id == redstone_blocks::STONE_BUTTON || v.unwrap().id
                    == redstone_blocks::OAK_BUTTON) && !spec_is_active(v.unwrap().state) {
                    &&& world_write(
                        *old(chunks),
                        *final(chunks),
                        pos,
                        Voxel { state: spec_switch_state(v.unwrap().state, true), ..v.unwrap() },
                    )
                    &&& final(self).pending() == old(self).pending().union(neighbor_set(pos))
                    &&& final(self).dirty() == old(self).dirty().insert(spec_chunk_of(pos))
                    &&& final(self).button_releases() == old(self).button_releases().push(
                        (pos, (old(self).now() + 20) as u64),
                    )
                } else {
                    &&& *final(chunks) == *old(chunks)
                    &&& *final(self) == *old(self)
                }
            }),
    {
        let voxel = match self.get_voxel(pos, chunks) {
            Some(v) => v,
            None => return ,
        };
        if !(voxel.id == redstone_blocks::STONE_BUTTON || voxel.id == redstone_blocks::OAK_BUTTON) {
            return ;
        }
        if is_active(voxel.state) {
            return ;
        }
        let new_state = set_active(set_power_level(voxel.state, MAX_POWER), true);
        self.set_voxel(pos, Voxel { id: voxel.id, state: new_state, ..voxel }, chunks);
        let ghost before = self.button_timers@;
        self.button_timers.push(
            ScheduledChange { pos, apply_tick: self.current_tick + 20, value: 0 },
        );
        proof {
            assert(self.button_releases() =~= old(self).button_releases().push(
                (pos, (old(self).now() + 20) as u64),
            ));
        }
        self.schedule_neighbors(pos);
    }

    /// A pressure plate is on (power 15) exactly while an entity stands on it; a change
    /// schedules its neighbours.
    pub fn update_pressure_plate(&mut self, pos: RedstonePos, entity_present: bool, chunks: &mut ChunkMap)
        requires
            old(self).wf(),
            old(chunks).wf(),
        ensures
            final(self).wf(),
            same_layout(*old(chunks), *final(chunks)),
            final(self).now() == old(self).now(),
            final(self).timers_same(old(self)),
            ({
                let v = world_voxel(*old(chunks), pos);
                if v.is_some() && (v.unwrap().id == redstone_blocks::STONE_PRESSURE_PLATE
                    || v.unwrap().id == redstone_blocks::OAK_PRESSURE_PLATE) && spec_is_active(
                    v.unwrap().state,
                ) != entity_present {
                    &&& world_write(
                        *old(chunks),
                        *final(chunks),
                        pos,
                        Voxel {
                            state: spec_switch_state(v.unwrap().state, entity_present),
                            ..v.unwrap()
                        },
                    )
                    &&& final(self).pending() == old(self).pending().union(neighbor_set(pos))
                    &&& final(self).dirty() == old(self).dirty().insert(spec_chunk_of(pos))
                } else {
                    &&& *final(chunks) == *old(chunks)
                    &&& *final(self) == *old(self)
                }
            }),
    {
        let voxel = match self.get_voxel(pos, chunks) {
            Some(v) => v,
            None => return ,
        };
        if !(voxel.id == redstone_blocks::STONE_PRESSURE_PLATE || voxel.id
            == redstone_blocks::OAK_PRESSURE_PLATE) {
            return ;
        }
        let was_active = is_active(voxel.state);
        if entity_present == was_active {
            return ;
        }
        let new_power = if entity_present {
            MAX_POWER
        } else {
            0
        };
        let new_state = set_active(set_power_level(voxel.state, new_power), entity_present);
        self.set_voxel(pos, Voxel { id: voxel.id, state: new_state, ..voxel }, chunks);
        self.schedule_neighbors(pos);
    }

    /// Release a button (power 0, inactive) and schedule its neighbours.
    fn deactivate_button(&mut self, pos: RedstonePos, chunks: &mut ChunkMap)
        requires
            old(self).wf(),
            old(chunks).wf(),
        ensures
            final(self).apply_frame(old(self), *old(chunks), *final(chunks)),
            ({
                let v = world_voxel(*old(chunks), pos);
                if v.is_some() && (v.unwrap().id == redstone_blocks::STONE_BUTTON || v.unwrap().id
                    == redstone_blocks::OAK_BUTTON) {
                    &&& world_write(
                        *old(chunks),
                        *final(chunks),
                        pos,
                        Voxel { state: with_flag(spec_with_power(v.unwrap().state, 0), 0x10, false), ..v.unwrap() },
                    )
                    &&& final(self).pending() == old(self).pending().union(neighbor_set(pos))
                } else {
                    &&& *final(chunks) == *old(chunks)
                    &&& final(self).pending() == old(self).pending()
                }
            }),
    {
        let voxel = match self.get_voxel(pos, chunks) {
            Some(v) => v,
            None => return ,
        };
        if !(voxel.id == redstone_blocks::STONE_BUTTON || voxel.id == redstone_blocks::OAK_BUTTON) {
            return ;
        }
        let new_state = set_active(set_power_level(voxel.state, 0), false);
        self.set_voxel(pos, Voxel { id: voxel.id, state: new_state, ..voxel }, chunks);
        self.schedule_neighbors(pos);
    }

    /// Write a voxel that changes block geometry, marking the chunk and position.
    fn set_voxel_and_mark_geometry(&mut self, pos: RedstonePos, voxel: Voxel, chunks: &mut ChunkMap)
        requires
            old(self).wf(),
            old(chunks).wf(),
        ensures
            final(self).apply_frame(old(self), *old(chunks), *final(chunks)),
            world_write(*old(chunks), *final(chunks), pos, voxel),
            final(self).pending() == old(self).pending(),
    {
        if pos.y < 0 || pos.y >= CHUNK_SIZE_Y as i32 {
            proof {
                assert(world_write(*chunks, *chunks, pos, voxel));
            }
            return ;
        }
        let (chunk_pos, lx, ly, lz) = pos.to_chunk_local();
        let ghost old_chunks = *chunks;
        if chunks.set_voxel(&chunk_pos, lx, ly, lz, voxel) {
            self.dirty_chunks.insert(chunk_pos);
            self.dirty_geometry_chunks.insert(chunk_pos);
            self.dirty_geometry_positions.insert(pos);
            proof {
                lemma_world_write(old_chunks, *chunks, pos, voxel);
            }
        } else {
            proof {
                assert(world_write(old_chunks, *chunks, pos, voxel));
            }
        }
    }

    /// The run of blocks a piston with head at `head` facing along `o` (= (`dx`, `dz`))
    /// pushes, with each block as it is now; `None` when the push cannot be made.
    #[verifier::loop_isolation(false)]
    fn scan_push_line(&self, head: RedstonePos, dx: i32, dz: i32, chunks: &ChunkMap) -> (res: Option<Vec<(RedstonePos, Voxel)>>)
        requires
            chunks.wf(),
        ensures
            match push_run(*chunks, head, (dx, dz), 0) {
                Some(n) => res matches Some(line) && line@.len() == n && forall|k: int|
                    0 <= k < n ==> #[trigger] line@[k] == (
                        cell_ahead(head, (dx, dz), k as nat),
                        world_voxel(*chunks, cell_ahead(head, (dx, dz), k as nat)).unwrap(),
                    ),
                None => res is None,
            },
            res matches Some(line) ==> line@.len() <= PISTON_PUSH_LIMIT,
    {
        let ghost o = (dx, dz);
        let mut cursor = head;
        let mut line: Vec<(RedstonePos, Voxel)> = Vec::new();
        assert(cell_ahead(head, o, 0) == head);
        loop
            invariant
                line@.len() <= PISTON_PUSH_LIMIT,
                cursor == cell_ahead(head, o, line@.len() as nat),
                push_run(*chunks, head, o, 0) == push_run(*chunks, cursor, o, line@.len() as nat),
                forall|k: int|
                    0 <= k < line@.len() ==> #[trigger] line@[k] == (
                        cell_ahead(head, o, k as nat),
                        world_voxel(*chunks, cell_ahead(head, o, k as nat)).unwrap(),
                    ),
            decreases PISTON_PUSH_LIMIT - line@.len(),
        {
            let found = match self.get_voxel(cursor, chunks) {
                Some(f) => f,
                None => return None,
            };
            if Self::is_piston_replaceable(found.id) {
                assert(push_run(*chunks, cursor, o, line@.len() as nat) == Some(line@.len() as nat));
                break ;
            }
            if line.len() >= PISTON_PUSH_LIMIT {
                return None;
            }
            if !Self::is_piston_pushable(found.id, found.state) {
                return None;
            }
            let ghost before_line = line@;
            proof {
                assert(push_run(*chunks, cursor, o, line@.len() as nat) == push_run(*chunks, step(cursor, o), o, line@.len() as nat + 1));
            }
            line.push((cursor, found));
            proof {
                assert forall|k: int| 0 <= k < line@.len() implies #[trigger] line@[k] == (
                    cell_ahead(head, o, k as nat),
                    world_voxel(*chunks, cell_ahead(head, o, k as nat)).unwrap(),
                ) by {
                    if k < before_line.len() {
                        assert(line@[k] == before_line[k]);
                    }
                }
            }
            cursor = RedstonePos::new(cursor.x.wrapping_add(dx), cursor.y, cursor.z.wrapping_add(dz));
            proof {
                assert(cursor == cell_ahead(head, o, line@.len() as nat));
            }
        }
        Some(line)
    }

    /// Push the scanned run one step along (`dx`, `dz`), farthest block first.
    fn push_line(&mut self, line: &Vec<(RedstonePos, Voxel)>, head: RedstonePos, dx: i32, dz: i32, chunks: &mut ChunkMap) -> (dests: Vec<RedstonePos>)
        requires
            old(self).wf(),
            old(chunks).wf(),
            line@.len() <= PISTON_PUSH_LIMIT,
            forall|k: int|
                0 <= k < line@.len() ==> #[trigger] line@[k] == (
                    cell_ahead(head, (dx, dz), k as nat),
                    world_voxel(*old(chunks), cell_ahead(head, (dx, dz), k as nat)).unwrap(),
                ),
        ensures
            final(self).apply_frame(old(self), *old(chunks), *final(chunks)),
            final(self).pending() == old(self).pending(),
            writes_applied(*old(chunks), *final(chunks), push_writes(*old(chunks), head, (dx, dz), line@.len() as nat)),
            dests@ == push_dests(head, (dx, dz), line@.len() as nat),
    {
        let ghost o = (dx, dz);
        let ghost c0 = *chunks;
        let ghost n: nat = line@.len() as nat;
        let mut dests: Vec<RedstonePos> = Vec::new();
        proof {
            lemma_writes_none(c0);
            assert(push_writes(c0, head, o, n).take(0) =~= Seq::<(RedstonePos, Voxel)>::empty());
            assert(push_dests(head, o, n).take(0) =~= Seq::<RedstonePos>::empty());
        }
        let mut k = line.len();
        while k > 0
            invariant
                k <= line@.len(),
                n == line@.len(),
                n <= PISTON_PUSH_LIMIT,
                o == (dx, dz),
                c0 == *old(chunks),
                forall|q: int|
                    0 <= q < line@.len() ==> #[trigger] line@[q] == (
                        cell_ahead(head, o, q as nat),
                        world_voxel(c0, cell_ahead(head, o, q as nat)).unwrap(),
                    ),
                self.apply_frame(old(self), *old(chunks), *chunks),
                self.pending() == old(self).pending(),
                writes_applied(c0, *chunks, push_writes(c0, head, o, n).take(n - k)),
                dests@ == push_dests(head, o, n).take(n - k),
            decreases k,
        {
            k = k - 1;
            let (from_pos, from_voxel) = line[k];
            let dest_pos = RedstonePos::new(from_pos.x.wrapping_add(dx), from_pos.y, from_pos.z.wrapping_add(dz));
            let ghost ck = *chunks;
            let pushed = Voxel { id: from_voxel.id, state: from_voxel.state, light_sky: 0, light_block: 0 };
            self.set_voxel_and_mark_geometry(dest_pos, pushed, chunks);
            proof {
                lemma_same_layout_trans(*old(chunks), ck, *chunks);
                let pw = push_writes(c0, head, o, n);
                let j = n - 1 - k;
                assert(line@[k as int] == (from_pos, from_voxel));
                assert(from_pos == cell_ahead(head, o, k as nat));
                assert(cell_ahead(head, o, (k + 1) as nat) == step(cell_ahead(head, o, k as nat), o));
                assert(dest_pos == step(from_pos, o));
                assert(dest_pos == cell_ahead(head, o, (k + 1) as nat));
                assert(pw[j] == (dest_pos, pushed));
                lemma_writes_push(c0, ck, *chunks, pw.take(j), pw[j]);
                assert(pw.take(j).push(pw[j]) =~= pw.take(j + 1));
            }
            dests.push(dest_pos);
            proof {
                assert(dests@ =~= push_dests(head, o, n).take(n - k));
            }
        }
        proof {
            assert(push_writes(c0, head, o, n).take(n as int) =~= push_writes(c0, head, o, n));
            assert(push_dests(head, o, n).take(n as int) =~= push_dests(head, o, n));
        }
        dests
    }

    /// Re-evaluate the neighbourhoods of the given positions: each position and its six
    /// neighbours become pending.
    fn schedule_changed(&mut self, changed: &Vec<RedstonePos>)
        requires
            old(self).wf(),
        ensures
            final(self).wf(),
            final(self).now() == old(self).now(),
            final(self).timers_same(old(self)),
            final(self).pending() == old(self).pending().union(touched(changed@)),
    {
        let ghost p0 = self.pending();
        let mut i: usize = 0;
        proof {
            assert(touched(changed@.take(0)) =~= Set::<RedstonePos>::empty());
            assert(p0.union(Set::<RedstonePos>::empty()) =~= p0);
        }
        while i < changed.len()
            invariant
                i <= changed@.len(),
                self.wf(),
                self.now() == old(self).now(),
                self.timers_same(old(self)),
                self.pending() == p0.union(touched(changed@.take(i as int))),
            decreases changed@.len() - i,
        {
            let c = changed[i];
            self.schedule_update(c);
            self.schedule_neighbors(c);
            proof {
                let t1 = changed@.take(i + 1);
                let t0 = changed@.take(i as int);
                assert forall|q: RedstonePos| touched(t1).contains(q) <==> touched(t0).contains(q) || q == c || neighbor_set(c).contains(q) by {
                    if touched(t1).contains(q) {
                        let w = choose|w: int| 0 <= w < t1.len() && (q == #[trigger] t1[w] || neighbor_set(t1[w]).contains(q));
                        if w < i {
                            assert(t0[w] == t1[w]);
                        }
                    }
                    if touched(t0).contains(q) {
                        let w = choose|w: int| 0 <= w < t0.len() && (q == #[trigger] t0[w] || neighbor_set(t0[w]).contains(q));
                        assert(t1[w] == t0[w]);
                    }
                    if q == c || neighbor_set(c).contains(q) {
                        assert(t1[i as int] == c);
                    }
                }
                assert(p0.union(touched(t1)) =~= p0.union(touched(t0)).insert(c).union(neighbor_set(c)));
            }
            i = i + 1;
        }
        proof {
            assert(changed@.take(changed@.len() as int) =~= changed@);
        }
    }

    /// Extend the retracted piston `voxel` at `pos`: push the run ahead, place the head and
    /// mark the piston extended. Returns the positions whose neighbourhoods change, or `None`
    /// when the push cannot be made (then nothing changes).
    #[verifier::rlimit(100)]
    #[verifier::spinoff_prover]
    fn extend_piston(&mut self, pos: RedstonePos, voxel: Voxel, chunks: &mut ChunkMap) -> (res: Option<Vec<RedstonePos>>)
        requires
            old(self).wf(),
            old(chunks).wf(),
            world_voxel(*old(chunks), pos) == Some(voxel),
            voxel.id == mechanical_blocks::PISTON,
            !spec_is_active(voxel.state),
        ensures
            final(self).apply_frame(old(self), *old(chunks), *final(chunks)),
            final(self).pending() == old(self).pending(),
            match piston_moves(*old(chunks), pos, true) {
                Some(m) => res matches Some(ch) && ch@ == m.1 && writes_applied(*old(chunks), *final(chunks), m.0),
                None => res is None && *final(chunks) == *old(chunks) && *final(self) == *old(self),
            },
    {
        let facing = piston_facing(voxel.state);
        let (dx, dz) = facing.offset();
        let ghost o = spec_offset(facing);
        let head_pos = RedstonePos::new(pos.x.wrapping_add(dx), pos.y, pos.z.wrapping_add(dz));
        assert(head_pos == step(pos, o));
        let ghost c0 = *chunks;
        let line = match self.scan_push_line(head_pos, dx, dz, chunks) {
            Some(l) => l,
            None => return None,
        };
        let ghost n: nat = line@.len() as nat;
        let dests = self.push_line(&line, head_pos, dx, dz, chunks);
        let ghost ch = *chunks;
        let head_state = set_piston_facing(0, facing);
        let head_voxel = Voxel { id: mechanical_blocks::PISTON_HEAD, state: head_state, light_sky: 0, light_block: 0 };
        self.set_voxel_and_mark_geometry(head_pos, head_voxel, chunks);
        let ghost cb = *chunks;
        let new_state = set_active(voxel.state, true);
        let piston = Voxel { id: voxel.id, state: new_state, ..voxel };
        self.set_voxel(pos, piston, chunks);
        proof {
            lemma_same_layout_trans(*old(chunks), ch, cb);
            lemma_same_layout_trans(*old(chunks), cb, *chunks);
            let pw = push_writes(c0, head_pos, o, n);
            lemma_writes_push(c0, ch, cb, pw, (head_pos, head_voxel));
            lemma_writes_push(c0, cb, *chunks, pw.push((head_pos, head_voxel)), (pos, piston));
            assert(pw.push((head_pos, head_voxel)).push((pos, piston)) =~= pw + seq![(head_pos, head_voxel), (pos, piston)]);
        }
        let mut changed: Vec<RedstonePos> = Vec::new();
        changed.push(pos);
        changed.push(head_pos);
        let mut j: usize = 0;
        proof {
            assert(changed@ =~= seq![pos, head_pos] + dests@.take(0));
        }
        while j < dests.len()
            invariant
                j <= dests@.len(),
                changed@ == seq![pos, head_pos] + dests@.take(j as int),
            decreases dests@.len() - j,
        {
            changed.push(dests[j]);
            proof {
                assert(changed@ =~= seq![pos, head_pos] + dests@.take(j + 1));
            }
            j = j + 1;
        }
        proof {
            assert(dests@.take(dests@.len() as int) =~= dests@);
        }
        Some(changed)
    }

    /// Retract the extended piston `voxel` at `pos`: clear a head in front and mark the
    /// piston retracted. Returns the positions whose neighbourhoods change.
    fn retract_piston(&mut self, pos: RedstonePos, voxel: Voxel, chunks: &mut ChunkMap) -> (res: Vec<RedstonePos>)
        requires
            old(self).wf(),
            old(chunks).wf(),
            world_voxel(*old(chunks), pos) == Some(voxel),
            voxel.id == mechanical_blocks::PISTON,
            spec_is_active(voxel.state),
        ensures
            final(self).apply_frame(old(self), *old(chunks), *final(chunks)),
            final(self).pending() == old(self).pending(),
            piston_moves(*old(chunks), pos, false) matches Some(m) && res@ == m.1 && writes_applied(
                *old(chunks),
                *final(chunks),
                m.0,
            ),
    {
        let facing = piston_facing(voxel.state);
        let (dx, dz) = facing.offset();
        let ghost o = spec_offset(facing);
        let head_pos = RedstonePos::new(pos.x.wrapping_add(dx), pos.y, pos.z.wrapping_add(dz));
        assert(head_pos == step(pos, o));
        let ghost c0 = *chunks;
        proof {
            lemma_writes_none(c0);
        }
        let ghost clear: Seq<(RedstonePos, Voxel)> = Seq::empty();
        match self.get_voxel(head_pos, chunks) {
            Some(hv) => {
                if hv.id == mechanical_blocks::PISTON_HEAD {
                    let air = Voxel { id: 0, state: 0, light_sky: 0, light_block: 0 };
                    self.set_voxel_and_mark_geometry(head_pos, air, chunks);
                    proof {
                        lemma_writes_push(c0, c0, *chunks, Seq::empty(), (head_pos, air));
                        assert(Seq::<(RedstonePos, Voxel)>::empty().push((head_pos, air)) =~= seq![(head_pos, air)]);
                        clear = seq![(head_pos, air)];
                    }
                }
            },
            None => {},
        }
        let ghost cb = *chunks;
        let new_state = set_active(voxel.state, false);
        let piston = Voxel { id: voxel.id, state: new_state, ..voxel };
        self.set_voxel(pos, piston, chunks);
        proof {
            lemma_same_layout_trans(*old(chunks), cb, *chunks);
            lemma_writes_push(c0, cb, *chunks, clear, (pos, piston));
            assert(clear.push((pos, piston)) =~= clear + seq![(pos, piston)]);
        }
        let mut changed: Vec<RedstonePos> = Vec::new();
        changed.push(pos);
        changed.push(head_pos);
        proof {
            assert(changed@ =~= seq![pos, head_pos]);
        }
        changed
    }

    /// Extend (pushing up to 12 blocks ahead) or retract a piston.
    fn apply_piston_state(&mut self, pos: RedstonePos, desired_extended: bool, chunks: &mut ChunkMap)
        requires
            old(self).wf(),
            old(chunks).wf(),
        ensures
            final(self).apply_frame(old(self), *old(chunks), *final(chunks)),
            match piston_moves(*old(chunks), pos, desired_extended) {
                Some(m) => writes_applied(*old(chunks), *final(chunks), m.0) && final(self).pending()
                    == old(self).pending().union(touched(m.1)),
                None => {
                    &&& *final(chunks) == *old(chunks)
                    &&& final(self).pending() == old(self).pending()
                    &&& final(self).dirty() == old(self).dirty()
                    &&& final(self).dirty_light() == old(self).dirty_light()
                    &&& final(self).dirty_geometry() == old(self).dirty_geometry()
                    &&& final(self).dirty_geometry_positions_view() == old(self).dirty_geometry_positions_view()
                },
            },
    {
        let voxel = match self.get_voxel(pos, chunks) {
            Some(v) => v,
            None => return ,
        };
        if voxel.id != mechanical_blocks::PISTON {
            return ;
        }
        let was_extended = is_active(voxel.state);
        if was_extended == desired_extended {
            return ;
        }
        let ghost c0 = *chunks;
        let ghost s0 = *self;
        let changed = if desired_extended {
            match self.extend_piston(pos, voxel, chunks) {
                Some(c) => c,
                None => return ,
            }
        } else {
            self.retract_piston(pos, voxel, chunks)
        };
        let ghost c1 = *chunks;
        self.schedule_changed(&changed);
        proof {
            assert(*chunks == c1);
        }
    }

    /// Set a repeater's output after its delay; a change schedules the neighbours.
    fn apply_repeater_output(&mut self, pos: RedstonePos, desired_active: bool, chunks: &mut ChunkMap)
        requires
            old(self).wf(),
            old(chunks).wf(),
        ensures
            final(self).apply_frame(old(self), *old(chunks), *final(chunks)),
            ({
                let v = world_voxel(*old(chunks), pos);
                if v.is_some() && v.unwrap().id == redstone_blocks::REDSTONE_REPEATER && spec_is_active(v.unwrap().state) != desired_active {
                    &&& world_write(*old(chunks), *final(chunks), pos, Voxel { state: with_flag(v.unwrap().state, 0x10, desired_active), ..v.unwrap() })
                    &&& final(self).pending() == old(self).pending().union(neighbor_set(pos))
                } else {
                    &&& *final(chunks) == *old(chunks)
                    &&& final(self).pending() == old(self).pending()
                }
            }),
    {
        let voxel = match self.get_voxel(pos, chunks) {
            Some(v) => v,
            None => return ,
        };
        if voxel.id != redstone_blocks::REDSTONE_REPEATER {
            return ;
        }
        if is_active(voxel.state) == desired_active {
            return ;
        }
        let new_state = set_active(voxel.state, desired_active);
        self.set_voxel(pos, Voxel { id: voxel.id, state: new_state, ..voxel }, chunks);
        self.schedule_neighbors(pos);
    }

    /// Set a comparator's output power after its delay; a change schedules the neighbours.
    fn apply_comparator_output(&mut self, pos: RedstonePos, desired_power: u8, chunks: &mut ChunkMap)
        requires
            old(self).wf(),
            old(chunks).wf(),
        ensures
            final(self).apply_frame(old(self), *old(chunks), *final(chunks)),
            ({
                let v = world_voxel(*old(chunks), pos);
                if v.is_some() && v.unwrap().id == redstone_blocks::REDSTONE_COMPARATOR && spec_comparator_output(v.unwrap().state) != desired_power {
                    &&& world_write(*old(chunks), *final(chunks), pos, Voxel { state: with_flag(with_field(v.unwrap().state, 15, 5, (if desired_power > 15 { 15 } else { desired_power }) as u16), 0x10, desired_power > 0), ..v.unwrap() })
                    &&& final(self).pending() == old(self).pending().union(neighbor_set(pos))
                } else {
                    &&& *final(chunks) == *old(chunks)
                    &&& final(self).pending() == old(self).pending()
                }
            }),
    {
        let voxel = match self.get_voxel(pos, chunks) {
            Some(v) => v,
            None => return ,
        };
        if voxel.id != redstone_blocks::REDSTONE_COMPARATOR {
            return ;
        }
        if comparator_output_power(voxel.state) == desired_power {
            return ;
        }
        let new_state = set_comparator_output_power(voxel.state, desired_power);
        let new_state = set_active(new_state, desired_power > 0);
        self.set_voxel(pos, Voxel { id: voxel.id, state: new_state, ..voxel }, chunks);
        self.schedule_neighbors(pos);
    }

    /// Set an observer's pulse output; a change schedules the neighbours.
    fn apply_observer_output(&mut self, pos: RedstonePos, desired_active: bool, chunks: &mut ChunkMap)
        requires
            old(self).wf(),
            old(chunks).wf(),
        ensures
            final(self).apply_frame(old(self), *old(chunks), *final(chunks)),
            ({
                let v = world_voxel(*old(chunks), pos);
                if v.is_some() && v.unwrap().id == redstone_blocks::REDSTONE_OBSERVER && spec_is_active(v.unwrap().state) != desired_active {
                    &&& world_write(*old(chunks), *final(chunks), pos, Voxel { state: with_flag(v.unwrap().state, 0x10, desired_active), ..v.unwrap() })
                    &&& final(self).pending() == old(self).pending().union(neighbor_set(pos))
                } else {
                    &&& *final(chunks) == *old(chunks)
                    &&& final(self).pending() == old(self).pending()
                }
            }),
    {
        let voxel = match self.get_voxel(pos, chunks) {
            Some(v) => v,
            None => return ,
        };
        if voxel.id != redstone_blocks::REDSTONE_OBSERVER {
            return ;
        }
        if is_active(voxel.state) == desired_active {
            return ;
        }
        let new_state = set_active(voxel.state, desired_active);
        self.set_voxel(pos, Voxel { id: voxel.id, state: new_state, ..voxel }, chunks);
        self.schedule_neighbors(pos);
    }

    /// Advance one tick: apply the button releases, repeater / comparator / observer outputs
    /// and piston moves that are due, then re-evaluate every pending position breadth-first
    /// (in ascending position order), re-evaluating the neighbours of each position whose
    /// power changed. Afterwards nothing is pending and nothing scheduled is overdue.
    pub fn tick(&mut self, chunks: &mut ChunkMap)
        requires
            old(self).wf(),
            old(chunks).wf(),
            old(self).now() < u64::MAX,
        ensures
            final(self).wf(),
            same_layout(*old(chunks), *final(chunks)),
            final(self).now() == old(self).now() + 1,
            final(self).pending() == Set::<RedstonePos>::empty(),
            final(self).now() < u64::MAX ==> final(self).nothing_due_by(final(self).now()),
            exists|
                cs: Seq<ChunkMap>,
                ps: Seq<Set<RedstonePos>>,
                tr: Seq<(ChunkMap, Seq<RedstonePos>, int, Seq<RedstonePos>)>,
            |
                #[trigger] tick_run(
                    *old(chunks),
                    old(self).pending(),
                    old(self).due_changes((old(self).now() + 1) as u64),
                    cs,
                    ps,
                    tr,
                ) && tr.last().0 == *final(chunks),
    {
        let ghost s_orig = *self;
        self.current_tick = self.current_tick + 1;
        let now = self.current_tick;
        let ghost c_start = *chunks;
        let ghost ops = s_orig.due_changes(now);

        let due = take_due(&mut self.button_timers, now);
        let due_rep = take_due(&mut self.repeater_timers, now);
        let due_comparators = take_due(&mut self.comparator_timers, now);
        let due_obs = take_due(&mut self.observer_timers, now);
        let due_pst = take_due(&mut self.piston_timers, now);
        let ghost s_timers = *self;
        assert(self.nothing_due_by(now));
        let ghost n1 = due@.len() as int;
        let ghost n2 = n1 + due_rep@.len();
        let ghost n3 = n2 + due_comparators@.len();
        let ghost n4 = n3 + due_obs@.len();
        proof {
            assert(ops.len() == n4 + due_pst@.len());
            assert forall|k: int| 0 <= k < due@.len() implies #[trigger] ops[k] == DueChange::Release(due@[k].pos) by {}
            assert forall|k: int| 0 <= k < due_rep@.len() implies #[trigger] ops[n1 + k] == DueChange::Repeater(
                due_rep@[k].pos, due_rep@[k].value != 0) by {}
            assert forall|k: int| 0 <= k < due_comparators@.len() implies #[trigger] ops[n2 + k] == DueChange::Comparator(
                due_comparators@[k].pos, due_comparators@[k].value) by {}
            assert forall|k: int| 0 <= k < due_obs@.len() implies #[trigger] ops[n3 + k] == DueChange::Observer(
                due_obs@[k].pos, due_obs@[k].value != 0) by {}
            assert forall|k: int| 0 <= k < due_pst@.len() implies #[trigger] ops[n4 + k] == DueChange::Piston(
                due_pst@[k].pos, due_pst@[k].value != 0) by {}
        }
        let ghost mut cs: Seq<ChunkMap> = seq![c_start];
        let ghost mut ps: Seq<Set<RedstonePos>> = seq![s_orig.pending()];

        let mut i: usize = 0;
        while i < due.len()
            invariant
                self.apply_frame(&s_timers, c_start, *chunks),
                i <= due@.len(),
                0 <= 0,
                cs.len() == 0 + i + 1,
                ps.len() == cs.len(),
                cs[0] == c_start,
                ps[0] == s_orig.pending(),
                cs.last() == *chunks,
                ps.last() == self.pending(),
                forall|j: int| 0 <= j < cs.len() - 1 ==> #[trigger] due_applied(cs[j], ps[j], cs[j + 1], ps[j + 1], ops[j]),
                forall|k: int| 0 <= k < due@.len() ==> #[trigger] ops[0 + k] == DueChange::Release(due@[k].pos),
            decreases due@.len() - i,
        {
            let ghost ci = *chunks;
            let ghost pi = self.pending();
            self.deactivate_button(due[i].pos, chunks);
            proof {
                lemma_same_layout_trans(c_start, ci, *chunks);
                let ghost k = cs.len() - 1;
                assert(ops[0 + i] == DueChange::Release(due@[i as int].pos));
                assert(due_applied(ci, pi, *chunks, self.pending(), ops[k]));
                let ghost cs0 = cs;
                let ghost ps0 = ps;
                cs = cs.push(*chunks);
                ps = ps.push(self.pending());
                assert forall|j: int| 0 <= j < cs.len() - 1 implies #[trigger] due_applied(cs[j], ps[j], cs[j + 1], ps[j + 1], ops[j]) by {
                    if j < k {
                        assert(due_applied(cs0[j], ps0[j], cs0[j + 1], ps0[j + 1], ops[j]));
                    }
                }
            }
            i = i + 1;
        }
        let mut i: usize = 0;
        while i < due_rep.len()
            invariant
                self.apply_frame(&s_timers, c_start, *chunks),
                i <= due_rep@.len(),
                0 <= n1,
                cs.len() == n1 + i + 1,
                ps.len() == cs.len(),
                cs[0] == c_start,
                ps[0] == s_orig.pending(),
                cs.last() == *chunks,
                ps.last() == self.pending(),
                forall|j: int| 0 <= j < cs.len() - 1 ==> #[trigger] due_applied(cs[j], ps[j], cs[j + 1], ps[j + 1], ops[j]),
                forall|k: int| 0 <= k < due_rep@.len() ==> #[trigger] ops[n1 + k] == DueChange::Repeater(due_rep@[k].pos, due_rep@[k].value != 0),
            decreases due_rep@.len() - i,
        {
            let ghost ci = *chunks;
            let ghost pi = self.pending();
            self.apply_repeater_output(due_rep[i].pos, due_rep[i].value != 0, chunks);
            proof {
                lemma_same_layout_trans(c_start, ci, *chunks);
                let ghost k = cs.len() - 1;
                assert(ops[n1 + i] == DueChange::Repeater(due_rep@[i as int].pos, due_rep@[i as int].value != 0));
                assert(due_applied(ci, pi, *chunks, self.pending(), ops[k]));
                let ghost cs0 = cs;
                let ghost ps0 = ps;
                cs = cs.push(*chunks);
                ps = ps.push(self.pending());
                assert forall|j: int| 0 <= j < cs.len() - 1 implies #[trigger] due_applied(cs[j], ps[j], cs[j + 1], ps[j + 1], ops[j]) by {
                    if j < k {
                        assert(due_applied(cs0[j], ps0[j], cs0[j + 1], ps0[j + 1], ops[j]));
                    }
                }
            }
            i = i + 1;
        }
        let mut i: usize = 0;
        while i < due_comparators.len()
            invariant
                self.apply_frame(&s_timers, c_start, *chunks),
                i <= due_comparators@.len(),
                0 <= n2,
                cs.len() == n2 + i + 1,
                ps.len() == cs.len(),
                cs[0] == c_start,
                ps[0] == s_orig.pending(),
                cs.last() == *chunks,
                ps.last() == self.pending(),
                forall|j: int| 0 <= j < cs.len() - 1 ==> #[trigger] due_applied(cs[j], ps[j], cs[j + 1], ps[j + 1], ops[j]),
                forall|k: int| 0 <= k < due_comparators@.len() ==> #[trigger] ops[n2 + k] == DueChange::Comparator(due_comparators@[k].pos, due_comparators@[k].value),
            decreases due_comparators@.len() - i,
        {
            let ghost ci = *chunks;
            let ghost pi = self.pending();
            self.apply_comparator_output(due_comparators[i].pos, due_comparators[i].value, chunks);
            proof {
                lemma_same_layout_trans(c_start, ci, *chunks);
                let ghost k = cs.len() - 1;
                assert(ops[n2 + i] == DueChange::Comparator(due_comparators@[i as int].pos, due_comparators@[i as int].value));
                assert(due_applied(ci, pi, *chunks, self.pending(), ops[k]));
                let ghost cs0 = cs;
                let ghost ps0 = ps;
                cs = cs.push(*chunks);
                ps = ps.push(self.pending());
                assert forall|j: int| 0 <= j < cs.len() - 1 implies #[trigger] due_applied(cs[j], ps[j], cs[j + 1], ps[j + 1], ops[j]) by {
                    if j < k {
                        assert(due_applied(cs0[j], ps0[j], cs0[j + 1], ps0[j + 1], ops[j]));
                    }
                }
            }
            i = i + 1;
        }
        let mut i: usize = 0;
        while i < due_obs.len()
            invariant
                self.apply_frame(&s_timers, c_start, *chunks),
                i <= due_obs@.len(),
                0 <= n3,
                cs.len() == n3 + i + 1,
                ps.len() == cs.len(),
                cs[0] == c_start,
                ps[0] == s_orig.pending(),
                cs.last() == *chunks,
                ps.last() == self.pending(),
                forall|j: int| 0 <= j < cs.len() - 1 ==> #[trigger] due_applied(cs[j], ps[j], cs[j + 1], ps[j + 1], ops[j]),
                forall|k: int| 0 <= k < due_obs@.len() ==> #[trigger] ops[n3 + k] == DueChange::Observer(due_obs@[k].pos, due_obs@[k].value != 0),
            decreases due_obs@.len() - i,
        {
            let ghost ci = *chunks;
            let ghost pi = self.pending();
            self.apply_observer_output(due_obs[i].pos, due_obs[i].value != 0, chunks);
            proof {
                lemma_same_layout_trans(c_start, ci, *chunks);
                let ghost k = cs.len() - 1;
                assert(ops[n3 + i] == DueChange::Observer(due_obs@[i as int].pos, due_obs@[i as int].value != 0));
                assert(due_applied(ci, pi, *chunks, self.pending(), ops[k]));
                let ghost cs0 = cs;
                let ghost ps0 = ps;
                cs = cs.push(*chunks);
                ps = ps.push(self.pending());
                assert forall|j: int| 0 <= j < cs.len() - 1 implies #[trigger] due_applied(cs[j], ps[j], cs[j + 1], ps[j + 1], ops[j]) by {
                    if j < k {
                        assert(due_applied(cs0[j], ps0[j], cs0[j + 1], ps0[j + 1], ops[j]));
                    }
                }
            }
            i = i + 1;
        }
        let mut i: usize = 0;
        while i < due_pst.len()
            invariant
                self.apply_frame(&s_timers, c_start, *chunks),
                i <= due_pst@.len(),
                0 <= n4,
                cs.len() == n4 + i + 1,
                ps.len() == cs.len(),
                cs[0] == c_start,
                ps[0] == s_orig.pending(),
                cs.last() == *chunks,
                ps.last() == self.pending(),
                forall|j: int| 0 <= j < cs.len() - 1 ==> #[trigger] due_applied(cs[j], ps[j], cs[j + 1], ps[j + 1], ops[j]),
                forall|k: int| 0 <= k < due_pst@.len() ==> #[trigger] ops[n4 + k] == DueChange::Piston(due_pst@[k].pos, due_pst@[k].value != 0),
            decreases due_pst@.len() - i,
        {
            let ghost ci = *chunks;
            let ghost pi = self.pending();
            self.apply_piston_state(due_pst[i].pos, due_pst[i].value != 0, chunks);
            proof {
                lemma_same_layout_trans(c_start, ci, *chunks);
                let ghost k = cs.len() - 1;
                assert(ops[n4 + i] == DueChange::Piston(due_pst@[i as int].pos, due_pst@[i as int].value != 0));
                assert(due_applied(ci, pi, *chunks, self.pending(), ops[k]));
                let ghost cs0 = cs;
                let ghost ps0 = ps;
                cs = cs.push(*chunks);
                ps = ps.push(self.pending());
                assert forall|j: int| 0 <= j < cs.len() - 1 implies #[trigger] due_applied(cs[j], ps[j], cs[j + 1], ps[j + 1], ops[j]) by {
                    if j < k {
                        assert(due_applied(cs0[j], ps0[j], cs0[j + 1], ps0[j + 1], ops[j]));
                    }
                }
            }
            i = i + 1;
        }

        let ghost cm = *chunks;
        let ghost pm = self.pending();
        proof {
            assert(due_run(c_start, s_orig.pending(), ops, cs, ps));
        }
        if self.pending_updates.is_empty() {
            proof {
                let tr0 = seq![(cm, Seq::<RedstonePos>::empty(), 0int, Seq::<RedstonePos>::empty())];
                assert(Seq::<RedstonePos>::empty().to_set() =~= pm);
                assert(tick_run(c_start, s_orig.pending(), ops, cs, ps, tr0));
            }
            return ;
        }
        proof {
            self.pending_updates.lemma_ordered();
        }
        let mut queue: Vec<RedstonePos> = self.pending_updates.to_vec();
        self.pending_updates = RedstonePosSet::new();
        let ghost q_init = queue@;
        let ghost mut tr: Seq<(ChunkMap, Seq<RedstonePos>, int, Seq<RedstonePos>)> = seq![
            (cm, q_init, 0int, Seq::<RedstonePos>::empty()),
        ];

        let ghost k0 = *chunks;
        let ghost bound: int = (k0.spec_len() * 65536) as int;
        let ghost mut hits: Set<int> = Set::empty();
        let ghost mut hit_pos: Map<int, RedstonePos> = Map::empty();
        let mut visited: Vec<RedstonePos> = Vec::new();
        let mut head: usize = 0;
        assert(visited@ =~= Seq::<RedstonePos>::empty());
        proof {
            vstd::set_lib::lemma_int_range(0, bound);
            assert(0 <= bound) by (nonlinear_arith)
                requires
                    bound == k0.spec_len() * 65536,
            ;
        }
        while head < queue.len()
            invariant
                self.wf(),
                chunks.wf(),
                same_layout(c_start, *chunks),
                same_layout(k0, *chunks),
                k0.wf(),
                self.now() == now,
                self.pending() == Set::<RedstonePos>::empty(),
                now < u64::MAX ==> self.nothing_due_by(now),
                head <= queue@.len(),
                bound == k0.spec_len() * 65536,
                0 <= bound,
                set_int_range(0, bound).finite(),
                hits.finite(),
                hits.subset_of(set_int_range(0, bound)),
                hit_pos.dom() == hits,
                forall|k: int|
                    #[trigger] hits.contains(k) ==> visited@.contains(hit_pos[k])
                        && world_voxel(k0, hit_pos[k]).is_some() && loaded_index(k0, hit_pos[k])
                        == k,
                due_run(c_start, s_orig.pending(), ops, cs, ps),
                cs.last() == cm,
                ps.last() == pm,
                k0 == cm,
                ascending(q_init),
                q_init.to_set() == pm,
                tr.len() >= 1,
                tr[0] == (cm, q_init, 0int, Seq::<RedstonePos>::empty()),
                forall|j: int| 0 <= j < tr.len() - 1 ==> #[trigger] bfs_next(tr[j], tr[j + 1]),
                tr.last() == (*chunks, queue@, head as int, visited@),
            decreases bound - hits.len(), queue@.len() - head,
        {
            let ghost st = tr.last();
            proof {
                vstd::set_lib::lemma_len_subset(hits, set_int_range(0, bound));
                vstd::set_lib::lemma_int_range(0, bound);
            }
            let pos = queue[head];
            head = head + 1;
            if pos_in(&visited, pos) {
                proof {
                    let ghost tr0 = tr;
                    tr = tr.push((*chunks, queue@, head as int, visited@));
                    assert(bfs_next(st, tr.last()));
                    assert forall|j: int| 0 <= j < tr.len() - 1 implies #[trigger] bfs_next(tr[j], tr[j + 1]) by {
                        if j < tr0.len() - 1 {
                            assert(bfs_next(tr0[j], tr0[j + 1]));
                        }
                    }
                }
                continue ;
            }
            let ghost vb = visited@;
            visited.push(pos);
            proof {
                assert forall|q: RedstonePos| vb.contains(q) implies visited@.contains(q) by {
                    let t = choose|t: int| 0 <= t < vb.len() && vb[t] == q;
                    assert(visited@[t] == q);
                }
                assert(visited@[visited@.len() - 1] == pos);
                assert(visited@.contains(pos));
            }
            let ghost cb = *chunks;
            let changed = self.process_update(pos, chunks);
            proof {
                lemma_same_layout_trans(c_start, cb, *chunks);
                lemma_same_layout_trans(k0, cb, *chunks);
            }
            if changed {
                proof {
                    assert(world_voxel(k0, pos).is_some());
                    let k = loaded_index(k0, pos);
                    lemma_loaded_index(k0, pos, pos);
                    if hits.contains(k) {
                        let q = hit_pos[k];
                        lemma_loaded_index(k0, pos, q);
                        assert(visited@.contains(q));
                        assert(false);
                    }
                    assert(0 <= k);
                    assert(k < k0.spec_len() * 65536);
                    assert(k < bound);
                    assert(set_int_range(0, bound).contains(k));
                    assert(hits.insert(k).len() == hits.len() + 1);
                    let ghost old_hits = hits;
                    hits = hits.insert(k);
                    hit_pos = hit_pos.insert(k, pos);
                    assert forall|j: int| hits.contains(j) implies set_int_range(0, bound).contains(j) by {
                        if j != k {
                            assert(old_hits.contains(j));
                        }
                    }
                    assert forall|j: int| #[trigger] hits.contains(j) implies visited@.contains(hit_pos[j])
                        && world_voxel(k0, hit_pos[j]).is_some() && loaded_index(k0, hit_pos[j]) == j by {
                        if j != k {
                            let q = hit_pos[j];
                            assert(vb.contains(q));
                        }
                    }
                    assert(hits.subset_of(set_int_range(0, bound)));
                    vstd::set_lib::lemma_len_subset(hits, set_int_range(0, bound));
                    assert(bound - hits.len() < bound - old_hits.len());
                    assert(bound - hits.len() >= 0);
                }
                let ns = pos.neighbors();
                let ghost qb = queue@;
                let mut j: usize = 0;
                while j < 6
                    invariant
                        head <= queue@.len(),
                        0 <= j <= 6,
                        queue@ == qb + fresh_neighbors(pos, visited@, j as int),
                        forall|k: int| 0 <= k < 6 ==> #[trigger] ns@[k] == spec_neighbor(pos, k),
                    decreases 6 - j,
                {
                    let ghost q_before = queue@;
                    if !pos_in(&visited, ns[j]) {
                        queue.push(ns[j]);
                    }
                    proof {
                        assert(ns@[j as int] == spec_neighbor(pos, j as int));
                        assert(queue@ =~= qb + fresh_neighbors(pos, visited@, j + 1));
                    }
                    j = j + 1;
                }
            } else {
                proof {
                    assert forall|j: int| #[trigger] hits.contains(j) implies visited@.contains(hit_pos[j])
                        && world_voxel(k0, hit_pos[j]).is_some() && loaded_index(k0, hit_pos[j]) == j by {
                        assert(vb.contains(hit_pos[j]));
                    }
                }
            }
            proof {
                let ghost tr0 = tr;
                tr = tr.push((*chunks, queue@, head as int, visited@));
                assert(bfs_next(st, tr.last()));
                assert forall|j: int| 0 <= j < tr.len() - 1 implies #[trigger] bfs_next(tr[j], tr[j + 1]) by {
                    if j < tr0.len() - 1 {
                        assert(bfs_next(tr0[j], tr0[j + 1]));
                    }
                }
            }
        }
        proof {
            assert(tick_run(c_start, s_orig.pending(), ops, cs, ps, tr));
        }
    }

    /// Take the chunks needing a mesh rebuild, leaving none marked.
    pub fn take_dirty_chunks(&mut self) -> (res: ChunkPosSet)
        requires
            old(self).wf(),
        ensures
            final(self).wf(),
            res.wf(),
            res@ == old(self).dirty(),
            final(self).dirty() == Set::<ChunkPos>::empty(),
            final(self).pending() == old(self).pending(),
            final(self).now() == old(self).now(),
    {
        let mut out = ChunkPosSet::new();
        std::mem::swap(&mut out, &mut self.dirty_chunks);
        out
    }

    /// Take the chunks needing block-light recomputation, leaving none marked.
    pub fn take_dirty_light_chunks(&mut self) -> (res: ChunkPosSet)
        requires
            old(self).wf(),
        ensures
            final(self).wf(),
            res.wf(),
            res@ == old(self).dirty_light(),
            final(self).dirty_light() == Set::<ChunkPos>::empty(),
            final(self).dirty() == old(self).dirty(),
    {
        let mut out = ChunkPosSet::new();
        std::mem::swap(&mut out, &mut self.dirty_light_chunks);
        out
    }

    /// Take the chunks whose geometry changed, leaving none marked.
    pub fn take_dirty_geometry_chunks(&mut self) -> (res: ChunkPosSet)
        requires
            old(self).wf(),
        ensures
            final(self).wf(),
            res.wf(),
            res@ == old(self).dirty_geometry(),
            final(self).dirty_geometry() == Set::<ChunkPos>::empty(),
            final(self).dirty() == old(self).dirty(),
    {
        let mut out = ChunkPosSet::new();
        std::mem::swap(&mut out, &mut self.dirty_geometry_chunks);
        out
    }

    /// Take the positions whose geometry changed, leaving none marked.
    pub fn take_dirty_geometry_positions(&mut self) -> (res: RedstonePosSet)
        requires
            old(self).wf(),
        ensures
            final(self).wf(),
            res.wf(),
            res@ == old(self).dirty_geometry_positions_view(),
            final(self).dirty_geometry_positions_view() == Set::<RedstonePos>::empty(),
            final(self).dirty() == old(self).dirty(),
    {
        let mut out = RedstonePosSet::new();
        std::mem::swap(&mut out, &mut self.dirty_geometry_positions);
        out
    }

    /// Number of pending updates.
    pub fn pending_count(&self) -> (res: usize)
        requires
            self.wf(),
        ensures
            self.pending().finite(),
            res == self.pending().len(),
    {
        proof {
            vstd::seq_lib::seq_to_set_is_finite(self.pending_updates.items@);
        }
        self.pending_updates.len()
    }
}

impl Default for RedstoneSimulator {
    fn default() -> (res: Self)
        ensures
            res.wf(),
            res.pending() == Set::<RedstonePos>::empty(),
            res.now() == 0,
            res.dirty() == Set::<ChunkPos>::empty(),
            res.no_scheduled_changes(),
    {
        RedstoneSimulator::new()
    }
}

} // verus!
