//! Respawn anchor charges, packed in the low bits of the block state, and their light.

use crate::bits::{lemma_and_bound, lemma_low_field, lemma_small_fits};
use crate::chunk::BlockState;
use vstd::prelude::*;

verus! {

/// Most charges an anchor holds.
pub const RESPAWN_ANCHOR_MAX_CHARGES: u8 = 4;

const RESPAWN_ANCHOR_CHARGE_MASK: BlockState = 0b111;

/// The charges stored in a state: the low three bits, capped at 4.
pub open spec fn spec_charges(state: BlockState) -> u8 {
    if (state & 7) < 4 {
        (state & 7) as u8
    } else {
        4
    }
}

/// A charge count capped at 4.
pub open spec fn capped_charges(charges: u8) -> u8 {
    if charges < 4 {
        charges
    } else {
        4
    }
}

/// The charge count (0..=4) in a respawn anchor's state.
pub fn respawn_anchor_charges(state: BlockState) -> (res: u8)
    ensures
        res == spec_charges(state),
{
    proof {
        lemma_and_bound(state, 7);
    }
    let raw = (state & RESPAWN_ANCHOR_CHARGE_MASK) as u8;
    if raw < RESPAWN_ANCHOR_MAX_CHARGES {
        raw
    } else {
        RESPAWN_ANCHOR_MAX_CHARGES
    }
}

/// The state with its charge count set to `charges` capped at 4; the other bits stay.
pub fn set_respawn_anchor_charges(state: BlockState, charges: u8) -> (res: BlockState)
    ensures
        res == (state & !7u16) | (capped_charges(charges) as u16),
        res & 7 == capped_charges(charges),
        res & !7u16 == state & !7u16,
{
    let capped = if charges < RESPAWN_ANCHOR_MAX_CHARGES {
        charges
    } else {
        RESPAWN_ANCHOR_MAX_CHARGES
    };
    let c = capped as BlockState;
    proof {
        lemma_small_fits(c);
        lemma_low_field(state, 7, c);
    }
    (state & !RESPAWN_ANCHOR_CHARGE_MASK) | c
}

/// Block light emitted by an anchor with the given charges (capped at 4).
pub open spec fn spec_anchor_light(charges: u8) -> u8 {
    let c = capped_charges(charges);
    if c == 0 {
        0
    } else if c == 1 {
        3
    } else if c == 2 {
        7
    } else if c == 3 {
        11
    } else {
        15
    }
}

/// Block light (0..=15) emitted by an anchor with the given charges.
pub fn respawn_anchor_light_level(charges: u8) -> (res: u8)
    ensures
        res == spec_anchor_light(charges),
{
    let c = if charges < RESPAWN_ANCHOR_MAX_CHARGES {
        charges
    } else {
        RESPAWN_ANCHOR_MAX_CHARGES
    };
    match c {
        0 => 0,
        1 => 3,
        2 => 7,
        3 => 11,
        _ => 15,
    }
}

/// Writing a charge count and reading it back gives the count capped at 4.
pub proof fn law_charges_roundtrip(state: BlockState, charges: u8)
    ensures
        spec_charges((state & !7u16) | (capped_charges(charges) as u16)) == capped_charges(charges),
{
    let c = capped_charges(charges) as u16;
    lemma_small_fits(c);
    lemma_low_field(state, 7, c);
}

} // verus!
