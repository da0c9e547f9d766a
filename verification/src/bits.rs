//! Facts about packed 16-bit block-state fields.

use vstd::prelude::*;

verus! {

/// Whether any bit of `m` is set in `s`.
pub open spec fn flag(s: u16, m: u16) -> bool {
    s & m != 0
}

/// `s` with the bits of `m` all set (`on`) or all cleared.
pub open spec fn with_flag(s: u16, m: u16, on: bool) -> u16 {
    if on {
        s | m
    } else {
        s & !m
    }
}

/// The field of width mask `m` stored at bit offset `k`.
pub open spec fn field(s: u16, m: u16, k: u16) -> u16 {
    (s & (m << k)) >> k
}

/// `s` with the field of mask `m` at offset `k` replaced by `v`.
pub open spec fn with_field(s: u16, m: u16, k: u16, v: u16) -> u16 {
    (s & !(m << k)) | (v << k)
}

/// Setting or clearing bits gives the requested flag and keeps every other bit.
pub proof fn lemma_with_flag(s: u16, m: u16, on: bool)
    requires
        m != 0,
    ensures
        flag(with_flag(s, m, on), m) == on,
        with_flag(s, m, on) & !m == s & !m,
{
    lemma_flag_bits(s, m);
}

proof fn lemma_flag_bits(s: u16, m: u16)
    by (bit_vector)
    requires
        m != 0,
    ensures
        ((s | m) & m) != 0,
        ((s & !m) & m) == 0,
        ((s | m) & !m) == (s & !m),
        ((s & !m) & !m) == (s & !m),
{
}

/// A field written with an in-range value reads back as that value, and the other bits stay.
pub proof fn lemma_with_field(s: u16, m: u16, k: u16, v: u16)
    requires
        k < 16,
        v & m == v,
        (m << k) >> k == m,
    ensures
        field(with_field(s, m, k, v), m, k) == v,
        with_field(s, m, k, v) & !(m << k) == s & !(m << k),
{
    lemma_field_bits(s, m, k, v);
}

proof fn lemma_field_bits(s: u16, m: u16, k: u16, v: u16)
    by (bit_vector)
    requires
        k < 16,
        v & m == v,
        (m << k) >> k == m,
    ensures
        ((((s & !(m << k)) | (v << k)) & (m << k)) >> k) == v,
        (((s & !(m << k)) | (v << k)) & !(m << k)) == (s & !(m << k)),
{
}

/// A field value never exceeds its mask.
pub proof fn lemma_field_bound(s: u16, m: u16, k: u16)
    by (bit_vector)
    requires
        k < 16,
        (m << k) >> k == m,
    ensures
        ((s & (m << k)) >> k) & m == ((s & (m << k)) >> k),
        ((s & (m << k)) >> k) <= m,
{
}

/// Masking with a low mask bounds the value.
pub proof fn lemma_and_bound(s: u16, m: u16)
    by (bit_vector)
    ensures
        s & m <= m,
        (s & m) & m == s & m,
{
}


/// The shifted masks of the packed fields used by block states.
pub proof fn lemma_field_masks()
    by (bit_vector)
    ensures
        3u16 << 6u16 == 0xC0u16,
        (3u16 << 6u16) >> 6u16 == 3u16,
        3u16 << 2u16 == 0x0Cu16,
        (3u16 << 2u16) >> 2u16 == 3u16,
        3u16 << 5u16 == 0x60u16,
        (3u16 << 5u16) >> 5u16 == 3u16,
        15u16 << 5u16 == 0x1E0u16,
        (15u16 << 5u16) >> 5u16 == 15u16,
        255u16 << 5u16 == 0x1FE0u16,
        (255u16 << 5u16) >> 5u16 == 255u16,
{
}

/// Replacing the low bits selected by `m` with an in-range value.
pub proof fn lemma_low_field(s: u16, m: u16, v: u16)
    by (bit_vector)
    requires
        v & m == v,
    ensures
        ((s & !m) | v) & m == v,
        ((s & !m) | v) & !m == s & !m,
{
}

/// Small values fit in a low mask of all ones.
pub proof fn lemma_small_fits(v: u16)
    by (bit_vector)
    ensures
        v <= 3 ==> v & 3 == v,
        v <= 7 ==> v & 7 == v,
        v <= 15 ==> v & 15 == v,
        v <= 255 ==> v & 255 == v,
{
}

} // verus!
