//! The item codec: one 64-bit word that packs a field ordinal together with
//! a dictionary value ordinal.
//!
//! Field 0 is the reserved time slot; user fields occupy ordinals `1..=k`.
//! The field lives in the low 32 bits and the value ordinal in the high
//! 32 bits, so an item can never be mistaken for one of another field: the
//! decoder recovers both components exactly.

use vstd::prelude::*;

verus! {

/// A timestamp attached to every added event; the epoch is the caller's.
pub type Timestamp = u64;

/// The format version reported by `Db::version`.
pub type Version = u64;

/// The dense 0-based ordinal of a trail inside a finalized database.
pub type TrailId = u64;

/// A caller-supplied 16-byte identifier; used only for identity, never
/// interpreted.
pub type Uuid = [u8; 16];

/// A dictionary value ordinal inside one field's lexicon.
pub type Value = u64;

/// A field ordinal; 0 is the reserved time slot.
pub type Field = u32;

/// A packed (field, value) reference, the unit stored per event slot.
#[derive(Debug, Clone, Copy)]
pub struct Item(pub u64);

/// The field component of a packed item word.
pub open spec fn spec_item_field(x: u64) -> u64 {
    x & 0xFFFF_FFFF
}

/// The value component of a packed item word.
pub open spec fn spec_item_val(x: u64) -> u64 {
    x >> 32u64
}

/// The packed word for a (field, value) pair.
pub open spec fn spec_item(field: u64, val: u64) -> u64 {
    field | (val << 32u64)
}

/// The codec is lossless: packing a field and a value ordinal and reading
/// the components back yields the originals, so an item's field component
/// always matches the slot it was packed for.
pub proof fn lemma_item_roundtrip(field: u64, val: u64)
    requires
        field < 0x1_0000_0000,
        val < 0x1_0000_0000,
    ensures
        spec_item_field(spec_item(field, val)) == field,
        spec_item_val(spec_item(field, val)) == val,
{
    assert((field | (val << 32u64)) & 0xFFFF_FFFF == field) by (bit_vector)
        requires
            field < 0x1_0000_0000,
            val < 0x1_0000_0000,
    ;
    assert((field | (val << 32u64)) >> 32u64 == val) by (bit_vector)
        requires
            field < 0x1_0000_0000,
            val < 0x1_0000_0000,
    ;
}

/// Packs a field ordinal and a value ordinal into one item word.
pub fn pack_item(field: u64, val: u64) -> (r: u64)
    requires
        field < 0x1_0000_0000,
        val < 0x1_0000_0000,
    ensures
        r == spec_item(field, val),
        spec_item_field(r) == field,
        spec_item_val(r) == val,
{
    proof {
        lemma_item_roundtrip(field, val);
    }
    field | (val << 32u64)
}

/// Reads the field component back out of an item word.
pub fn item_field(x: u64) -> (r: u64)
    ensures
        r == spec_item_field(x),
{
    x & 0xFFFF_FFFF
}

/// Reads the value component back out of an item word.
pub fn item_val(x: u64) -> (r: u64)
    ensures
        r == spec_item_val(x),
{
    x >> 32u64
}

} // verus!
