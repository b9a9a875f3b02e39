//! Packed reference bitmaps: bit `i % 8` of byte `i / 8` describes slot `i`.

use crate::layout::units_for;
use vstd::prelude::*;

verus! {

/// Whether bit `k` of `byte` is set, counting from the least significant.
pub open spec fn byte_bit(byte: u8, k: u8) -> bool {
    (byte >> k) & 1 == 1
}

/// Whether the bitmap `bytes` marks slot `i` as holding a reference.
pub open spec fn bit_at(bytes: Seq<u8>, i: int) -> bool {
    byte_bit(bytes[i / 8], (i % 8) as u8)
}

/// Number of bytes a bitmap needs to describe `slots` slots: one bit each,
/// eight to a byte.
pub open spec fn bitmap_bytes(slots: int) -> int {
    units_for(slots)
}

/// Whether the bitmap `bytes` describes at least `slots` slots.
pub open spec fn covers(bytes: Seq<u8>, slots: int) -> bool {
    bitmap_bytes(slots) <= bytes.len()
}

/// Computes the number of bytes a bitmap needs to describe `slots` slots.
pub fn bytes_for(slots: u64) -> (bytes: u64)
    ensures
        bytes == bitmap_bytes(slots as int),
{
    if slots == 0 {
        0
    } else {
        1 + (slots - 1) / 8
    }
}

/// Masking a byte with `1 << k` tests the same bit as shifting it right by
/// `k` and looking at the lowest bit.
pub proof fn lemma_mask_is_shift(byte: u8, k: u8)
    requires
        k < 8,
    ensures
        (byte & (1u8 << k) != 0) == byte_bit(byte, k),
{
    assert((byte & (1u8 << k) != 0) == ((byte >> k) & 1 == 1)) by (bit_vector)
        requires
            k < 8,
    ;
}

/// Reads bit `k` of `byte`.
pub fn test_byte_bit(byte: u8, k: u8) -> (set: bool)
    requires
        k < 8,
    ensures
        set == byte_bit(byte, k),
{
    proof {
        lemma_mask_is_shift(byte, k);
    }
    byte & (1u8 << k) != 0
}

/// Reads the bit that describes slot `i`.
pub fn test_bit(bytes: &Vec<u8>, i: u64) -> (set: bool)
    requires
        i / 8 < bytes.len(),
    ensures
        set == bit_at(bytes@, i as int),
{
    test_byte_bit(bytes[(i / 8) as usize], (i % 8) as u8)
}

} // verus!
