//! Sizes of objects in allocation units.

use vstd::prelude::*;

verus! {

/// Bytes in one allocation unit.
pub const ALLOC_UNIT_SIZE: usize = 8;

/// Byte size of an object header.
pub const OBJECT_HEADER_SIZE: usize = 24;

/// Byte size of an array object header.
pub const ARRAY_HEADER_SIZE: usize = 32;

/// Allocation units needed to hold `value` bytes: `value` divided by
/// eight, rounded up.
pub open spec fn units_for(value: int) -> int {
    if value <= 0 {
        0
    } else {
        1 + (value - 1) / (ALLOC_UNIT_SIZE as int)
    }
}

/// Byte size of an object whose prototype has size `size` and which, if it
/// is an array, has `len` elements.
pub open spec fn object_bytes(size: int, len: int) -> int {
    if size >= 0 {
        OBJECT_HEADER_SIZE + size
    } else {
        ARRAY_HEADER_SIZE + (-size) * len
    }
}

/// Allocation units taken by an object whose prototype has size `size` and
/// which, if it is an array, has `len` elements.
pub open spec fn object_units(size: int, len: int) -> int {
    units_for(object_bytes(size, len))
}

/// `units_for(value)` is the least number of units that cover `value` bytes.
pub proof fn lemma_units_cover(value: int)
    requires
        value >= 0,
    ensures
        8 * units_for(value) >= value,
        8 * units_for(value) < value + 8,
        units_for(value) >= 0,
{
}

/// Rounds a byte count up to whole allocation units.
pub fn divide_up(value: usize) -> (units: usize)
    ensures
        units == units_for(value as int),
{
    if value == 0 {
        0
    } else {
        1 + (value - 1) / ALLOC_UNIT_SIZE
    }
}

/// Size in allocation units of an object with a prototype of size `size`.
/// `len` is the element count and is looked at for arrays only.
pub fn calculate_size(size: i32, len: u64) -> (units: usize)
    requires
        object_bytes(size as int, len as int) <= usize::MAX,
    ensures
        units == object_units(size as int, len as int),
{
    if size >= 0 {
        divide_up(OBJECT_HEADER_SIZE + size as usize)
    } else {
        let stride: u64 = (-(size as i64)) as u64;
        assert(stride * len <= usize::MAX) by (nonlinear_arith)
            requires
                ARRAY_HEADER_SIZE + stride * len <= usize::MAX,
        ;
        divide_up(ARRAY_HEADER_SIZE + (stride * len) as usize)
    }
}

} // verus!
