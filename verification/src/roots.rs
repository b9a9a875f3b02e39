//! Where the roots are: the frame slots that the reference maps in the
//! code describe, frame by frame from the current one to the bottom frame,
//! and the global slots that the globals bitmap describes.

use crate::bitmap::{bit_at, bitmap_bytes, covers};
use crate::memory::{read_i32_le, slot_address, ByteRegion, Memory};
use crate::object::InitParam;
use vstd::prelude::*;

verus! {

/// Distance from a return address to the operand of the jump that follows
/// the call.
pub const JUMP_OPERAND_OFFSET: u64 = 3;

/// Distance from a return address to the end of the jump that follows the
/// call; the operand counts from there.
pub const JUMP_LENGTH: i64 = 7;

/// Offset of the bitmap in a reference map, after the two indices.
pub const MAP_BITS_OFFSET: u64 = 8;

/// Address of the reference map of the call site that returns to `ra`.
pub open spec fn reference_map_address(code: ByteRegion, ra: int) -> int {
    ra + code.i32_at(ra + JUMP_OPERAND_OFFSET) + JUMP_LENGTH
}

/// The first frame slot that the reference map at `map` describes.
pub open spec fn map_min(code: ByteRegion, map: int) -> int {
    code.i32_at(map)
}

/// The last frame slot that the reference map at `map` describes.
pub open spec fn map_max(code: ByteRegion, map: int) -> int {
    code.i32_at(map + 4)
}

/// Whether the reference map at `map` says that frame slot `index` holds a
/// reference.
pub open spec fn map_describes(code: ByteRegion, map: int, index: int) -> bool {
    &&& map_min(code, map) <= index <= map_max(code, map)
    &&& code.bit_at(map + MAP_BITS_OFFSET, index - map_min(code, map))
}

/// The reference map at `map` lies in the code: its two indices and one bit
/// for each slot from the first to the last.
pub open spec fn map_readable(code: ByteRegion, map: int) -> bool {
    &&& code.contains_range(map, 8)
    &&& code.contains_range(
        map + MAP_BITS_OFFSET,
        bitmap_bytes(map_max(code, map) - map_min(code, map) + 1),
    )
}

/// The frame at `frame`, suspended in a call that returns to `ra`, can be
/// scanned: the reference map of the call site can be read and the slots
/// that it describes lie in the stack.
pub open spec fn frame_readable(mem: Memory, frame: int, ra: int) -> bool {
    &&& mem.code.contains_range(ra + JUMP_OPERAND_OFFSET, 4)
    &&& map_readable(mem.code, reference_map_address(mem.code, ra))
    &&& forall|index: int| #[trigger]
        map_describes(mem.code, reference_map_address(mem.code, ra), index)
            ==> mem.stack.contains(slot_address(frame, index))
}

/// The words in those slots of the frame at `frame` that hold a reference
/// and whose index is below `upto`.
pub open spec fn frame_roots_below(mem: Memory, frame: int, ra: int, upto: int) -> Set<u64> {
    Set::new(
        |v: u64|
            exists|index: int|
                index < upto && #[trigger] map_describes(
                    mem.code,
                    reference_map_address(mem.code, ra),
                    index,
                ) && mem.stack.word_at(slot_address(frame, index)) == v,
    )
}

/// The words in the slots of the frame at `frame` that hold a reference.
pub open spec fn frame_roots(mem: Memory, frame: int, ra: int) -> Set<u64> {
    Set::new(
        |v: u64|
            exists|index: int| #[trigger]
                map_describes(mem.code, reference_map_address(mem.code, ra), index)
                    && mem.stack.word_at(slot_address(frame, index)) == v,
    )
}

/// The frames from the one at `frame` to the one at `bottom` can be
/// scanned, and there are `depth` frames above the first. Every frame but
/// the bottom one holds the address of the frame above it in slot 0 and the
/// return address into that frame in slot 1.
pub open spec fn walkable(mem: Memory, bottom: int, frame: int, ra: int, depth: nat) -> bool
    decreases depth,
{
    &&& frame_readable(mem, frame, ra)
    &&& if frame == bottom {
        depth == 0
    } else {
        &&& depth > 0
        &&& mem.stack.contains(frame)
        &&& mem.stack.contains(frame + 8)
        &&& walkable(
            mem,
            bottom,
            mem.stack.word_at(frame) as int,
            mem.stack.word_at(frame + 8) as int,
            (depth - 1) as nat,
        )
    }
}

/// The words in the reference slots of the frames from the one at `frame`
/// to the one at `bottom`.
pub open spec fn walk_roots(mem: Memory, bottom: int, frame: int, ra: int, depth: nat) -> Set<u64>
    decreases depth,
{
    if frame == bottom || depth == 0 {
        frame_roots(mem, frame, ra)
    } else {
        frame_roots(mem, frame, ra) + walk_roots(
            mem,
            bottom,
            mem.stack.word_at(frame) as int,
            mem.stack.word_at(frame + 8) as int,
            (depth - 1) as nat,
        )
    }
}

/// The stack can be walked from the frame at `frame_base`, whose return
/// address lies just below `stack_top`, to the frame at `bottom`.
pub open spec fn stack_walkable(mem: Memory, bottom: int, frame_base: int, stack_top: int) -> bool {
    &&& mem.stack.contains(stack_top - 8)
    &&& exists|depth: nat| #[trigger]
        walkable(mem, bottom, frame_base, mem.stack.word_at(stack_top - 8) as int, depth)
}

/// Number of frames above the one at `frame_base`, up to the bottom frame.
pub open spec fn stack_depth(mem: Memory, bottom: int, frame_base: int, stack_top: int) -> nat {
    choose|depth: nat| #[trigger]
        walkable(mem, bottom, frame_base, mem.stack.word_at(stack_top - 8) as int, depth)
}

/// The words in the reference slots of every frame on the stack.
pub open spec fn stack_roots(mem: Memory, bottom: int, frame_base: int, stack_top: int) -> Set<
    u64,
> {
    walk_roots(
        mem,
        bottom,
        frame_base,
        mem.stack.word_at(stack_top - 8) as int,
        stack_depth(mem, bottom, frame_base, stack_top),
    )
}

/// Whether the descriptor `d` says that global slot `i` holds a reference.
pub open spec fn global_describes(d: InitParam, i: int) -> bool {
    0 <= i < d.global_size / 8 && bit_at(d.global_map@, i)
}

/// The globals bitmap has a bit for every global slot, and the slots that
/// it describes lie in the globals region.
pub open spec fn globals_readable(mem: Memory, d: InitParam) -> bool {
    &&& covers(d.global_map@, d.global_size as int / 8)
    &&& forall|i: int| #[trigger]
        global_describes(d, i) ==> mem.globals.contains(slot_address(d.global_section as int, i))
}

/// The words in those global slots that hold a reference and whose index is
/// below `upto`.
pub open spec fn global_roots_below(mem: Memory, d: InitParam, upto: int) -> Set<u64> {
    Set::new(
        |v: u64|
            exists|i: int|
                i < upto && #[trigger] global_describes(d, i) && mem.globals.word_at(
                    slot_address(d.global_section as int, i),
                ) == v,
    )
}

/// The words in the global slots that hold a reference.
pub open spec fn global_roots(mem: Memory, d: InitParam) -> Set<u64> {
    Set::new(
        |v: u64|
            exists|i: int| #[trigger]
                global_describes(d, i) && mem.globals.word_at(
                    slot_address(d.global_section as int, i),
                ) == v,
    )
}

/// Every root: the words in the reference slots of the stack and of the
/// globals.
pub open spec fn roots(mem: Memory, d: InitParam, frame_base: int, stack_top: int) -> Set<u64> {
    stack_roots(mem, d.bottom_frame as int, frame_base, stack_top) + global_roots(mem, d)
}

/// Finds the reference map of the call site that returns to `rip`: the
/// 32-bit operand at `rip + 3` counts from `rip + 7`.
pub fn get_reference_bitmap_from_rip(code: &ByteRegion, rip: u64) -> (map: u64)
    requires
        code.contains_range(rip + JUMP_OPERAND_OFFSET, 4),
        0 <= reference_map_address(*code, rip as int) <= u64::MAX,
    ensures
        map == reference_map_address(*code, rip as int),
{
    let offset = read_i32_le(code, rip + JUMP_OPERAND_OFFSET);
    (rip as i128 + offset as i128 + JUMP_LENGTH as i128) as u64
}

} // verus!
