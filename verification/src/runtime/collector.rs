//! The collector: traces from every root on the stack and in the globals,
//! then sweeps.

use crate::bitmap::{test_bit, test_byte_bit};
use crate::graph::reachable;
use crate::memory::{frame_slot, read_i32_le, slot_address, Memory};
use crate::model::collecting::{
    collected, lemma_collected_space, lemma_swept_is_collected, roots_valid,
};
use crate::model::marking::{
    lemma_marks_set_keeps_shape, lemma_traced_nothing, lemma_traced_then, traced,
};
use crate::model::State;
use crate::roots::{
    frame_readable, frame_roots, frame_roots_below, get_reference_bitmap_from_rip,
    global_describes, global_roots, global_roots_below, globals_readable, map_describes, map_max,
    map_min, reference_map_address, roots, stack_depth, stack_roots, stack_walkable, walk_roots,
    walkable, MAP_BITS_OFFSET,
};
use crate::runtime::sweeper::sweep;
use crate::runtime::tracer::mark_reachable_from;
use crate::runtime::Runtime;
use vstd::prelude::*;

verus! {

/// What a collection relies on: the descriptor is installed, the stack can
/// be walked, the globals can be read, and every root slot and every
/// reference slot of an object holds null or a reference to an allocated
/// object.
pub open spec fn collectable(s: State, mem: Memory, frame_base: int, stack_top: int) -> bool {
    &&& s.descriptor is Some
    &&& stack_walkable(mem, s.descriptor->0.bottom_frame as int, frame_base, stack_top)
    &&& globals_readable(mem, s.descriptor->0)
    &&& roots_valid(s, roots(mem, s.descriptor->0, frame_base, stack_top))
    &&& s.references_valid()
}

/// Traces from every reference slot of one frame.
fn mark_frame_roots(rt: &mut Runtime, memory: &Memory, frame: u64, ra: u64)
    requires
        old(rt).wf_collecting(),
        old(rt)@.references_valid(),
        frame_readable(*memory, frame as int, ra as int),
        roots_valid(old(rt)@, frame_roots(*memory, frame as int, ra as int)),
    ensures
        final(rt).wf_collecting(),
        traced(old(rt)@, final(rt)@, frame_roots(*memory, frame as int, ra as int)),
{
    let ghost start = rt@;
    let ghost mem = *memory;
    let ref_map = get_reference_bitmap_from_rip(&memory.code, ra);
    let min_index = read_i32_le(&memory.code, ref_map);
    let max_index = read_i32_le(&memory.code, ref_map + 4);
    let mut index: i64 = min_index as i64;
    proof {
        lemma_traced_nothing(start, Set::<u64>::empty());
        assert(frame_roots_below(mem, frame as int, ra as int, index as int) =~= Set::<
            u64,
        >::empty());
    }
    while index <= max_index as i64
        invariant
            min_index <= index,
            index == min_index || index <= max_index + 1,
            mem == *memory,
            ref_map == reference_map_address(mem.code, ra as int),
            min_index == map_min(mem.code, ref_map as int),
            max_index == map_max(mem.code, ref_map as int),
            frame_readable(mem, frame as int, ra as int),
            roots_valid(start, frame_roots(mem, frame as int, ra as int)),
            start.wf_collecting(),
            start.references_valid(),
            rt.wf_collecting(),
            traced(start, rt@, frame_roots_below(mem, frame as int, ra as int, index as int)),
        decreases max_index - index + 1,
    {
        let ghost mid = rt@;
        let ghost below = frame_roots_below(mem, frame as int, ra as int, index as int);
        let ghost next = frame_roots_below(mem, frame as int, ra as int, index + 1);
        let map_index: u64 = (index - min_index as i64) as u64;
        let byte = memory.code.read(ref_map + MAP_BITS_OFFSET + map_index / 8);
        if test_byte_bit(byte, (map_index % 8) as u8) {
            assert(map_describes(mem.code, ref_map as int, index as int));
            let slot = frame_slot(frame, index as i32);
            let value = memory.stack.load(slot);
            proof {
                assert(frame_roots(mem, frame as int, ra as int).contains(value));
                lemma_marks_set_keeps_shape(start, mid);
            }
            mark_reachable_from(rt, value);
            proof {
                lemma_traced_then(start, mid, rt@, below, set![value]);
                assert(next =~= below + set![value]);
            }
        } else {
            assert(next =~= below);
        }
        index += 1;
    }
    proof {
        assert(frame_roots_below(mem, frame as int, ra as int, index as int) =~= frame_roots(
            mem,
            frame as int,
            ra as int,
        ));
    }
}

/// Every root of a frame on the stack is a root of the stack.
proof fn lemma_walk_roots_hold_frame(mem: Memory, bottom: int, frame: int, ra: int, depth: nat)
    ensures
        frame_roots(mem, frame, ra).subset_of(walk_roots(mem, bottom, frame, ra, depth)),
{
}

/// Traces from every reference slot of every frame, from the current one
/// to the bottom frame.
fn mark_stack_roots(
    rt: &mut Runtime,
    memory: &Memory,
    bottom: u64,
    frame_base: u64,
    stack_top: u64,
)
    requires
        old(rt).wf_collecting(),
        old(rt)@.references_valid(),
        stack_walkable(*memory, bottom as int, frame_base as int, stack_top as int),
        roots_valid(
            old(rt)@,
            stack_roots(*memory, bottom as int, frame_base as int, stack_top as int),
        ),
    ensures
        final(rt).wf_collecting(),
        traced(
            old(rt)@,
            final(rt)@,
            stack_roots(*memory, bottom as int, frame_base as int, stack_top as int),
        ),
{
    let ghost start = rt@;
    let ghost mem = *memory;
    let ghost all = stack_roots(mem, bottom as int, frame_base as int, stack_top as int);
    let mut return_address = memory.stack.load(stack_top - 8);
    let mut current_frame = frame_base;
    let ghost mut remaining = stack_depth(mem, bottom as int, frame_base as int, stack_top as int);
    let ghost mut done = Set::<u64>::empty();
    proof {
        lemma_traced_nothing(start, Set::<u64>::empty());
        assert(all =~= done + all);
    }
    loop
        invariant_except_break
            walkable(mem, bottom as int, current_frame as int, return_address as int, remaining),
            all == done + walk_roots(
                mem,
                bottom as int,
                current_frame as int,
                return_address as int,
                remaining,
            ),
            traced(start, rt@, done),
        invariant
            mem == *memory,
            roots_valid(start, all),
            start.wf_collecting(),
            start.references_valid(),
            rt.wf_collecting(),
        ensures
            traced(start, rt@, all),
        decreases remaining,
    {
        let ghost mid = rt@;
        let ghost here = frame_roots(mem, current_frame as int, return_address as int);
        proof {
            lemma_marks_set_keeps_shape(start, mid);
            lemma_walk_roots_hold_frame(
                mem,
                bottom as int,
                current_frame as int,
                return_address as int,
                remaining,
            );
            assert forall|v: u64| #[trigger] here.contains(v) implies v == 0 || mid.is_object(
                v,
            ) by {
                assert(all.contains(v));
            }
        }
        mark_frame_roots(rt, memory, current_frame, return_address);
        proof {
            lemma_traced_then(start, mid, rt@, done, here);
        }
        if current_frame == bottom {
            proof {
                assert(all =~= done + here);
            }
            break ;
        }
        proof {
            let above = walk_roots(
                mem,
                bottom as int,
                mem.stack.word_at(current_frame as int) as int,
                mem.stack.word_at(current_frame + 8) as int,
                (remaining - 1) as nat,
            );
            assert(all =~= (done + here) + above);
            done = done + here;
            remaining = (remaining - 1) as nat;
        }
        return_address = memory.stack.load(current_frame + 8);
        current_frame = memory.stack.load(current_frame);
    }
}

/// Traces from every global slot that holds a reference.
fn mark_global_roots(rt: &mut Runtime, memory: &Memory)
    requires
        old(rt).wf_collecting(),
        old(rt)@.references_valid(),
        old(rt)@.descriptor is Some,
        globals_readable(*memory, old(rt)@.descriptor->0),
        roots_valid(old(rt)@, global_roots(*memory, old(rt)@.descriptor->0)),
    ensures
        final(rt).wf_collecting(),
        traced(old(rt)@, final(rt)@, global_roots(*memory, old(rt)@.descriptor->0)),
{
    let ghost start = rt@;
    let ghost mem = *memory;
    let ghost d = start.descriptor->0;
    let (global_section, global_size) = match &rt.init_param {
        Some(init_param) => (init_param.global_section, init_param.global_size),
        None => (0, 0),
    };
    let count = global_size / 8;
    let mut index: u64 = 0;
    proof {
        lemma_traced_nothing(start, Set::<u64>::empty());
        assert(global_roots_below(mem, d, 0) =~= Set::<u64>::empty());
    }
    while index < count
        invariant
            index <= count,
            count == d.global_size / 8,
            global_section == d.global_section,
            mem == *memory,
            start.descriptor == Some(d),
            rt@.descriptor == Some(d),
            globals_readable(mem, d),
            roots_valid(start, global_roots(mem, d)),
            start.wf_collecting(),
            start.references_valid(),
            rt.wf_collecting(),
            traced(start, rt@, global_roots_below(mem, d, index as int)),
        decreases count - index,
    {
        let ghost mid = rt@;
        let ghost below = global_roots_below(mem, d, index as int);
        let ghost next = global_roots_below(mem, d, index + 1);
        let flag = match &rt.init_param {
            Some(init_param) => {
                assert(init_param.global_map.len() == init_param.global_map@.len());
                test_bit(&init_param.global_map, index)
            },
            None => false,
        };
        if flag {
            assert(global_describes(d, index as int));
            assert(mem.globals.contains(slot_address(global_section as int, index as int)));
            let value = memory.globals.load(global_section + 8 * index);
            proof {
                assert(global_roots(mem, d).contains(value));
                lemma_marks_set_keeps_shape(start, mid);
            }
            mark_reachable_from(rt, value);
            proof {
                lemma_traced_then(start, mid, rt@, below, set![value]);
                assert(next =~= below + set![value]);
            }
        } else {
            assert(next =~= below);
        }
        index += 1;
    }
    proof {
        assert(global_roots_below(mem, d, index as int) =~= global_roots(mem, d));
    }
}

/// Runs a full collection: marks every object that a root on the stack or
/// in the globals reaches, then releases every other object and clears the
/// marks. `stack_frame_base` is the base of the current frame; the word
/// just below `stack_pointer` is the return address of the suspended call.
pub fn perform_mark_and_sweep_gc(
    rt: &mut Runtime,
    memory: &Memory,
    stack_frame_base: u64,
    stack_pointer: u64,
)
    requires
        old(rt).wf(),
        collectable(old(rt)@, *memory, stack_frame_base as int, stack_pointer as int),
    ensures
        final(rt).wf(),
        final(rt)@ == collected(
            old(rt)@,
            roots(
                *memory,
                old(rt)@.descriptor->0,
                stack_frame_base as int,
                stack_pointer as int,
            ),
        ),
        forall|r: u64|
            final(rt)@.is_object(r) <==> old(rt)@.is_object(r) && reachable(
                old(rt)@.graph(),
                roots(
                    *memory,
                    old(rt)@.descriptor->0,
                    stack_frame_base as int,
                    stack_pointer as int,
                ),
                r,
            ),
        final(rt)@.allocated <= old(rt)@.allocated,
{
    let ghost start = rt@;
    let ghost d = start.descriptor->0;
    let ghost on_stack = stack_roots(
        *memory,
        d.bottom_frame as int,
        stack_frame_base as int,
        stack_pointer as int,
    );
    let ghost in_globals = global_roots(*memory, d);
    let bottom = match &rt.init_param {
        Some(init_param) => init_param.bottom_frame,
        None => 0,
    };
    proof {
        assert forall|v: u64| #[trigger] on_stack.contains(v) implies v == 0 || start.is_object(
            v,
        ) by {
            assert((on_stack + in_globals).contains(v));
        }
        assert forall|v: u64| #[trigger] in_globals.contains(v) implies v == 0 || start.is_object(
            v,
        ) by {
            assert((on_stack + in_globals).contains(v));
        }
    }
    mark_stack_roots(rt, memory, bottom, stack_frame_base, stack_pointer);
    let ghost mid = rt@;
    proof {
        lemma_marks_set_keeps_shape(start, mid);
    }
    mark_global_roots(rt, memory);
    proof {
        lemma_traced_then(start, mid, rt@, on_stack, in_globals);
        lemma_swept_is_collected(start, rt@, on_stack + in_globals);
        lemma_collected_space(start, on_stack + in_globals);
    }
    sweep(rt);
}

} // verus!
