//! The allocator: sizes a request, collects first when the space in use has
//! reached the threshold, obtains zero-filled storage, threads the new
//! object onto the object list and writes its header.

use crate::heap::zeros;
use crate::layout::{calculate_size, lemma_units_cover, object_bytes, object_units};
use crate::memory::Memory;
use crate::model::accounting::{lemma_total_units_frame, lemma_total_units_push_front};
use crate::model::collecting::{collected, lemma_collected_space};
use crate::model::{block_wf, successor, State};
use crate::object::{
    InitParam, Object, ARRAY_HEADER_WORDS, LEN_WORD, MARK_WORD, NEXT_WORD, NULL,
    OBJECT_HEADER_WORDS, PROTOTYPE_WORD,
};
use crate::roots::roots;
use crate::runtime::collector::{collectable, perform_mark_and_sweep_gc};
use crate::runtime::{Runtime, INITIAL_THRESHOLD};
use vstd::prelude::*;

verus! {

/// The threshold that a collection sets when it leaves `space` units in
/// use: twice the space, but no less than the initial threshold.
pub open spec fn next_threshold(space: int) -> int {
    if 2 * space > INITIAL_THRESHOLD {
        2 * space
    } else {
        INITIAL_THRESHOLD as int
    }
}

/// The storage of a new instance of prototype `p`, whose size is `size`:
/// zero but for the header, which names the prototype, links to `next`
/// and, in an array, records `len`.
pub open spec fn fresh_object(p: u64, size: int, len: u64, next: u64) -> Seq<u64> {
    let header = zeros(object_units(size, len as int)).update(PROTOTYPE_WORD as int, p).update(
        NEXT_WORD as int,
        next,
    );
    if size < 0 {
        header.update(LEN_WORD as int, len)
    } else {
        header
    }
}

/// The space that a collection of `s` leaves in use.
pub open spec fn collected_space(s: State, mem: Memory, frame_base: int, stack_top: int) -> int {
    collected(s, roots(mem, s.descriptor->0, frame_base, stack_top)).allocated as int
}

/// The state in which an allocation takes place: the state `s` as it is
/// or, when the space in use has reached the threshold, what a collection
/// makes of it, with the threshold set anew.
pub open spec fn prepared(s: State, mem: Memory, frame_base: int, stack_top: int) -> State {
    if s.allocated >= s.threshold {
        let after = collected(s, roots(mem, s.descriptor->0, frame_base, stack_top));
        State { threshold: next_threshold(after.allocated as int) as usize, ..after }
    } else {
        s
    }
}

/// The state `s` with a new instance of prototype `p` at `pointer`, put in
/// front of the object list.
pub open spec fn with_object(s: State, pointer: u64, p: u64, len: u64) -> State {
    let size = s.prototypes[p as int].size as int;
    State {
        objects: s.objects.insert(pointer, fresh_object(p, size, len, s.head)),
        order: seq![pointer] + s.order,
        head: pointer,
        allocated: (s.allocated + object_units(size, len as int)) as usize,
        ..s
    }
}

/// A new object at a fresh reference keeps the state well formed.
pub proof fn lemma_with_object_wf(s: State, pointer: u64, p: u64, len: u64)
    requires
        s.wf(),
        pointer != NULL,
        !s.is_object(pointer),
        p < s.prototypes.len(),
        object_bytes(s.prototypes[p as int].size as int, len as int) <= usize::MAX,
        s.allocated + object_units(s.prototypes[p as int].size as int, len as int)
            <= usize::MAX,
    ensures
        with_object(s, pointer, p, len).wf(),
{
    let t = with_object(s, pointer, p, len);
    let size = s.prototypes[p as int].size as int;
    let words = fresh_object(p, size, len, s.head);
    lemma_units_cover(object_bytes(size, len as int));
    assert(words.len() == object_units(size, len as int));
    assert(words.len() >= OBJECT_HEADER_WORDS);
    assert(size < 0 ==> words.len() >= ARRAY_HEADER_WORDS) by {
        if size < 0 {
            assert((-size) * len >= 0) by (nonlinear_arith)
                requires
                    size < 0,
                    len >= 0,
            ;
        }
    }
    assert(t.order.no_duplicates()) by {
        assert forall|a: int, b: int| 0 <= a < t.order.len() && 0 <= b < t.order.len() && a
            != b implies t.order[a] != t.order[b] by {
            if a > 0 {
                assert(s.order.contains(s.order[a - 1]));
            }
            if b > 0 {
                assert(s.order.contains(s.order[b - 1]));
            }
        }
    }
    assert forall|r: u64| t.is_object(r) <==> t.order.contains(r) by {
        if t.is_object(r) {
            if r == pointer {
                assert(t.order[0] == r);
            } else {
                assert(s.order.contains(r));
                let k = choose|k: int| 0 <= k < s.order.len() && s.order[k] == r;
                assert(t.order[k + 1] == r);
            }
        }
        if t.order.contains(r) {
            let k = choose|k: int| 0 <= k < t.order.len() && t.order[k] == r;
            if k > 0 {
                assert(s.order[k - 1] == r);
                assert(s.order.contains(r));
            }
        }
    }
    assert forall|k: int| 0 <= k < t.order.len() implies t.header(t.order[k]).gc_next
        == #[trigger] successor(t.order, k) by {
        if k == 0 {
            if s.order.len() > 0 {
                assert(t.order[1] == s.order[0]);
            }
        } else {
            assert(t.order[k] == s.order[k - 1]);
            assert(s.order.contains(s.order[k - 1]));
            assert(s.header(s.order[k - 1]).gc_next == successor(s.order, k - 1));
            if k + 1 < t.order.len() {
                assert(t.order[k + 1] == s.order[k]);
            }
        }
    }
    assert forall|r: u64| #[trigger] t.is_object(r) implies t.objects[r].len()
        >= OBJECT_HEADER_WORDS && t.header(r).prototype < t.prototypes.len() && block_wf(
        t.prototype_of(r),
        t.objects[r],
    ) && t.header(r).gc_is_marked == 0 by {
        if r != pointer {
            assert(s.is_object(r));
        }
    }
    lemma_total_units_push_front(t.objects, s.order, pointer);
    assert forall|i: int| 0 <= i < s.order.len() implies (#[trigger] t.objects[s.order[i]]).len()
        == s.objects[s.order[i]].len() by {
        assert(s.order.contains(s.order[i]));
    }
    lemma_total_units_frame(s.objects, t.objects, s.order);
}

/// A runtime that has room for an object has what an allocation needs of
/// the machine's integers, whether it collects first or not.
pub proof fn lemma_room_suffices(
    s: State,
    mem: Memory,
    frame_base: int,
    stack_top: int,
    p: u64,
    len: u64,
)
    requires
        s.wf(),
        2 * (s.allocated + object_units(s.prototypes[p as int].size as int, len as int))
            <= usize::MAX,
    ensures
        prepared(s, mem, frame_base, stack_top).allocated + object_units(
            s.prototypes[p as int].size as int,
            len as int,
        ) <= usize::MAX,
        s.allocated >= s.threshold ==> next_threshold(
            collected_space(s, mem, frame_base, stack_top),
        ) <= usize::MAX,
{
    lemma_collected_space(s, roots(mem, s.descriptor->0, frame_base, stack_top));
    lemma_units_cover(object_bytes(s.prototypes[p as int].size as int, len as int));
    if s.prototypes[p as int].size < 0 {
        let size = s.prototypes[p as int].size as int;
        assert((-size) * len >= 0) by (nonlinear_arith)
            requires
                size < 0,
                len >= 0,
        ;
    }
}

/// Installs the initialisation descriptor. It has to be in place before the
/// first collection.
pub fn init(rt: &mut Runtime, init_param: InitParam)
    requires
        old(rt).wf(),
    ensures
        final(rt).wf(),
        final(rt)@ == (State { descriptor: Some(init_param), ..old(rt)@ }),
{
    rt.init_param = Some(init_param);
}

/// Allocates an instance of `prototype`, with `len` elements if it is an
/// array, and returns the reference to it. When the space in use has
/// reached the threshold, a full collection runs first, with `rbp` as the
/// base of the current frame and `rsp` as the top of the stack, and the
/// threshold becomes twice the space that is left in use, or the initial
/// threshold if that is more. The new object is zero-filled but for its
/// header and becomes the head of the object list.
pub fn alloc_obj(
    rt: &mut Runtime,
    memory: &Memory,
    prototype: u64,
    len: u64,
    rbp: u64,
    rsp: u64,
) -> (pointer: u64)
    requires
        old(rt).wf(),
        prototype < old(rt)@.prototypes.len(),
        old(rt)@.allocated >= old(rt)@.threshold ==> collectable(
            old(rt)@,
            *memory,
            rbp as int,
            rsp as int,
        ),
        object_bytes(old(rt)@.prototypes[prototype as int].size as int, len as int)
            <= usize::MAX,
        prepared(old(rt)@, *memory, rbp as int, rsp as int).allocated + object_units(
            old(rt)@.prototypes[prototype as int].size as int,
            len as int,
        ) <= usize::MAX,
        old(rt)@.allocated >= old(rt)@.threshold ==> next_threshold(
            collected_space(old(rt)@, *memory, rbp as int, rsp as int),
        ) <= usize::MAX,
    ensures
        final(rt).wf(),
        pointer != NULL,
        !prepared(old(rt)@, *memory, rbp as int, rsp as int).is_object(pointer),
        final(rt)@ == with_object(
            prepared(old(rt)@, *memory, rbp as int, rsp as int),
            pointer,
            prototype,
            len,
        ),
        final(rt)@.header(pointer) == (Object {
            prototype,
            gc_is_marked: 0,
            gc_next: prepared(old(rt)@, *memory, rbp as int, rsp as int).head,
        }),
        old(rt)@.prototypes[prototype as int].size < 0 ==> final(rt)@.array_header(pointer).len
            == len,
        final(rt)@.threshold == if old(rt)@.allocated >= old(rt)@.threshold {
            next_threshold(collected_space(old(rt)@, *memory, rbp as int, rsp as int)) as usize
        } else {
            old(rt)@.threshold
        },
{
    if rt.current_space >= rt.threshold_space {
        perform_mark_and_sweep_gc(rt, memory, rbp, rsp);
        let current = rt.current_space;
        let threshold = if current * 2 > INITIAL_THRESHOLD {
            current * 2
        } else {
            INITIAL_THRESHOLD
        };
        rt.threshold_space = threshold;
    }
    let ghost before = rt@;
    assert(before == prepared(old(rt)@, *memory, rbp as int, rsp as int));
    assert(rt.prototypes.len() == rt.prototypes@.len());
    let proto_size = rt.prototypes[prototype as usize].size;
    let size = calculate_size(proto_size, len);
    let pointer = rt.heap.allocate(size);
    rt.current_space = rt.current_space + size;
    let gc_next = rt.gc_head;
    rt.gc_head = pointer;
    proof {
        lemma_units_cover(object_bytes(proto_size as int, len as int));
        if proto_size < 0 {
            assert((-proto_size) * len >= 0) by (nonlinear_arith)
                requires
                    proto_size < 0,
                    len >= 0,
            ;
        }
    }
    rt.heap.store(pointer, PROTOTYPE_WORD, prototype);
    rt.heap.store(pointer, MARK_WORD, 0);
    rt.heap.store(pointer, NEXT_WORD, gc_next);
    if proto_size < 0 {
        rt.heap.store(pointer, LEN_WORD, len);
    }
    proof {
        rt.order@ = seq![pointer] + rt.order@;
        let goal = with_object(before, pointer, prototype, len);
        assert(rt@.objects[pointer] =~= goal.objects[pointer]);
        assert(rt@.objects =~= goal.objects);
        assert(rt@ == goal);
        lemma_with_object_wf(before, pointer, prototype, len);
    }
    pointer
}

} // verus!
