//! What holds of the runtime as a whole, stated over the mathematical state
//! and proved from the definitions that the contracts use.

use crate::bitmap::{bit_at, lemma_mask_is_shift};
use crate::graph::{
    edge, lemma_reachable_is_object, lemma_reachable_step, lemma_reachable_subgraph,
    lemma_root_reachable, reachable,
};
use crate::layout::object_units;
use crate::memory::Memory;
use crate::model::collecting::{
    collected, lemma_collected_space, lemma_traced_exact, reached_in, roots_valid,
};
use crate::model::marking::{
    lemma_marks_set_keeps_shape, lemma_newly_marked, lemma_unmarked_graph_shrinks, traced,
};
use crate::model::{
    lemma_reference_slots_in_bounds, stored_len, successor, total_units, State,
};
use crate::object::{Object, NEXT_WORD, NULL, OBJECT_HEADER_WORDS};
use crate::runtime::allocator::{
    collected_space, lemma_with_object_wf, next_threshold, prepared, with_object,
};
use crate::runtime::INITIAL_THRESHOLD;
use vstd::prelude::*;

verus! {

/// Size in allocation units of object `r`, computed from its prototype and,
/// for an array, from the length in its header.
pub open spec fn size_of_object(s: State, r: u64) -> int {
    object_units(s.prototype_of(r).size as int, stored_len(s.prototype_of(r), s.objects[r]))
}

/// Sum of the computed sizes of the objects listed in `order`.
pub open spec fn total_size(s: State, order: Seq<u64>) -> int
    decreases order.len(),
{
    if order.len() == 0 {
        0
    } else {
        size_of_object(s, order[0]) + total_size(s, order.skip(1))
    }
}

/// The computed sizes of well-formed objects are the sizes of their
/// storage.
proof fn lemma_total_size_is_total_units(s: State, order: Seq<u64>)
    requires
        s.blocks_wf(),
        forall|i: int| 0 <= i < order.len() ==> s.is_object(#[trigger] order[i]),
    ensures
        total_size(s, order) == total_units(s.objects, order),
    decreases order.len(),
{
    if order.len() > 0 {
        let rest = order.skip(1);
        assert forall|i: int| 0 <= i < rest.len() implies s.is_object(#[trigger] rest[i]) by {
            assert(rest[i] == order[i + 1]);
        }
        lemma_total_size_is_total_units(s, rest);
        assert(s.is_object(order[0]));
    }
}

/// A new object is well formed: its reference is not null, it is unmarked,
/// its header names the prototype that was asked for and, in an array, the
/// length that was asked for; nothing in it is a reference yet.
pub proof fn lemma_new_object_is_well_formed(s: State, pointer: u64, p: u64, len: u64)
    requires
        s.wf(),
        pointer != NULL,
        !s.is_object(pointer),
        p < s.prototypes.len(),
        crate::layout::object_bytes(s.prototypes[p as int].size as int, len as int)
            <= usize::MAX,
        s.allocated + object_units(s.prototypes[p as int].size as int, len as int)
            <= usize::MAX,
    ensures
        with_object(s, pointer, p, len).wf(),
        with_object(s, pointer, p, len).is_object(pointer),
        with_object(s, pointer, p, len).header(pointer) == (Object {
            prototype: p,
            gc_is_marked: 0,
            gc_next: s.head,
        }),
        s.prototypes[p as int].size < 0 ==> with_object(s, pointer, p, len).array_header(
            pointer,
        ).len == len,
        forall|k: int|
            0 <= k < with_object(s, pointer, p, len).references(pointer).len() ==> (
            #[trigger] with_object(s, pointer, p, len).references(pointer)[k]) == NULL,
        forall|r: u64| s.is_object(r) ==> #[trigger] with_object(s, pointer, p, len).objects[r]
            == s.objects[r],
{
    let t = with_object(s, pointer, p, len);
    lemma_with_object_wf(s, pointer, p, len);
    assert(t.objects.dom().contains(pointer));
    lemma_reference_slots_in_bounds(t.prototype_of(pointer), t.objects[pointer]);
}

/// The object list is intact in every well-formed state: following the
/// links from the head visits every allocated object exactly once and ends
/// at null, and the space in use is the sum of the sizes of the objects,
/// each computed from its prototype and length.
pub proof fn lemma_object_list_integrity(s: State)
    requires
        s.wf_collecting(),
    ensures
        s.order.no_duplicates(),
        s.order.to_set() == s.objects.dom(),
        s.order.len() == 0 ==> s.head == NULL,
        s.order.len() > 0 ==> s.head == s.order[0],
        forall|i: int|
            0 <= i < s.order.len() - 1 ==> (#[trigger] s.header(s.order[i])).gc_next
                == s.order[i + 1],
        s.order.len() > 0 ==> s.header(s.order.last()).gc_next == NULL,
        s.allocated == total_size(s, s.order),
{
    assert(s.order.to_set() =~= s.objects.dom());
    assert forall|i: int| 0 <= i < s.order.len() - 1 implies (#[trigger] s.header(
        s.order[i],
    )).gc_next == s.order[i + 1] by {
        assert(s.header(s.order[i]).gc_next == successor(s.order, i));
    }
    if s.order.len() > 0 {
        assert(s.header(s.order.last()).gc_next == successor(s.order, s.order.len() - 1));
    }
    assert forall|i: int| 0 <= i < s.order.len() implies s.is_object(#[trigger] s.order[i]) by {
        assert(s.order.contains(s.order[i]));
    }
    lemma_total_size_is_total_units(s, s.order);
}

/// A collection is precise. Every object that a root reaches remains, with
/// everything in it but its link as it was; every other object is gone;
/// nothing new appears; the survivors keep their order.
pub proof fn lemma_collection_is_precise(s: State, roots: Set<u64>)
    requires
        s.wf(),
    ensures
        forall|r: u64|
            s.is_object(r) && reachable(s.graph(), roots, r) ==> #[trigger] collected(
                s,
                roots,
            ).is_object(r),
        forall|r: u64|
            s.is_object(r) && !reachable(s.graph(), roots, r) ==> !(#[trigger] collected(
                s,
                roots,
            ).is_object(r)),
        forall|r: u64| #[trigger] collected(s, roots).is_object(r) ==> s.is_object(r),
        forall|r: u64, k: int|
            collected(s, roots).is_object(r) && 0 <= k < s.objects[r].len() && k != NEXT_WORD
                ==> (#[trigger] collected(s, roots).objects[r][k]) == s.objects[r][k],
        collected(s, roots).order == s.order.filter(reached_in(s, roots)),
        collected(s, roots).allocated == total_units(
            collected(s, roots).objects,
            collected(s, roots).order,
        ),
        collected(s, roots).allocated <= s.allocated,
        collected(s, roots).prototypes == s.prototypes,
        collected(s, roots).threshold == s.threshold,
        collected(s, roots).descriptor == s.descriptor,
{
    let c = collected(s, roots);
    lemma_collected_space(s, roots);
    assert forall|r: u64, k: int|
        c.is_object(r) && 0 <= k < s.objects[r].len() && k != NEXT_WORD implies (
    #[trigger] c.objects[r][k]) == s.objects[r][k] by {
        assert(s.objects[r].len() >= OBJECT_HEADER_WORDS);
    }
}

/// Marking is idempotent: tracing once more from roots that have just
/// been traced from changes nothing.
pub proof fn lemma_tracing_again_changes_nothing(a: State, b: State, c: State, roots: Set<u64>)
    requires
        a.wf_collecting(),
        traced(a, b, roots),
        traced(b, c, roots),
    ensures
        c == b,
{
    lemma_marks_set_keeps_shape(a, b);
    lemma_unmarked_graph_shrinks(a, b);
    assert forall|r: u64| b.objects.dom().contains(r) implies #[trigger] c.objects[r]
        == b.objects[r] by {
        assert(a.objects.dom().contains(r));
        if reachable(b.unmarked_graph(), roots, r) {
            lemma_reachable_is_object(b.unmarked_graph(), roots, r);
            lemma_reachable_subgraph(b.unmarked_graph(), a.unmarked_graph(), roots, r);
        }
    }
    assert(c.objects =~= b.objects);
}

/// Tracing never visits an object twice: it changes only objects that were
/// unmarked, and what it does to each is to set its mark.
pub proof fn lemma_tracing_marks_each_object_once(before: State, after: State, roots: Set<u64>)
    requires
        before.wf_collecting(),
        traced(before, after, roots),
    ensures
        forall|r: u64| #[trigger]
            before.is_object(r) && before.is_marked(r) ==> after.objects[r]
                == before.objects[r],
        forall|r: u64| #[trigger]
            before.is_object(r) && after.objects[r] != before.objects[r] ==> !before.is_marked(r)
                && after.is_marked(r) && reachable(before.unmarked_graph(), roots, r),
{
    lemma_marks_set_keeps_shape(before, after);
    assert forall|r: u64| #[trigger]
        before.is_object(r) && after.objects[r] != before.objects[r] implies !before.is_marked(
        r,
    ) && after.is_marked(r) && reachable(before.unmarked_graph(), roots, r) by {
        lemma_newly_marked(before.objects[r], after.objects[r]);
    }
}

/// Tracing from the roots in a heap without marks, as a collection does,
/// marks exactly the objects that the roots reach.
pub proof fn lemma_tracing_marks_what_roots_reach(start: State, after: State, roots: Set<u64>)
    requires
        start.wf(),
        traced(start, after, roots),
    ensures
        forall|r: u64| #[trigger]
            start.is_object(r) ==> (after.is_marked(r) <==> reachable(start.graph(), roots, r)),
{
    lemma_traced_exact(start, after, roots);
}

/// Storing null or a reference to an allocated object keeps every
/// reference valid.
pub proof fn lemma_store_keeps_references_valid(s: State, r: u64, i: int, value: u64)
    requires
        s.wf_collecting(),
        s.references_valid(),
        s.is_object(r),
        0 <= i < s.slot_count(r),
        value == NULL || s.is_object(value),
    ensures
        s.with_slot(r, i, value).references_valid(),
{
    let t = s.with_slot(r, i, value);
    let g = s.graph();
    let h = t.graph();
    assert(t.objects.dom() =~= s.objects.dom());
    assert forall|a: u64, k: int| h.dom().contains(a) && 0 <= k < h[a].len() implies (
    #[trigger] h[a][k]) == 0 || h.dom().contains(h[a][k]) by {
        assert(s.is_object(a));
        assert(g[a].len() == h[a].len());
        if a != r || h[a][k] != value {
            lemma_reference_slots_in_bounds(s.prototype_of(a), s.objects[a]);
            assert(h[a][k] == g[a][k]);
        }
    }
}

/// A new object holds no reference, so allocating keeps every reference
/// valid.
pub proof fn lemma_allocation_keeps_references_valid(s: State, pointer: u64, p: u64, len: u64)
    requires
        s.wf(),
        s.references_valid(),
        pointer != NULL,
        !s.is_object(pointer),
        p < s.prototypes.len(),
        crate::layout::object_bytes(s.prototypes[p as int].size as int, len as int)
            <= usize::MAX,
        s.allocated + object_units(s.prototypes[p as int].size as int, len as int)
            <= usize::MAX,
    ensures
        with_object(s, pointer, p, len).references_valid(),
{
    let t = with_object(s, pointer, p, len);
    let g = s.graph();
    let h = t.graph();
    lemma_new_object_is_well_formed(s, pointer, p, len);
    assert forall|a: u64, k: int| h.dom().contains(a) && 0 <= k < h[a].len() implies (
    #[trigger] h[a][k]) == 0 || h.dom().contains(h[a][k]) by {
        if a != pointer {
            assert(s.is_object(a));
            assert(t.objects[a] == s.objects[a]);
            assert(h[a] == g[a]);
            assert(g[a][k] == 0 || g.dom().contains(g[a][k]));
        } else {
            assert(t.references(pointer)[k] == NULL);
        }
    }
}

/// A collection keeps every reference valid: what a survivor refers to has
/// survived, and so has every object that a root refers to.
pub proof fn lemma_collection_keeps_references_valid(s: State, roots: Set<u64>)
    requires
        s.wf(),
        s.references_valid(),
    ensures
        collected(s, roots).references_valid(),
        roots_valid(s, roots) ==> roots_valid(collected(s, roots), roots),
        forall|r: u64| #[trigger]
            collected(s, roots).is_object(r) ==> collected(s, roots).references(r)
                == s.references(r),
{
    let c = collected(s, roots);
    let g = s.graph();
    let h = c.graph();
    assert forall|r: u64| #[trigger] c.is_object(r) implies c.references(r) == s.references(
        r,
    ) by {
        assert(s.is_object(r));
        lemma_reference_slots_in_bounds(s.prototype_of(r), s.objects[r]);
        assert(c.references(r) =~= s.references(r));
    }
    assert forall|a: u64, k: int| h.dom().contains(a) && 0 <= k < h[a].len() implies (
    #[trigger] h[a][k]) == 0 || h.dom().contains(h[a][k]) by {
        assert(c.is_object(a));
        let x = g[a][k];
        assert(h[a][k] == x);
        if x != 0 {
            assert(g.dom().contains(x));
            assert(edge(g, a, x));
            lemma_reachable_step(g, roots, a, x);
        }
    }
    if roots_valid(s, roots) {
        assert forall|v: u64| #[trigger] roots.contains(v) implies v == NULL || c.is_object(
            v,
        ) by {
            if v != NULL {
                lemma_root_reachable(g, roots, v);
            }
        }
    }
}

/// The references that an object holds are the words in its reference
/// slots: the graph has an edge for each of them and for nothing else.
pub proof fn lemma_references_are_reference_slots(s: State, r: u64)
    requires
        s.wf_collecting(),
        s.is_object(r),
    ensures
        forall|i: int|
            s.is_reference_slot(r, i) ==> 0 <= i < s.references(r).len() && i < s.slot_count(r)
                && (#[trigger] s.references(r)[i]) == s.slot(r, i),
        forall|i: int|
            0 <= i < s.references(r).len() && !s.is_reference_slot(r, i) ==> (
            #[trigger] s.references(r)[i]) == NULL,
{
    lemma_reference_slots_in_bounds(s.prototype_of(r), s.objects[r]);
}

/// After a collection the threshold is the larger of the initial
/// threshold and twice the space in use.
pub proof fn lemma_threshold_law(s: State, mem: Memory, frame_base: int, stack_top: int)
    requires
        s.allocated >= s.threshold,
        next_threshold(collected_space(s, mem, frame_base, stack_top)) <= usize::MAX,
    ensures
        prepared(s, mem, frame_base, stack_top).allocated == collected_space(
            s,
            mem,
            frame_base,
            stack_top,
        ),
        prepared(s, mem, frame_base, stack_top).threshold == if 2 * prepared(
            s,
            mem,
            frame_base,
            stack_top,
        ).allocated > INITIAL_THRESHOLD {
            2 * prepared(s, mem, frame_base, stack_top).allocated
        } else {
            INITIAL_THRESHOLD as int
        },
{
}

/// Slot `i` counts as a reference exactly when bit `i % 8` of byte `i / 8`
/// of the bitmap is set, whichever way the bit is tested.
pub proof fn lemma_bitmap_round_trip(bytes: Seq<u8>, i: int)
    requires
        0 <= i,
        i / 8 < bytes.len(),
    ensures
        bit_at(bytes, i) == ((bytes[i / 8] >> ((i % 8) as u8)) & 1 == 1),
        bit_at(bytes, i) == (bytes[i / 8] & (1u8 << ((i % 8) as u8)) != 0),
{
    lemma_mask_is_shift(bytes[i / 8], (i % 8) as u8);
}

} // verus!
