//! What the mark phase does to the state: it sets marks, and which.

use crate::graph::{lemma_reachable_in_two_rounds, reachable, reachable_set, reaches};
use crate::model::accounting::lemma_total_units_frame;
use crate::model::{block_wf, lemma_reference_slots_in_bounds, successor, State};
use crate::object::{with_mark, Object, MARK_WORD, OBJECT_HEADER_WORDS};
use vstd::prelude::*;

verus! {

/// The storage `after` is the storage `before`, which was unmarked, with
/// the mark byte set.
pub open spec fn newly_marked(before: Seq<u64>, after: Seq<u64>) -> bool {
    &&& Object::decode(before).gc_is_marked != 1
    &&& after == before.update(
        MARK_WORD as int,
        with_mark(before[MARK_WORD as int], 1),
    )
}

/// The state `after` is the state `before` with some unmarked objects
/// marked and nothing else changed.
pub open spec fn marks_set(before: State, after: State) -> bool {
    &&& after == (State { objects: after.objects, ..before })
    &&& after.objects.dom() == before.objects.dom()
    &&& forall|r: u64| #[trigger]
        before.objects.dom().contains(r) ==> after.objects[r] == before.objects[r] || newly_marked(
            before.objects[r],
            after.objects[r],
        )
}

/// Every object marked in `before` is marked in `after`.
pub open spec fn marks_grow(before: State, after: State) -> bool {
    forall|r: u64| #[trigger]
        before.objects.dom().contains(r) && before.is_marked(r) ==> after.is_marked(r)
}

/// What tracing from every one of `roots` does to the state: it marks
/// the unmarked objects that the roots reach through unmarked objects, and
/// changes nothing else.
pub open spec fn traced(before: State, after: State, roots: Set<u64>) -> bool {
    &&& marks_set(before, after)
    &&& forall|r: u64| #[trigger]
        before.objects.dom().contains(r) ==> (after.is_marked(r) <==> before.is_marked(r)
            || reachable(before.unmarked_graph(), roots, r))
}

/// Setting the mark byte gives a marked header and changes nothing else.
pub proof fn lemma_newly_marked(before: Seq<u64>, after: Seq<u64>)
    requires
        before.len() >= OBJECT_HEADER_WORDS,
        newly_marked(before, after),
    ensures
        Object::decode(after).gc_is_marked == 1,
        Object::decode(after).prototype == Object::decode(before).prototype,
        Object::decode(after).gc_next == Object::decode(before).gc_next,
        after.len() == before.len(),
        forall|k: int| 0 <= k < before.len() && k != MARK_WORD ==> after[k] == before[k],
        after[MARK_WORD as int] / 256 == before[MARK_WORD as int] / 256,
{
    let w = before[MARK_WORD as int];
    assert(w - w % 256 + 1 <= u64::MAX);
}

/// Setting marks changes no reference.
pub proof fn lemma_marks_set_references(before: State, after: State, r: u64)
    requires
        before.blocks_wf(),
        before.prototypes_wf(),
        marks_set(before, after),
        before.is_object(r),
    ensures
        after.references(r) == before.references(r),
        after.prototype_of(r) == before.prototype_of(r),
        after.objects[r].len() == before.objects[r].len(),
        before.is_marked(r) ==> after.is_marked(r),
{
    if after.objects[r] != before.objects[r] {
        lemma_newly_marked(before.objects[r], after.objects[r]);
        lemma_reference_slots_in_bounds(before.prototype_of(r), before.objects[r]);
        assert(after.references(r) =~= before.references(r));
    }
}

/// Setting marks changes neither the graph nor the shape of the heap, and
/// unmarks nothing.
pub proof fn lemma_marks_set_keeps_shape(before: State, after: State)
    requires
        before.wf_collecting(),
        marks_set(before, after),
    ensures
        after.wf_collecting(),
        after.graph() == before.graph(),
        marks_grow(before, after),
{
    assert forall|r: u64| #[trigger] after.is_object(r) implies after.objects[r].len()
        >= OBJECT_HEADER_WORDS && after.header(r).prototype < after.prototypes.len() && block_wf(
        after.prototype_of(r),
        after.objects[r],
    ) by {
        lemma_marks_set_references(before, after, r);
        if after.objects[r] != before.objects[r] {
            lemma_newly_marked(before.objects[r], after.objects[r]);
        }
    }
    assert forall|i: int| 0 <= i < after.order.len() implies after.header(
        after.order[i],
    ).gc_next == #[trigger] successor(after.order, i) by {
        let r = after.order[i];
        assert(before.order.contains(r));
        assert(successor(before.order, i) == before.header(r).gc_next);
        if after.objects[r] != before.objects[r] {
            lemma_newly_marked(before.objects[r], after.objects[r]);
        }
    }
    assert forall|i: int| 0 <= i < before.order.len() implies (
    #[trigger] after.objects[before.order[i]]).len() == before.objects[before.order[i]].len() by {
        let r = before.order[i];
        assert(before.order.contains(r));
        lemma_marks_set_references(before, after, r);
    }
    lemma_total_units_frame(before.objects, after.objects, before.order);
    assert(after.graph() =~= before.graph()) by {
        assert forall|r: u64| before.is_object(r) implies #[trigger] after.graph()[r]
            == before.graph()[r] by {
            lemma_marks_set_references(before, after, r);
        }
    }
    assert forall|r: u64| #[trigger]
        before.objects.dom().contains(r) && before.is_marked(r) implies after.is_marked(r) by {
        lemma_marks_set_references(before, after, r);
    }
}

/// Setting marks twice is setting marks.
pub proof fn lemma_marks_set_transitive(a: State, b: State, c: State)
    requires
        a.blocks_wf(),
        marks_set(a, b),
        marks_set(b, c),
    ensures
        marks_set(a, c),
{
    assert forall|r: u64| #[trigger] a.objects.dom().contains(r) implies c.objects[r]
        == a.objects[r] || newly_marked(a.objects[r], c.objects[r]) by {
        assert(b.objects.dom().contains(r));
        if b.objects[r] != a.objects[r] && c.objects[r] != b.objects[r] {
            lemma_newly_marked(a.objects[r], b.objects[r]);
        }
    }
}

/// There are finitely many objects, so finitely many unmarked ones.
pub proof fn lemma_unmarked_finite(s: State)
    requires
        s.list_wf(),
    ensures
        s.unmarked().finite(),
        s.objects.dom().finite(),
{
    vstd::seq_lib::seq_to_set_is_finite(s.order);
    assert(s.objects.dom() =~= s.order.to_set());
    vstd::set_lib::lemma_len_subset(s.unmarked(), s.objects.dom());
}

/// Marking an unmarked object, and perhaps others, leaves fewer objects
/// unmarked.
pub proof fn lemma_marking_decreases(before: State, after: State, r: u64)
    requires
        before.list_wf(),
        after.objects.dom() == before.objects.dom(),
        marks_grow(before, after),
        before.is_object(r),
        !before.is_marked(r),
        after.is_marked(r),
    ensures
        after.unmarked().len() < before.unmarked().len(),
{
    lemma_unmarked_finite(before);
    let smaller = before.unmarked().remove(r);
    assert(after.unmarked().subset_of(smaller)) by {
        assert forall|x: u64| after.unmarked().contains(x) implies smaller.contains(x) by {
            if before.is_marked(x) {
                assert(before.objects.dom().contains(x));
            }
        }
    }
    vstd::set_lib::lemma_len_subset(after.unmarked(), smaller);
}

/// In a state without marks the unmarked part of the graph is the graph.
pub proof fn lemma_unmarked_graph_without_marks(s: State)
    requires
        s.all_unmarked(),
    ensures
        s.unmarked_graph() == s.graph(),
{
    assert(s.unmarked_graph() =~= s.graph());
}

/// Setting marks takes the newly marked objects out of the unmarked part
/// of the graph and leaves the rest of it as it was.
pub proof fn lemma_unmarked_graph_shrinks(before: State, after: State)
    requires
        before.wf_collecting(),
        marks_set(before, after),
    ensures
        after.unmarked_graph() == before.unmarked_graph().remove_keys(after.marked()),
{
    lemma_marks_set_keeps_shape(before, after);
    let lhs = after.unmarked_graph();
    let rhs = before.unmarked_graph().remove_keys(after.marked());
    assert forall|r: u64| lhs.dom().contains(r) <==> rhs.dom().contains(r) by {
        if before.objects.dom().contains(r) && before.is_marked(r) {
            assert(after.is_marked(r));
        }
    }
    assert(lhs =~= rhs);
}

/// Tracing from roots none of which is an unmarked object changes
/// nothing.
pub proof fn lemma_traced_nothing(s: State, roots: Set<u64>)
    requires
        forall|v: u64| #[trigger] roots.contains(v) && s.is_object(v) ==> s.is_marked(v),
    ensures
        traced(s, s, roots),
{
    let g = s.unmarked_graph();
    assert forall|r: u64| !reachable(g, roots, r) by {
        if reachable(g, roots, r) {
            let path = choose|path: Seq<u64>| #[trigger] reaches(g, roots, r, path);
            assert(g.dom().contains(path[0]));
        }
    }
}

/// Tracing from some roots and then from others is tracing from all of
/// them.
pub proof fn lemma_traced_then(a: State, b: State, c: State, first: Set<u64>, second: Set<u64>)
    requires
        a.wf_collecting(),
        traced(a, b, first),
        traced(b, c, second),
    ensures
        traced(a, c, first + second),
{
    let g = a.unmarked_graph();
    lemma_marks_set_keeps_shape(a, b);
    lemma_marks_set_keeps_shape(b, c);
    lemma_marks_set_transitive(a, b, c);
    lemma_unmarked_graph_shrinks(a, b);
    assert(b.unmarked_graph() =~= g.remove_keys(reachable_set(g, first))) by {
        let lhs = g.remove_keys(b.marked());
        let rhs = g.remove_keys(reachable_set(g, first));
        assert forall|r: u64| lhs.dom().contains(r) <==> rhs.dom().contains(r) by {
            if g.dom().contains(r) {
                assert(a.objects.dom().contains(r));
            }
        }
    }
    assert forall|r: u64| #[trigger] a.objects.dom().contains(r) implies (c.is_marked(r)
        <==> a.is_marked(r) || reachable(g, first + second, r)) by {
        assert(b.objects.dom().contains(r));
        lemma_reachable_in_two_rounds(g, first, second, r);
    }
}

} // verus!
