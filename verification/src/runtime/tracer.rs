use crate::bitmap::test_bit;
use crate::graph::lemma_reachable_through_node;
use crate::model::marking::{
    lemma_marking_decreases, lemma_marks_set_keeps_shape, lemma_marks_set_references,
    lemma_marks_set_transitive, lemma_newly_marked, lemma_traced_nothing, lemma_traced_then,
    lemma_unmarked_graph_shrinks, marks_set, traced,
};
use crate::model::{lemma_reference_slots_in_bounds, State};
use crate::object::{
    with_mark, Type, ARRAY_HEADER_WORDS, LEN_WORD, MARK_WORD, NULL, OBJECT_HEADER_WORDS,
    PROTOTYPE_WORD,
};
use crate::runtime::Runtime;
use vstd::prelude::*;

verus! {

/// The state `s` with the mark of object `r` set.
pub open spec fn entered(s: State, r: u64) -> State {
    State {
        objects: s.objects.insert(
            r,
            s.objects[r].update(MARK_WORD as int, with_mark(s.objects[r][MARK_WORD as int], 1)),
        ),
        ..s
    }
}

/// The references in the first `done` slots of object `r`.
pub open spec fn followed(s: State, r: u64, done: int) -> Set<u64> {
    s.references(r).take(done).to_set()
}

/// What holds while the tracer works through the reference slots of
/// `reference`, an object that was unmarked in `start` and that it has
/// marked: the first `done` slots have been traced from.
pub open spec fn tracing(start: State, cur: State, reference: u64, done: int) -> bool {
    &&& start.wf_collecting()
    &&& start.references_valid()
    &&& start.is_object(reference)
    &&& !start.is_marked(reference)
    &&& cur.wf_collecting()
    &&& 0 <= done <= start.references(reference).len()
    &&& traced(entered(start, reference), cur, followed(start, reference, done))
}

/// Marking `reference` starts the work on its slots.
proof fn lemma_tracing_begins(start: State, reference: u64)
    requires
        start.wf_collecting(),
        start.references_valid(),
        start.is_object(reference),
        !start.is_marked(reference),
    ensures
        tracing(start, entered(start, reference), reference, 0),
        marks_set(start, entered(start, reference)),
        entered(start, reference).is_marked(reference),
{
    let cur = entered(start, reference);
    assert(cur.objects.dom() =~= start.objects.dom());
    assert(marks_set(start, cur));
    lemma_marks_set_keeps_shape(start, cur);
    lemma_newly_marked(start.objects[reference], cur.objects[reference]);
    assert(followed(start, reference, 0) =~= Set::<u64>::empty());
    lemma_traced_nothing(cur, followed(start, reference, 0));
}

/// While the tracer works on `reference`, the object stays marked, nothing
/// but marks has changed since the start, and fewer objects are unmarked
/// than at the start.
proof fn lemma_tracing_progress(start: State, cur: State, reference: u64, done: int)
    requires
        tracing(start, cur, reference, done),
    ensures
        marks_set(start, cur),
        cur.graph() == start.graph(),
        cur.is_marked(reference),
        cur.unmarked().len() < start.unmarked().len(),
        cur.references(reference) == start.references(reference),
        cur.objects[reference].len() == start.objects[reference].len(),
        cur.prototype_of(reference) == start.prototype_of(reference),
        cur.references_valid(),
{
    let mid = entered(start, reference);
    lemma_tracing_begins(start, reference);
    lemma_marks_set_keeps_shape(start, mid);
    lemma_marks_set_transitive(start, mid, cur);
    lemma_marks_set_keeps_shape(start, cur);
    lemma_marks_set_keeps_shape(mid, cur);
    assert(mid.objects.dom().contains(reference));
    lemma_marking_decreases(start, cur, reference);
    lemma_marks_set_references(start, cur, reference);
}

/// Tracing from what slot `done` refers to completes the work on that slot.
proof fn lemma_tracing_advances(start: State, mid: State, cur: State, reference: u64, done: int)
    requires
        tracing(start, mid, reference, done),
        done < start.references(reference).len(),
        cur.wf_collecting(),
        traced(mid, cur, set![start.references(reference)[done]]),
    ensures
        tracing(start, cur, reference, done + 1),
{
    let refs = start.references(reference);
    lemma_tracing_begins(start, reference);
    lemma_traced_then(
        entered(start, reference),
        mid,
        cur,
        followed(start, reference, done),
        set![refs[done]],
    );
    assert(followed(start, reference, done + 1) =~= followed(start, reference, done) + set![
        refs[done],
    ]) by {
        let shorter = refs.take(done);
        let longer = refs.take(done + 1);
        assert forall|x: u64| longer.to_set().contains(x) <==> (shorter.to_set() + set![
            refs[done],
        ]).contains(x) by {
            if longer.contains(x) {
                let k = choose|k: int| 0 <= k < longer.len() && longer[k] == x;
                if k < done {
                    assert(shorter[k] == x);
                }
            }
            if shorter.contains(x) {
                let k = choose|k: int| 0 <= k < shorter.len() && shorter[k] == x;
                assert(longer[k] == x);
            }
            if x == refs[done] {
                assert(longer[done] == x);
            }
        }
    }
}

/// A slot that holds null needs no work.
proof fn lemma_tracing_skips(start: State, cur: State, reference: u64, done: int)
    requires
        tracing(start, cur, reference, done),
        done < start.references(reference).len(),
        start.references(reference)[done] == NULL,
    ensures
        tracing(start, cur, reference, done + 1),
{
    lemma_traced_nothing(cur, set![NULL]);
    lemma_tracing_advances(start, cur, cur, reference, done);
}

/// When every slot has been traced from, `reference` has been traced from.
proof fn lemma_tracing_ends(start: State, cur: State, reference: u64)
    requires
        tracing(start, cur, reference, start.references(reference).len() as int),
    ensures
        traced(start, cur, set![reference]),
{
    let mid = entered(start, reference);
    let g = start.unmarked_graph();
    let refs = start.references(reference);
    lemma_tracing_begins(start, reference);
    lemma_tracing_progress(start, cur, reference, refs.len() as int);
    lemma_unmarked_graph_shrinks(start, mid);
    assert(mid.unmarked_graph() =~= g.remove(reference)) by {
        let lhs = g.remove_keys(mid.marked());
        let rhs = g.remove(reference);
        assert forall|r: u64| lhs.dom().contains(r) <==> rhs.dom().contains(r) by {
            if r != reference && start.objects.dom().contains(r) {
                assert(mid.objects[r] == start.objects[r]);
            }
        }
    }
    assert(refs.take(refs.len() as int) =~= refs);
    assert(g[reference] == refs);
    assert forall|r: u64| #[trigger] start.objects.dom().contains(r) implies (cur.is_marked(r)
        <==> start.is_marked(r) || crate::graph::reachable(g, set![reference], r)) by {
        assert(mid.objects.dom().contains(r));
        lemma_reachable_through_node(g, reference, r);
        if r != reference {
            assert(mid.objects[r] == start.objects[r]);
        }
    }
}

/// Marks every unmarked object that can be reached from `reference`
/// through unmarked objects, `reference` itself first. A null reference, or
/// one to a marked object, leaves the heap as it is.
pub fn mark_reachable_from(rt: &mut Runtime, reference: u64)
    requires
        old(rt).wf_collecting(),
        old(rt)@.references_valid(),
        reference == NULL || old(rt)@.is_object(reference),
    ensures
        final(rt).wf_collecting(),
        traced(old(rt)@, final(rt)@, set![reference]),
    decreases old(rt)@.unmarked().len(),
{
    let ghost start = rt@;
    if reference == NULL {
        proof {
            assert(!start.objects.dom().contains(NULL));
            lemma_traced_nothing(start, set![reference]);
        }
        return ;
    }
    proof {
        assert(start.objects.dom().contains(reference));
        lemma_reference_slots_in_bounds(start.prototype_of(reference), start.objects[reference]);
    }
    let mark_word = rt.heap.load(reference, MARK_WORD);
    if (mark_word % 256) as u8 == 1 {
        proof {
            lemma_traced_nothing(start, set![reference]);
        }
        return ;
    }
    rt.heap.store(reference, MARK_WORD, mark_word - mark_word % 256 + 1);
    proof {
        lemma_tracing_begins(start, reference);
        assert(rt@ == entered(start, reference));
        lemma_tracing_progress(start, rt@, reference, 0);
    }
    let p = rt.heap.load(reference, PROTOTYPE_WORD);
    assert(rt.prototypes.len() == rt.prototypes@.len());
    let size = rt.prototypes[p as usize].size;
    match rt.prototypes[p as usize].type_tag {
        Type::Other => {
            let count: usize = (size / 8) as usize;
            let mut i: usize = 0;
            while i < count
                invariant
                    i <= count,
                    count == start.references(reference).len(),
                    tracing(start, rt@, reference, i as int),
                    rt.store_wf(),
                    p == start.objects[reference][PROTOTYPE_WORD as int],
                    start.prototype_of(reference).type_tag == Type::Other,
                    start == old(rt)@,
                decreases count - i,
            {
                let ghost mid = rt@;
                proof {
                    lemma_tracing_progress(start, mid, reference, i as int);
                    lemma_reference_slots_in_bounds(
                        start.prototype_of(reference),
                        start.objects[reference],
                    );
                }
                assert(rt.prototypes.len() == rt.prototypes@.len());
                if test_bit(&rt.prototypes[p as usize].reference_bitmap, i as u64) {
                    let child = rt.heap.load(reference, OBJECT_HEADER_WORDS + i);
                    proof {
                        assert(child == start.references(reference)[i as int]);
                        assert(start.graph()[reference][i as int] == child);
                    }
                    mark_reachable_from(rt, child);
                    proof {
                        lemma_tracing_advances(start, mid, rt@, reference, i as int);
                    }
                } else {
                    proof {
                        lemma_tracing_skips(start, mid, reference, i as int);
                    }
                }
                i += 1;
            }
        },
        Type::ObjList => {
            let len = rt.heap.load(reference, LEN_WORD);
            let mut i: u64 = 0;
            while i < len
                invariant
                    i <= len,
                    len == start.references(reference).len(),
                    tracing(start, rt@, reference, i as int),
                    rt.store_wf(),
                    start.prototype_of(reference).type_tag == Type::ObjList,
                    start == old(rt)@,
                decreases len - i,
            {
                let ghost mid = rt@;
                proof {
                    lemma_tracing_progress(start, mid, reference, i as int);
                    lemma_reference_slots_in_bounds(
                        start.prototype_of(reference),
                        start.objects[reference],
                    );
                    rt.heap.lemma_view();
                }
                let child = rt.heap.load(reference, ARRAY_HEADER_WORDS + i as usize);
                proof {
                    assert(child == start.references(reference)[i as int]);
                    assert(start.graph()[reference][i as int] == child);
                }
                mark_reachable_from(rt, child);
                proof {
                    lemma_tracing_advances(start, mid, rt@, reference, i as int);
                }
                i += 1;
            }
        },
        _ => {},
    }
    proof {
        lemma_tracing_ends(start, rt@, reference);
    }
}

} // verus!
