//! What a whole collection does to the state, and that marking from the
//! roots and sweeping does exactly that.

use crate::graph::reachable;
use crate::model::accounting::{lemma_total_units_filter, lemma_total_units_frame};
use crate::model::marking::{lemma_unmarked_graph_without_marks, newly_marked, traced};
use crate::model::sweeping::{marked_in, survivor, swept};
use crate::model::{successor, total_units, State};
use crate::object::{with_mark, Object, MARK_WORD, NEXT_WORD, NULL, OBJECT_HEADER_WORDS};
use vstd::prelude::*;

verus! {

/// The state after a collection of `s` with the roots `roots`: the objects
/// that the roots reach remain, in their order and linked to one another;
/// the others are gone and their space is given back.
pub open spec fn collected(s: State, roots: Set<u64>) -> State {
    let order = s.order.filter(reached_in(s, roots));
    let objects = Map::new(
        |r: u64| s.is_object(r) && reachable(s.graph(), roots, r),
        |r: u64| s.objects[r].update(NEXT_WORD as int, successor(order, order.index_of(r))),
    );
    State {
        objects,
        order,
        head: if order.len() == 0 {
            NULL
        } else {
            order[0]
        },
        allocated: total_units(objects, order) as usize,
        ..s
    }
}

/// The predicate that selects the objects of `s` that `roots` reach.
pub open spec fn reached_in(s: State, roots: Set<u64>) -> spec_fn(u64) -> bool {
    |r: u64| reachable(s.graph(), roots, r)
}

/// Every root is null or refers to an allocated object.
pub open spec fn roots_valid(s: State, roots: Set<u64>) -> bool {
    forall|v: u64| #[trigger] roots.contains(v) ==> v == NULL || s.is_object(v)
}

/// Two predicates that agree on the elements of a sequence select the same
/// subsequence.
pub proof fn lemma_filter_agree(s: Seq<u64>, p: spec_fn(u64) -> bool, q: spec_fn(u64) -> bool)
    requires
        forall|i: int| 0 <= i < s.len() ==> p(#[trigger] s[i]) == q(s[i]),
    ensures
        s.filter(p) == s.filter(q),
    decreases s.len(),
{
    reveal(Seq::filter);
    if s.len() > 0 {
        let rest = s.drop_last();
        assert forall|i: int| 0 <= i < rest.len() implies p(#[trigger] rest[i]) == q(rest[i]) by {
            assert(rest[i] == s[i]);
        }
        lemma_filter_agree(rest, p, q);
        assert(p(s[s.len() - 1]) == q(s[s.len() - 1]));
    }
}

/// Tracing from every root in a heap without marks marks exactly the
/// objects that the roots reach.
pub proof fn lemma_traced_exact(start: State, cur: State, roots: Set<u64>)
    requires
        start.wf(),
        traced(start, cur, roots),
    ensures
        forall|r: u64| #[trigger]
            start.objects.dom().contains(r) ==> (cur.is_marked(r) <==> reachable(
                start.graph(),
                roots,
                r,
            )),
{
    lemma_unmarked_graph_without_marks(start);
}

/// The marked objects after tracing are, in list order, the objects that
/// the roots reach.
proof fn lemma_survivor_order(start: State, cur: State, roots: Set<u64>)
    requires
        start.wf(),
        traced(start, cur, roots),
    ensures
        cur.order.filter(marked_in(cur)) == start.order.filter(reached_in(start, roots)),
{
    lemma_traced_exact(start, cur, roots);
    assert forall|i: int| 0 <= i < start.order.len() implies marked_in(cur)(
        #[trigger] start.order[i],
    ) == reached_in(start, roots)(start.order[i]) by {
        assert(start.order.contains(start.order[i]));
    }
    lemma_filter_agree(start.order, marked_in(cur), reached_in(start, roots));
}

/// Clearing the mark of an object that was marked during the collection
/// gives back the storage it had before.
proof fn lemma_survivor_words(before: Seq<u64>, marked: Seq<u64>, next: u64)
    requires
        before.len() >= OBJECT_HEADER_WORDS,
        Object::decode(before).gc_is_marked == 0,
        newly_marked(before, marked),
    ensures
        survivor(marked, next) == before.update(NEXT_WORD as int, next),
{
    let w = before[MARK_WORD as int];
    assert(w % 256 == 0);
    assert(with_mark(with_mark(w, 1), 0) == w);
    assert(survivor(marked, next) =~= before.update(NEXT_WORD as int, next));
}

/// Sweeping after every root has been traced is collecting.
pub proof fn lemma_swept_is_collected(start: State, cur: State, roots: Set<u64>)
    requires
        start.wf(),
        traced(start, cur, roots),
    ensures
        swept(cur) == collected(start, roots),
{
    let after = swept(cur);
    let goal = collected(start, roots);
    lemma_survivor_order(start, cur, roots);
    assert(after.order == goal.order);
    assert(after.objects =~= goal.objects) by {
        lemma_traced_exact(start, cur, roots);
        assert forall|r: u64| after.objects.dom().contains(r) <==> goal.objects.dom().contains(
            r,
        ) by {
            if goal.objects.dom().contains(r) {
                assert(start.objects.dom().contains(r));
            }
            if after.objects.dom().contains(r) {
                assert(start.objects.dom().contains(r));
            }
        }
        assert forall|r: u64| after.objects.dom().contains(r) implies #[trigger] after.objects[r]
            == goal.objects[r] by {
            assert(start.objects.dom().contains(r));
            assert(start.header(r).gc_is_marked == 0);
            assert(newly_marked(start.objects[r], cur.objects[r]));
            lemma_survivor_words(
                start.objects[r],
                cur.objects[r],
                successor(after.order, after.order.index_of(r)),
            );
        }
    }
}

/// A collection leaves no more space in use than there was, and what it
/// leaves in use is the sum of the sizes of the survivors.
pub proof fn lemma_collected_space(s: State, roots: Set<u64>)
    requires
        s.wf(),
    ensures
        collected(s, roots).allocated == total_units(
            collected(s, roots).objects,
            collected(s, roots).order,
        ),
        collected(s, roots).allocated <= s.allocated,
{
    let c = collected(s, roots);
    let live = reached_in(s, roots);
    assert forall|i: int| 0 <= i < c.order.len() implies (#[trigger] c.objects[c.order[i]]).len()
        == s.objects[c.order[i]].len() by {
        s.order.lemma_filter_pred(live, i);
        s.order.lemma_filter_contains_rev(live, c.order[i]);
        assert(s.order.contains(c.order[i]));
        assert(c.objects.dom().contains(c.order[i]));
        assert(s.objects[c.order[i]].len() >= OBJECT_HEADER_WORDS);
    }
    lemma_total_units_frame(s.objects, c.objects, c.order);
    lemma_total_units_filter(s.objects, s.order, live);
}

} // verus!
