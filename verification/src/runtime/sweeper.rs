//! The sweeper: one pass over the object list that releases every unmarked
//! object and clears the mark of every other.

use crate::layout::calculate_size;
use crate::model::accounting::{
    lemma_total_units_frame, lemma_total_units_nonnegative, lemma_total_units_remove,
};
use crate::model::sweeping::{
    lemma_unlinked, marked_in, same_but_links, swept, unlinked,
};
use crate::model::{block_wf, successor, total_units, State};
use crate::object::{
    with_mark, LEN_WORD, MARK_WORD, NEXT_WORD, NULL, OBJECT_HEADER_WORDS, PROTOTYPE_WORD,
};
use crate::runtime::Runtime;
use vstd::prelude::*;

verus! {

/// The marked objects among the first `done` of the list of `start`.
pub open spec fn kept(start: State, done: int) -> Seq<u64> {
    start.order.take(done).filter(marked_in(start))
}

/// What holds while the sweeper walks the list of `start`: it has dealt
/// with the first `done` objects and given back `reclaimed` units.
pub open spec fn sweeping(start: State, cur: State, done: int, reclaimed: int) -> bool {
    &&& start.wf_collecting()
    &&& 0 <= done <= start.order.len()
    &&& cur.prototypes == start.prototypes
    &&& cur.threshold == start.threshold
    &&& cur.descriptor == start.descriptor
    &&& cur.allocated == start.allocated
    &&& cur.order == kept(start, done) + start.order.skip(done)
    &&& cur.list_wf()
    &&& cur.blocks_wf()
    &&& forall|r: u64| #[trigger]
        cur.objects.dom().contains(r) ==> start.objects.dom().contains(r) && same_but_links(
            start.objects[r],
            cur.objects[r],
        )
    &&& forall|k: int|
        0 <= k < kept(start, done).len() ==> cur.objects[#[trigger] kept(
            start,
            done,
        )[k]][MARK_WORD as int] == with_mark(
            start.objects[kept(start, done)[k]][MARK_WORD as int],
            0,
        )
    &&& forall|k: int|
        done <= k < start.order.len() ==> cur.objects[#[trigger] start.order[k]][MARK_WORD as int]
            == start.objects[start.order[k]][MARK_WORD as int]
    &&& total_units(cur.objects, cur.order) + reclaimed == start.allocated
    &&& reclaimed >= 0
}

/// The sweep starts with nothing dealt with.
proof fn lemma_sweeping_begins(start: State)
    requires
        start.wf_collecting(),
    ensures
        sweeping(start, start, 0, 0),
{
    reveal(Seq::filter);
    assert(start.order.take(0) =~= Seq::<u64>::empty());
    assert(kept(start, 0) =~= Seq::<u64>::empty());
    assert(start.order.skip(0) =~= start.order);
    assert(kept(start, 0) + start.order.skip(0) =~= start.order);
    assert forall|r: u64| #[trigger] start.objects.dom().contains(r) implies same_but_links(
        start.objects[r],
        start.objects[r],
    ) by {
        assert(start.objects[r].len() >= OBJECT_HEADER_WORDS);
        assert(start.objects[r] =~= start.objects[r].update(
            MARK_WORD as int,
            start.objects[r][MARK_WORD as int],
        ).update(NEXT_WORD as int, start.objects[r][NEXT_WORD as int]));
    }
}

/// The marked objects among one more are those among the others and,
/// if it is marked, that one.
proof fn lemma_kept_next(start: State, done: int)
    requires
        0 <= done < start.order.len(),
    ensures
        kept(start, done + 1) == if start.is_marked(start.order[done]) {
            kept(start, done).push(start.order[done])
        } else {
            kept(start, done)
        },
{
    start.order.lemma_take_succ_push(done);
    start.order.take(done).lemma_filter_push(start.order[done], marked_in(start));
}

/// Where the sweeper stands in the list as it is now.
proof fn lemma_sweeping_position(start: State, cur: State, done: int, reclaimed: int)
    requires
        sweeping(start, cur, done, reclaimed),
        done < start.order.len(),
    ensures
        kept(start, done).len() < cur.order.len(),
        cur.order[kept(start, done).len() as int] == start.order[done],
        cur.is_object(start.order[done]),
        start.is_object(start.order[done]),
        cur.is_marked(start.order[done]) == start.is_marked(start.order[done]),
        forall|k: int| 0 <= k < kept(start, done).len() ==> cur.order[k] == kept(start, done)[k],
        successor(cur.order, kept(start, done).len() as int) == successor(start.order, done),
{
    let r = start.order[done];
    let i = kept(start, done).len() as int;
    assert(start.order.skip(done)[0] == r);
    assert(cur.order[i] == r);
    assert(cur.order.contains(r));
    assert(start.order.contains(r));
    if done + 1 < start.order.len() {
        assert(start.order.skip(done)[1] == start.order[done + 1]);
        assert(cur.order[i + 1] == start.order[done + 1]);
    }
}

/// Clearing the mark of a marked object deals with it.
proof fn lemma_sweeping_keeps(start: State, cur: State, next: State, done: int, reclaimed: int)
    requires
        sweeping(start, cur, done, reclaimed),
        done < start.order.len(),
        start.is_marked(start.order[done]),
        next == (State {
            objects: cur.objects.insert(
                start.order[done],
                cur.objects[start.order[done]].update(
                    MARK_WORD as int,
                    with_mark(cur.objects[start.order[done]][MARK_WORD as int], 0),
                ),
            ),
            ..cur
        }),
    ensures
        sweeping(start, next, done + 1, reclaimed),
{
    let r = start.order[done];
    let i = kept(start, done).len() as int;
    lemma_sweeping_position(start, cur, done, reclaimed);
    lemma_kept_next(start, done);
    assert(next.objects.dom() =~= cur.objects.dom());
    assert(cur.objects[r].len() >= OBJECT_HEADER_WORDS);
    let w = cur.objects[r][MARK_WORD as int];
    assert(w - w % 256 <= u64::MAX);
    assert(next.order =~= kept(start, done + 1) + start.order.skip(done + 1)) by {
        assert forall|k: int| 0 <= k < cur.order.len() implies cur.order[k] == (kept(
            start,
            done + 1,
        ) + start.order.skip(done + 1))[k] by {
            if k > i {
                assert(cur.order[k] == start.order.skip(done)[k - i]);
            }
        }
    }
    assert forall|x: u64| #[trigger] next.objects.dom().contains(x) implies {
        &&& start.objects.dom().contains(x)
        &&& same_but_links(start.objects[x], next.objects[x])
    } by {
        assert(cur.objects.dom().contains(x));
        assert(same_but_links(start.objects[x], cur.objects[x]));
        if x == r {
            assert(next.objects[x] =~= start.objects[x].update(
                MARK_WORD as int,
                next.objects[x][MARK_WORD as int],
            ).update(NEXT_WORD as int, next.objects[x][NEXT_WORD as int]));
        }
    }
    assert forall|k: int| 0 <= k < next.order.len() implies next.header(next.order[k]).gc_next
        == #[trigger] successor(next.order, k) by {
        assert(cur.header(cur.order[k]).gc_next == successor(cur.order, k));
    }
    assert forall|x: u64| #[trigger] next.is_object(x) implies next.objects[x].len()
        >= OBJECT_HEADER_WORDS && next.header(x).prototype < next.prototypes.len() && block_wf(
        next.prototype_of(x),
        next.objects[x],
    ) by {
        assert(cur.is_object(x));
    }
    assert forall|k: int| 0 <= k < kept(start, done + 1).len() implies next.objects[#[trigger] kept(
        start,
        done + 1,
    )[k]][MARK_WORD as int] == with_mark(
        start.objects[kept(start, done + 1)[k]][MARK_WORD as int],
        0,
    ) by {
        if k < i {
            let x = kept(start, done)[k];
            assert(kept(start, done + 1)[k] == x);
            assert(cur.order[k] == x);
            assert(x != r);
        } else {
            assert(cur.objects[r][MARK_WORD as int] == start.objects[r][MARK_WORD as int]);
        }
    }
    assert forall|k: int| done + 1 <= k < start.order.len() implies next.objects[
    #[trigger] start.order[k]][MARK_WORD as int] == start.objects[start.order[k]][MARK_WORD as int] by {
        assert(start.order[k] != r);
    }
    assert forall|k: int| 0 <= k < cur.order.len() implies (
    #[trigger] next.objects[cur.order[k]]).len() == cur.objects[cur.order[k]].len() by {}
    lemma_total_units_frame(cur.objects, next.objects, cur.order);
}

/// Unlinking and releasing an unmarked object deals with it.
proof fn lemma_sweeping_reclaims(start: State, cur: State, done: int, reclaimed: int)
    requires
        sweeping(start, cur, done, reclaimed),
        done < start.order.len(),
        !start.is_marked(start.order[done]),
    ensures
        sweeping(
            start,
            unlinked(cur, kept(start, done).len() as int),
            done + 1,
            reclaimed + cur.objects[start.order[done]].len(),
        ),
{
    let r = start.order[done];
    let i = kept(start, done).len() as int;
    let next = unlinked(cur, i);
    lemma_sweeping_position(start, cur, done, reclaimed);
    lemma_kept_next(start, done);
    lemma_unlinked(cur, i);
    assert(next.order =~= kept(start, done + 1) + start.order.skip(done + 1)) by {
        assert forall|k: int| 0 <= k < next.order.len() implies next.order[k] == (kept(
            start,
            done + 1,
        ) + start.order.skip(done + 1))[k] by {
            if k >= i {
                assert(next.order[k] == cur.order[k + 1]);
                assert(cur.order[k + 1] == start.order.skip(done)[k + 1 - i]);
            }
        }
    }
    assert forall|x: u64| #[trigger] next.objects.dom().contains(x) implies {
        &&& start.objects.dom().contains(x)
        &&& same_but_links(start.objects[x], next.objects[x])
    } by {
        assert(cur.objects.dom().contains(x));
        assert(same_but_links(start.objects[x], cur.objects[x]));
        assert(same_but_links(cur.objects[x], next.objects[x]));
        assert(next.objects[x] =~= start.objects[x].update(
            MARK_WORD as int,
            next.objects[x][MARK_WORD as int],
        ).update(NEXT_WORD as int, next.objects[x][NEXT_WORD as int]));
    }
    assert forall|k: int| 0 <= k < kept(start, done + 1).len() implies next.objects[#[trigger] kept(
        start,
        done + 1,
    )[k]][MARK_WORD as int] == with_mark(
        start.objects[kept(start, done + 1)[k]][MARK_WORD as int],
        0,
    ) by {
        let x = kept(start, done)[k];
        assert(cur.order[k] == x);
        assert(next.order[k] == x);
        assert(next.order.contains(x));
        assert(next.objects.dom().contains(x));
    }
    assert forall|k: int| done + 1 <= k < start.order.len() implies next.objects[
    #[trigger] start.order[k]][MARK_WORD as int] == start.objects[start.order[k]][MARK_WORD as int] by {
        let x = start.order[k];
        assert(start.order.skip(done + 1)[k - done - 1] == x);
        assert(next.order[i + k - done - 1] == x);
        assert(next.order.contains(x));
        assert(next.objects.dom().contains(x));
    }
}

/// When the whole list has been dealt with, the heap has been swept.
proof fn lemma_sweeping_ends(start: State, cur: State, reclaimed: int)
    requires
        sweeping(start, cur, start.order.len() as int, reclaimed),
    ensures
        0 <= start.allocated - reclaimed <= usize::MAX,
        (State { allocated: (start.allocated - reclaimed) as usize, ..cur }) == swept(start),
        swept(start).wf(),
{
    let done = start.order.len() as int;
    let end = State { allocated: (start.allocated - reclaimed) as usize, ..cur };
    let goal = swept(start);
    start.order.lemma_take_len();
    assert(start.order.skip(done) =~= Seq::<u64>::empty());
    assert(cur.order =~= kept(start, done));
    assert(cur.order == goal.order);
    lemma_total_units_nonnegative(cur.objects, cur.order);
    assert forall|r: u64| cur.objects.dom().contains(r) <==> goal.objects.dom().contains(r) by {
        if cur.objects.dom().contains(r) {
            assert(cur.order.contains(r));
            let k = choose|k: int| 0 <= k < cur.order.len() && cur.order[k] == r;
            start.order.lemma_filter_pred(marked_in(start), k);
        }
        if goal.objects.dom().contains(r) {
            assert(start.order.contains(r));
            let k = choose|k: int| 0 <= k < start.order.len() && start.order[k] == r;
            start.order.lemma_filter_contains(marked_in(start), k);
        }
    }
    assert forall|r: u64| cur.objects.dom().contains(r) implies #[trigger] cur.objects[r]
        == goal.objects[r] by {
        assert(cur.order.contains(r));
        let k = choose|k: int| 0 <= k < cur.order.len() && cur.order[k] == r;
        let j = cur.order.index_of(r);
        assert(k == j);
        assert(cur.header(cur.order[k]).gc_next == successor(cur.order, k));
        assert(same_but_links(start.objects[r], cur.objects[r]));
        assert(kept(start, done)[k] == r);
        assert(cur.objects[r] =~= goal.objects[r]);
    }
    assert(cur.objects =~= goal.objects);
    assert(end == goal);
    assert forall|r: u64| #[trigger] goal.is_object(r) implies goal.header(r).gc_is_marked
        == 0 by {
        assert(cur.order.contains(r));
        let k = choose|k: int| 0 <= k < cur.order.len() && cur.order[k] == r;
        assert(kept(start, done)[k] == r);
        let w = start.objects[r][MARK_WORD as int];
        assert(w - w % 256 <= u64::MAX);
    }
}

/// Walks the object list once. An object whose mark is set has the mark
/// cleared and stays; any other is unlinked from the list and its storage
/// is released. The space in use goes down by what was released.
pub fn sweep(rt: &mut Runtime)
    requires
        old(rt).wf_collecting(),
    ensures
        final(rt).wf(),
        final(rt)@ == swept(old(rt)@),
{
    let ghost start = rt@;
    let mut prev: u64 = NULL;
    let mut cursor: u64 = rt.gc_head;
    let mut reclaimed: usize = 0;
    let ghost mut done: int = 0;
    proof {
        lemma_sweeping_begins(start);
    }
    while cursor != NULL
        invariant
            sweeping(start, rt@, done, reclaimed as int),
            rt.store_wf(),
            cursor == if done < start.order.len() {
                start.order[done]
            } else {
                NULL
            },
            prev == if kept(start, done).len() == 0 {
                NULL
            } else {
                kept(start, done).last()
            },
        decreases start.order.len() - done,
    {
        let ghost cur = rt@;
        let ghost i = kept(start, done).len() as int;
        proof {
            lemma_sweeping_position(start, cur, done, reclaimed as int);
            lemma_kept_next(start, done);
            assert(cur.objects.dom().contains(cursor));
            assert(cur.header(cur.order[i]).gc_next == successor(cur.order, i));
            if i > 0 {
                assert(cur.order[i - 1] == prev);
                assert(cur.order.contains(prev));
            }
            lemma_total_units_nonnegative(cur.objects, cur.order.remove(i));
            lemma_total_units_remove(cur.objects, cur.order, i);
        }
        let mark_word = rt.heap.load(cursor, MARK_WORD);
        let next = rt.heap.load(cursor, NEXT_WORD);
        if (mark_word % 256) as u8 == 1 {
            rt.heap.store(cursor, MARK_WORD, mark_word - mark_word % 256);
            prev = cursor;
            proof {
                lemma_sweeping_keeps(start, cur, rt@, done, reclaimed as int);
            }
        } else {
            if prev == NULL {
                rt.gc_head = next;
            } else {
                rt.heap.store(prev, NEXT_WORD, next);
            }
            let p = rt.heap.load(cursor, PROTOTYPE_WORD);
            assert(rt.prototypes.len() == rt.prototypes@.len());
            let size = rt.prototypes[p as usize].size;
            let len = if size < 0 {
                rt.heap.load(cursor, LEN_WORD)
            } else {
                0
            };
            let units = calculate_size(size, len);
            rt.heap.release(cursor, units);
            reclaimed += units;
            proof {
                rt.order@ = rt.order@.remove(i);
                lemma_sweeping_reclaims(start, cur, done, (reclaimed - units) as int);
                assert(rt@.objects =~= unlinked(cur, i).objects);
                assert(rt@ == unlinked(cur, i));
            }
        }
        cursor = next;
        proof {
            done = done + 1;
            if done < start.order.len() {
                assert(successor(start.order, done - 1) == start.order[done]);
            }
        }
    }
    proof {
        if done < start.order.len() {
            assert(start.order.contains(start.order[done]));
        }
        lemma_sweeping_ends(start, rt@, reclaimed as int);
    }
    rt.current_space = rt.current_space - reclaimed;
}

} // verus!
