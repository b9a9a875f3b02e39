//! What the sweep phase does to the state: marked objects stay and lose
//! their mark, the others leave the list and the heap.

use crate::model::accounting::{lemma_total_units_frame, lemma_total_units_remove};
use crate::model::{block_wf, successor, total_units, State};
use crate::object::{with_mark, MARK_WORD, NEXT_WORD, NULL, OBJECT_HEADER_WORDS};
use vstd::prelude::*;

verus! {

/// The predicate that selects the objects marked in `s`.
pub open spec fn marked_in(s: State) -> spec_fn(u64) -> bool {
    |r: u64| s.is_marked(r)
}

/// The storage of a marked object after the sweep: its mark byte is
/// cleared and it links to `next`.
pub open spec fn survivor(words: Seq<u64>, next: u64) -> Seq<u64> {
    words.update(MARK_WORD as int, with_mark(words[MARK_WORD as int], 0)).update(
        NEXT_WORD as int,
        next,
    )
}

/// The state after a sweep of `s`: the marked objects remain, in their
/// order, unmarked and linked to one another; the others are gone and their
/// space is given back.
pub open spec fn swept(s: State) -> State {
    let order = s.order.filter(marked_in(s));
    let objects = Map::new(
        |r: u64| s.is_object(r) && s.is_marked(r),
        |r: u64| survivor(s.objects[r], successor(order, order.index_of(r))),
    );
    State {
        objects,
        order,
        head: if order.len() == 0 {
            NULL
        } else {
            order[0]
        },
        allocated: total_units(objects, order) as usize,
        ..s
    }
}

/// The storage `after` is the storage `before` but for the mark byte and
/// the link.
pub open spec fn same_but_links(before: Seq<u64>, after: Seq<u64>) -> bool {
    &&& after == before.update(MARK_WORD as int, after[MARK_WORD as int]).update(
        NEXT_WORD as int,
        after[NEXT_WORD as int],
    )
    &&& after[MARK_WORD as int] / 256 == before[MARK_WORD as int] / 256
}

/// The state `s` with the object at position `i` of the list unlinked and
/// released.
pub open spec fn unlinked(s: State, i: int) -> State {
    let r = s.order[i];
    let next = successor(s.order, i);
    let relinked = if i == 0 {
        s.objects
    } else {
        s.objects.insert(
            s.order[i - 1],
            s.objects[s.order[i - 1]].update(NEXT_WORD as int, next),
        )
    };
    State {
        objects: relinked.remove(r),
        order: s.order.remove(i),
        head: if i == 0 {
            next
        } else {
            s.head
        },
        ..s
    }
}

/// Unlinking an object keeps the list intact and takes the object's size
/// off the sum of sizes.
pub proof fn lemma_unlinked(s: State, i: int)
    requires
        s.list_wf(),
        s.blocks_wf(),
        0 <= i < s.order.len(),
    ensures
        unlinked(s, i).list_wf(),
        unlinked(s, i).blocks_wf(),
        total_units(unlinked(s, i).objects, unlinked(s, i).order) == total_units(
            s.objects,
            s.order,
        ) - s.objects[s.order[i]].len(),
        forall|x: u64| #[trigger]
            unlinked(s, i).objects.dom().contains(x) ==> s.objects.dom().contains(x)
                && same_but_links(s.objects[x], unlinked(s, i).objects[x]) && unlinked(
                s,
                i,
            ).objects[x][MARK_WORD as int] == s.objects[x][MARK_WORD as int],
        forall|x: u64|
            unlinked(s, i).objects.dom().contains(x) <==> s.objects.dom().contains(x) && x
                != s.order[i],
{
    let t = unlinked(s, i);
    let r = s.order[i];
    let next = successor(s.order, i);
    assert(s.order.contains(r));
    if i > 0 {
        assert(s.order.contains(s.order[i - 1]));
    }
    assert forall|x: u64| t.objects.dom().contains(x) <==> s.objects.dom().contains(x) && x
        != r by {}
    assert forall|x: u64| #[trigger] t.objects.dom().contains(x) implies s.objects.dom().contains(
        x,
    ) && same_but_links(s.objects[x], t.objects[x]) && t.objects[x][MARK_WORD as int]
        == s.objects[x][MARK_WORD as int] && t.objects[x].len() == s.objects[x].len() by {
        assert(s.objects[x].len() >= OBJECT_HEADER_WORDS);
        assert(t.objects[x] =~= s.objects[x].update(
            MARK_WORD as int,
            t.objects[x][MARK_WORD as int],
        ).update(NEXT_WORD as int, t.objects[x][NEXT_WORD as int]));
    }
    assert(t.order.no_duplicates()) by {
        assert forall|a: int, b: int| 0 <= a < t.order.len() && 0 <= b < t.order.len() && a
            != b implies t.order[a] != t.order[b] by {
            let a0 = if a < i {
                a
            } else {
                a + 1
            };
            let b0 = if b < i {
                b
            } else {
                b + 1
            };
            assert(t.order[a] == s.order[a0]);
            assert(t.order[b] == s.order[b0]);
        }
    }
    assert forall|x: u64| t.is_object(x) <==> t.order.contains(x) by {
        if t.is_object(x) {
            assert(s.order.contains(x));
            let k = choose|k: int| 0 <= k < s.order.len() && s.order[k] == x;
            if k < i {
                assert(t.order[k] == x);
            } else {
                assert(t.order[k - 1] == x);
            }
        }
        if t.order.contains(x) {
            let k = choose|k: int| 0 <= k < t.order.len() && t.order[k] == x;
            let k0 = if k < i {
                k
            } else {
                k + 1
            };
            assert(s.order[k0] == x);
            assert(s.order.contains(x));
        }
    }
    assert forall|k: int| 0 <= k < t.order.len() implies t.header(t.order[k]).gc_next
        == #[trigger] successor(t.order, k) by {
        let k0 = if k < i {
            k
        } else {
            k + 1
        };
        assert(t.order[k] == s.order[k0]);
        assert(s.order.contains(s.order[k0]));
        assert(s.header(s.order[k0]).gc_next == successor(s.order, k0));
        if k + 1 < t.order.len() {
            let n0 = if k + 1 < i {
                k + 1
            } else {
                k + 2
            };
            assert(t.order[k + 1] == s.order[n0]);
        }
        if k == i - 1 {
            assert(successor(t.order, k) == next);
        }
    }
    assert(t.head == if t.order.len() == 0 {
        NULL
    } else {
        t.order[0]
    }) by {
        if i == 0 && t.order.len() > 0 {
            assert(t.order[0] == s.order[1]);
        }
        if i > 0 {
            assert(t.order[0] == s.order[0]);
        }
    }
    assert forall|x: u64| #[trigger] t.is_object(x) implies t.objects[x].len()
        >= OBJECT_HEADER_WORDS && t.header(x).prototype < t.prototypes.len() && block_wf(
        t.prototype_of(x),
        t.objects[x],
    ) by {
        assert(s.is_object(x));
        assert(same_but_links(s.objects[x], t.objects[x]));
    }
    lemma_total_units_remove(s.objects, s.order, i);
    assert forall|k: int| 0 <= k < t.order.len() implies (#[trigger] t.objects[t.order[k]]).len()
        == s.objects[t.order[k]].len() by {
        assert(t.order.contains(t.order[k]));
        assert(t.objects.dom().contains(t.order[k]));
    }
    lemma_total_units_frame(s.objects, t.objects, t.order);
}

} // verus!
