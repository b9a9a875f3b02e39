//! Sums of object sizes over the object list.

use crate::model::total_units;
use vstd::prelude::*;

verus! {

/// The sum of sizes is never negative.
pub proof fn lemma_total_units_nonnegative(objects: Map<u64, Seq<u64>>, order: Seq<u64>)
    ensures
        total_units(objects, order) >= 0,
    decreases order.len(),
{
    if order.len() > 0 {
        lemma_total_units_nonnegative(objects, order.skip(1));
    }
}

/// The sum of sizes depends only on the sizes of the listed objects.
pub proof fn lemma_total_units_frame(
    before: Map<u64, Seq<u64>>,
    after: Map<u64, Seq<u64>>,
    order: Seq<u64>,
)
    requires
        forall|i: int|
            0 <= i < order.len() ==> (#[trigger] after[order[i]]).len() == before[order[i]].len(),
    ensures
        total_units(after, order) == total_units(before, order),
    decreases order.len(),
{
    if order.len() > 0 {
        let rest = order.skip(1);
        assert forall|i: int| 0 <= i < rest.len() implies (#[trigger] after[rest[i]]).len()
            == before[rest[i]].len() by {
            assert(rest[i] == order[i + 1]);
        }
        lemma_total_units_frame(before, after, rest);
        assert(after[order[0]].len() == before[order[0]].len());
    }
}

/// Listing one more object in front adds its size to the sum.
pub proof fn lemma_total_units_push_front(objects: Map<u64, Seq<u64>>, order: Seq<u64>, r: u64)
    ensures
        total_units(objects, seq![r] + order) == objects[r].len() + total_units(objects, order),
{
    let longer = seq![r] + order;
    assert(longer.skip(1) =~= order);
}

/// Dropping the object at position `i` takes its size off the sum.
pub proof fn lemma_total_units_remove(objects: Map<u64, Seq<u64>>, order: Seq<u64>, i: int)
    requires
        0 <= i < order.len(),
    ensures
        total_units(objects, order.remove(i)) == total_units(objects, order)
            - objects[order[i]].len(),
    decreases order.len(),
{
    if i == 0 {
        assert(order.remove(0) =~= order.skip(1));
    } else {
        let rest = order.skip(1);
        lemma_total_units_remove(objects, rest, i - 1);
        assert(order.remove(i).skip(1) =~= rest.remove(i - 1));
        assert(order.remove(i)[0] == order[0]);
        assert(rest[i - 1] == order[i]);
    }
}

/// The objects that a predicate selects take no more space than all.
pub proof fn lemma_total_units_filter(
    objects: Map<u64, Seq<u64>>,
    order: Seq<u64>,
    p: spec_fn(u64) -> bool,
)
    ensures
        0 <= total_units(objects, order.filter(p)) <= total_units(objects, order),
    decreases order.len(),
{
    lemma_total_units_nonnegative(objects, order.filter(p));
    if order.len() == 0 {
        reveal(Seq::filter);
    } else {
        let rest = order.skip(1);
        assert(order =~= seq![order[0]] + rest);
        rest.lemma_filter_prepend(order[0], p);
        lemma_total_units_filter(objects, rest, p);
        if p(order[0]) {
            lemma_total_units_push_front(objects, rest.filter(p), order[0]);
        } else {
            assert(Seq::<u64>::empty() + rest.filter(p) =~= rest.filter(p));
        }
    }
}

} // verus!
