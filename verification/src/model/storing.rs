//! What a store into an object by the mutator does to the state.

use crate::model::accounting::lemma_total_units_frame;
use crate::model::{block_wf, payload_start, successor, State};
use crate::object::OBJECT_HEADER_WORDS;
use vstd::prelude::*;

verus! {

/// New storage for an object keeps the state well formed if it is as long
/// as the old and has the same header.
pub proof fn lemma_payload_change_wf(s: State, r: u64, words: Seq<u64>)
    requires
        s.wf_collecting(),
        s.is_object(r),
        words.len() == s.objects[r].len(),
        forall|k: int|
            0 <= k < payload_start(s.prototype_of(r)) ==> words[k] == (
            #[trigger] s.objects[r][k]),
    ensures
        (State { objects: s.objects.insert(r, words), ..s }).wf_collecting(),
        s.all_unmarked() ==> (State { objects: s.objects.insert(r, words), ..s }).all_unmarked(),
{
    let t = State { objects: s.objects.insert(r, words), ..s };
    assert(t.objects.dom() =~= s.objects.dom());
    assert(words[0] == s.objects[r][0]);
    assert(words[1] == s.objects[r][1]);
    assert(words[2] == s.objects[r][2]);
    if s.prototype_of(r).size < 0 {
        assert(words[3] == s.objects[r][3]);
    }
    assert forall|k: int| 0 <= k < t.order.len() implies t.header(t.order[k]).gc_next
        == #[trigger] successor(t.order, k) by {
        assert(s.order.contains(s.order[k]));
        assert(s.header(s.order[k]).gc_next == successor(s.order, k));
    }
    assert forall|x: u64| #[trigger] t.is_object(x) implies t.objects[x].len()
        >= OBJECT_HEADER_WORDS && t.header(x).prototype < t.prototypes.len() && block_wf(
        t.prototype_of(x),
        t.objects[x],
    ) by {
        assert(s.is_object(x));
    }
    assert forall|k: int| 0 <= k < s.order.len() implies (#[trigger] t.objects[s.order[k]]).len()
        == s.objects[s.order[k]].len() by {
        assert(s.order.contains(s.order[k]));
    }
    lemma_total_units_frame(s.objects, t.objects, s.order);
    if s.all_unmarked() {
        assert forall|x: u64| #[trigger] t.is_object(x) implies t.header(x).gc_is_marked
            == 0 by {
            assert(s.is_object(x));
        }
    }
}

/// A store into a slot behind the header keeps the state well formed.
pub proof fn lemma_with_slot_wf(s: State, r: u64, i: int, value: u64)
    requires
        s.wf_collecting(),
        s.is_object(r),
        0 <= i < s.slot_count(r),
    ensures
        s.with_slot(r, i, value).wf_collecting(),
        s.all_unmarked() ==> s.with_slot(r, i, value).all_unmarked(),
        s.with_slot(r, i, value).slot(r, i) == value,
        s.with_slot(r, i, value).slot_count(r) == s.slot_count(r),
{
    lemma_payload_change_wf(
        s,
        r,
        s.objects[r].update(payload_start(s.prototype_of(r)) + i, value),
    );
}

} // verus!
