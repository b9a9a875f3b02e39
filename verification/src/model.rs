//! The mathematical state of the runtime and what it means for that state
//! to be well formed. Everything here and below is specification and
//! proof: the executable runtime is proved against it.

use crate::bitmap::bit_at;
use crate::graph::Graph;
use crate::layout::{object_bytes, object_units};
use crate::object::{
    ArrayObject, InitParam, Object, Prototype, Type, ARRAY_HEADER_WORDS, LEN_WORD, NULL,
    OBJECT_HEADER_WORDS, PROTOTYPE_WORD,
};
use vstd::prelude::*;

pub mod accounting;
pub mod collecting;
pub mod marking;
pub mod storing;
pub mod sweeping;

verus! {

/// The element count that the storage `words` of an instance of `p` records;
/// zero for an ordinary object, which records none.
pub open spec fn stored_len(p: Prototype, words: Seq<u64>) -> int {
    if p.size < 0 {
        words[LEN_WORD as int] as int
    } else {
        0
    }
}

/// The storage `words` has exactly the size of an instance of `p`.
pub open spec fn block_wf(p: Prototype, words: Seq<u64>) -> bool {
    &&& words.len() >= OBJECT_HEADER_WORDS
    &&& p.size < 0 ==> words.len() >= ARRAY_HEADER_WORDS
    &&& object_bytes(p.size as int, stored_len(p, words)) <= usize::MAX
    &&& words.len() == object_units(p.size as int, stored_len(p, words))
}

/// The references that an instance of `p` with storage `words` holds, slot
/// by slot; a slot that holds no reference counts as null.
pub open spec fn references_of(p: Prototype, words: Seq<u64>) -> Seq<u64> {
    match p.type_tag {
        Type::Other => Seq::new(
            (p.size / 8) as nat,
            |i: int|
                if bit_at(p.reference_bitmap@, i) {
                    words[OBJECT_HEADER_WORDS + i]
                } else {
                    NULL
                },
        ),
        Type::ObjList => Seq::new(
            words[LEN_WORD as int] as nat,
            |i: int| words[ARRAY_HEADER_WORDS + i],
        ),
        _ => Seq::empty(),
    }
}

/// Number of words that the header of an instance of `p` takes.
pub open spec fn payload_start(p: Prototype) -> int {
    if p.size < 0 {
        ARRAY_HEADER_WORDS as int
    } else {
        OBJECT_HEADER_WORDS as int
    }
}

/// What follows position `i` in the list `order`: the next object, or null
/// at the end.
pub open spec fn successor(order: Seq<u64>, i: int) -> u64 {
    if i + 1 < order.len() {
        order[i + 1]
    } else {
        NULL
    }
}

/// Sum of the sizes, in allocation units, of the objects listed in `order`.
pub open spec fn total_units(objects: Map<u64, Seq<u64>>, order: Seq<u64>) -> int
    decreases order.len(),
{
    if order.len() == 0 {
        0
    } else {
        objects[order[0]].len() + total_units(objects, order.skip(1))
    }
}

/// The state of the runtime as contracts see it.
pub struct State {
    /// The registered prototypes; a prototype reference is an index here.
    pub prototypes: Seq<Prototype>,
    /// The storage of every allocated object, by reference.
    pub objects: Map<u64, Seq<u64>>,
    /// The allocated objects in the order of the object list.
    pub order: Seq<u64>,
    /// The head of the object list, null when the list is empty.
    pub head: u64,
    /// The allocation units in use.
    pub allocated: usize,
    /// The allocation units at which the next allocation collects first.
    pub threshold: usize,
    /// The installed initialisation descriptor, if any.
    pub descriptor: Option<InitParam>,
}

impl State {
    /// Whether `r` refers to an allocated object.
    #[verifier::inline]
    pub open spec fn is_object(self, r: u64) -> bool {
        self.objects.dom().contains(r)
    }

    /// The header of object `r`.
    #[verifier::inline]
    pub open spec fn header(self, r: u64) -> Object {
        Object::decode(self.objects[r])
    }

    /// The header of array object `r`.
    #[verifier::inline]
    pub open spec fn array_header(self, r: u64) -> ArrayObject {
        ArrayObject::decode(self.objects[r])
    }

    /// The prototype of object `r`.
    #[verifier::inline]
    pub open spec fn prototype_of(self, r: u64) -> Prototype {
        self.prototypes[self.objects[r][PROTOTYPE_WORD as int] as int]
    }

    /// Whether the current collection has reached object `r`.
    #[verifier::inline]
    pub open spec fn is_marked(self, r: u64) -> bool {
        self.header(r).gc_is_marked == 1
    }

    /// The objects that the current collection has reached.
    pub open spec fn marked(self) -> Set<u64> {
        Set::new(|r: u64| self.is_object(r) && self.is_marked(r))
    }

    /// The objects that the current collection has not reached.
    pub open spec fn unmarked(self) -> Set<u64> {
        Set::new(|r: u64| self.is_object(r) && !self.is_marked(r))
    }

    /// The heap as a graph: every object with the references it holds.
    pub open spec fn graph(self) -> Graph {
        Map::new(
            |r: u64| self.is_object(r),
            |r: u64| references_of(self.prototype_of(r), self.objects[r]),
        )
    }

    /// The object list is intact: it holds every allocated object once, it
    /// starts at the head, each object links to the one after it, and the
    /// last links to null. Null is no object.
    pub open spec fn list_wf(self) -> bool {
        &&& !self.is_object(NULL)
        &&& self.order.no_duplicates()
        &&& forall|r: u64| self.is_object(r) <==> self.order.contains(r)
        &&& self.head == if self.order.len() == 0 {
            NULL
        } else {
            self.order[0]
        }
        &&& forall|i: int|
            0 <= i < self.order.len() ==> self.header(self.order[i]).gc_next
                == #[trigger] successor(self.order, i)
    }

    /// Every allocated object has a registered prototype and exactly the
    /// storage that its prototype and length call for.
    pub open spec fn blocks_wf(self) -> bool {
        forall|r: u64| #[trigger]
            self.is_object(r) ==> self.objects[r].len() >= OBJECT_HEADER_WORDS
                && self.header(r).prototype < self.prototypes.len() && block_wf(
                self.prototype_of(r),
                self.objects[r],
            )
    }

    /// Every registered prototype is well formed.
    pub open spec fn prototypes_wf(self) -> bool {
        forall|p: int| 0 <= p < self.prototypes.len() ==> (#[trigger] self.prototypes[p]).wf()
    }

    /// The space in use is the sum of the sizes of the allocated objects.
    pub open spec fn accounting_wf(self) -> bool {
        self.allocated == total_units(self.objects, self.order)
    }

    /// What holds of the state at all times, also during a collection.
    pub open spec fn wf_collecting(self) -> bool {
        &&& self.list_wf()
        &&& self.blocks_wf()
        &&& self.prototypes_wf()
        &&& self.accounting_wf()
    }

    /// No object is marked.
    pub open spec fn all_unmarked(self) -> bool {
        forall|r: u64| #[trigger] self.is_object(r) ==> self.header(r).gc_is_marked == 0
    }

    /// What holds of the state outside a collection.
    pub open spec fn wf(self) -> bool {
        &&& self.wf_collecting()
        &&& self.all_unmarked()
    }

    /// Every reference held in a reference slot of an object is null or
    /// refers to an allocated object.
    pub open spec fn references_valid(self) -> bool {
        crate::graph::references_valid(self.graph())
    }

    /// Number of 8-byte slots that follow the header of object `r`.
    pub open spec fn slot_count(self, r: u64) -> int {
        self.objects[r].len() - payload_start(self.prototype_of(r))
    }

    /// The word in slot `i` of object `r`, counting from the end of the
    /// header: attribute `i` of an ordinary object, element `i` of a list
    /// of references.
    pub open spec fn slot(self, r: u64, i: int) -> u64 {
        self.objects[r][payload_start(self.prototype_of(r)) + i]
    }

    /// The state with `value` stored in slot `i` of object `r`.
    pub open spec fn with_slot(self, r: u64, i: int, value: u64) -> State {
        State {
            objects: self.objects.insert(
                r,
                self.objects[r].update(payload_start(self.prototype_of(r)) + i, value),
            ),
            ..self
        }
    }

    /// Whether slot `i` of object `r` holds a reference: an attribute slot
    /// that the prototype's bitmap marks, or an element of a list of
    /// references.
    pub open spec fn is_reference_slot(self, r: u64, i: int) -> bool {
        match self.prototype_of(r).type_tag {
            Type::Other => 0 <= i < self.prototype_of(r).size / 8 && bit_at(
                self.prototype_of(r).reference_bitmap@,
                i,
            ),
            Type::ObjList => 0 <= i < self.array_header(r).len,
            _ => false,
        }
    }

    /// The references that object `r` holds, slot by slot.
    #[verifier::inline]
    pub open spec fn references(self, r: u64) -> Seq<u64> {
        references_of(self.prototype_of(r), self.objects[r])
    }

    /// The part of the heap graph that the current collection has not
    /// reached: every unmarked object with the references it holds.
    pub open spec fn unmarked_graph(self) -> Graph {
        self.graph().restrict(self.unmarked())
    }
}

/// The reference slots of a well-formed object lie inside its storage.
pub proof fn lemma_reference_slots_in_bounds(p: Prototype, words: Seq<u64>)
    requires
        p.wf(),
        block_wf(p, words),
    ensures
        p.type_tag == Type::Other ==> OBJECT_HEADER_WORDS + p.size / 8 <= words.len(),
        p.type_tag == Type::ObjList ==> ARRAY_HEADER_WORDS + words[LEN_WORD as int]
            <= words.len(),
        references_of(p, words).len() + OBJECT_HEADER_WORDS <= words.len(),
{
    if p.type_tag == Type::ObjList {
        let stride = -(p.size as int);
        let count = words[LEN_WORD as int] as int;
        assert(stride * count >= 8 * count) by (nonlinear_arith)
            requires
                stride >= 8,
                count >= 0,
        ;
    }
}

} // verus!
