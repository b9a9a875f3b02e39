//! The executable state of the runtime: the registered prototypes, the
//! object store, the head of the object list and the space accounting.

use crate::bitmap::test_bit;
use crate::heap::Heap;
use crate::layout::{
    calculate_size, object_bytes, object_units, ARRAY_HEADER_SIZE, OBJECT_HEADER_SIZE,
};
use crate::model::storing::lemma_with_slot_wf;
use crate::model::{payload_start, successor, State};
use crate::object::{
    ArrayObject, InitParam, Object, Prototype, Type, ARRAY_HEADER_WORDS, LEN_WORD, MARK_WORD,
    NEXT_WORD, NULL, OBJECT_HEADER_WORDS, PROTOTYPE_WORD,
};
use vstd::prelude::*;

pub mod allocator;
pub mod builtins;
pub mod collector;
pub mod sweeper;
pub mod tracer;

verus! {

/// Allocation units that may be in use before the first collection.
pub const INITIAL_THRESHOLD: usize = 1024;

/// The runtime state of one mutator.
pub struct Runtime {
    /// The registered prototypes; a prototype reference is an index here.
    prototypes: Vec<Prototype>,
    /// The storage of the allocated objects.
    heap: Heap,
    /// The initialisation descriptor, once it has been installed.
    init_param: Option<InitParam>,
    /// The head of the list of all allocated objects.
    gc_head: u64,
    /// Allocation units in use.
    current_space: usize,
    /// Allocation units at which the next allocation collects first.
    threshold_space: usize,
    /// The allocated objects in list order, first the head.
    order: Ghost<Seq<u64>>,
}

impl View for Runtime {
    type V = State;

    closed spec fn view(&self) -> State {
        State {
            prototypes: self.prototypes@,
            objects: self.heap@,
            order: self.order@,
            head: self.gc_head,
            allocated: self.current_space,
            threshold: self.threshold_space,
            descriptor: self.init_param,
        }
    }
}

impl Runtime {
    /// The object store's own bookkeeping is consistent.
    pub closed spec fn store_wf(&self) -> bool {
        self.heap.wf()
    }

    /// What holds of the runtime at all times, also during a collection.
    pub open spec fn wf_collecting(&self) -> bool {
        self.store_wf() && self@.wf_collecting()
    }

    /// What holds of the runtime outside a collection.
    pub open spec fn wf(&self) -> bool {
        self.store_wf() && self@.wf()
    }

    /// A runtime with no prototypes, no objects and no descriptor.
    pub fn new() -> (rt: Runtime)
        ensures
            rt.wf(),
            rt@ == (State {
                prototypes: Seq::empty(),
                objects: Map::empty(),
                order: Seq::empty(),
                head: NULL,
                allocated: 0,
                threshold: INITIAL_THRESHOLD,
                descriptor: None,
            }),
    {
        Runtime {
            prototypes: Vec::new(),
            heap: Heap::new(),
            init_param: None,
            gc_head: NULL,
            current_space: 0,
            threshold_space: INITIAL_THRESHOLD,
            order: Ghost(Seq::empty()),
        }
    }

    /// Makes `prototype` known to the runtime and returns the reference by
    /// which objects name it.
    pub fn register_prototype(&mut self, prototype: Prototype) -> (p: u64)
        requires
            old(self).wf(),
            prototype.wf(),
        ensures
            final(self).wf(),
            p == old(self)@.prototypes.len(),
            final(self)@ == (State {
                prototypes: old(self)@.prototypes.push(prototype),
                ..old(self)@
            }),
    {
        let p: usize = self.prototypes.len();
        self.prototypes.push(prototype);
        p as u64
    }

    /// The head of the object list.
    pub fn gc_head(&self) -> (head: u64)
        ensures
            head == self@.head,
    {
        self.gc_head
    }

    /// The allocation units in use.
    pub fn current_space(&self) -> (units: usize)
        ensures
            units == self@.allocated,
    {
        self.current_space
    }

    /// The allocation units at which the next allocation collects first.
    pub fn threshold_space(&self) -> (units: usize)
        ensures
            units == self@.threshold,
    {
        self.threshold_space
    }

    /// Whether `r` refers to an allocated object.
    pub fn contains(&self, r: u64) -> (found: bool)
        ensures
            found == self@.is_object(r),
    {
        self.heap.contains(r)
    }

    /// Whether a descriptor has been installed.
    pub fn is_initialized(&self) -> (installed: bool)
        ensures
            installed == self@.descriptor.is_some(),
    {
        self.init_param.is_some()
    }

    /// The header of object `r`.
    pub fn object(&self, r: u64) -> (header: Object)
        requires
            self.wf_collecting(),
            self@.is_object(r),
        ensures
            header == self@.header(r),
    {
        assert(self@.objects.dom().contains(r));
        Object {
            prototype: self.heap.load(r, PROTOTYPE_WORD),
            gc_is_marked: (self.heap.load(r, MARK_WORD) % 256) as u8,
            gc_next: self.heap.load(r, NEXT_WORD),
        }
    }

    /// The header of array object `r`.
    pub fn array_object(&self, r: u64) -> (header: ArrayObject)
        requires
            self.wf_collecting(),
            self@.is_object(r),
            self@.prototype_of(r).size < 0,
        ensures
            header == self@.array_header(r),
    {
        assert(self@.objects.dom().contains(r));
        ArrayObject { object: self.object(r), len: self.heap.load(r, LEN_WORD) }
    }

    /// The allocated objects in list order: follows the links from the head
    /// until null.
    pub fn object_list(&self) -> (list: Vec<u64>)
        requires
            self.wf_collecting(),
        ensures
            list@ == self@.order,
    {
        let mut list: Vec<u64> = Vec::new();
        let mut cursor = self.gc_head;
        while cursor != NULL
            invariant
                self.wf_collecting(),
                list@.len() <= self@.order.len(),
                list@ == self@.order.take(list@.len() as int),
                cursor == if list@.len() < self@.order.len() {
                    self@.order[list@.len() as int]
                } else {
                    NULL
                },
            decreases self@.order.len() - list@.len(),
        {
            let ghost i = list@.len() as int;
            proof {
                assert(self@.order.contains(self@.order[i]));
                assert(self@.objects.dom().contains(cursor));
                assert(self@.header(self@.order[i]).gc_next == successor(self@.order, i));
            }
            list.push(cursor);
            cursor = self.heap.load(cursor, NEXT_WORD);
            assert(list@ =~= self@.order.take(i + 1));
        }
        proof {
            if list@.len() < self@.order.len() {
                assert(self@.order.contains(self@.order[list@.len() as int]));
            }
            assert(list@ =~= self@.order);
        }
        list
    }

    /// Number of words that the header of object `r` takes.
    pub fn header_words(&self, r: u64) -> (count: usize)
        requires
            self.wf_collecting(),
            self@.is_object(r),
        ensures
            count == payload_start(self@.prototype_of(r)),
    {
        assert(self@.objects.dom().contains(r));
        assert(self.prototypes.len() == self.prototypes@.len());
        let p = self.heap.load(r, PROTOTYPE_WORD);
        if self.prototypes[p as usize].size < 0 {
            ARRAY_HEADER_WORDS
        } else {
            OBJECT_HEADER_WORDS
        }
    }

    /// Number of 8-byte slots that follow the header of object `r`.
    pub fn slot_count(&self, r: u64) -> (count: usize)
        requires
            self.wf_collecting(),
            self@.is_object(r),
        ensures
            count == self@.slot_count(r),
    {
        assert(self@.objects.dom().contains(r));
        assert(self.prototypes.len() == self.prototypes@.len());
        let p = self.heap.load(r, PROTOTYPE_WORD);
        if self.prototypes[p as usize].size < 0 {
            self.heap.block_len(r) - ARRAY_HEADER_WORDS
        } else {
            self.heap.block_len(r) - OBJECT_HEADER_WORDS
        }
    }

    /// Whether slot `i` of object `r` holds a reference.
    pub fn holds_reference(&self, r: u64, i: usize) -> (found: bool)
        requires
            self.wf_collecting(),
            self@.is_object(r),
        ensures
            found == self@.is_reference_slot(r, i as int),
    {
        assert(self@.objects.dom().contains(r));
        assert(self.prototypes.len() == self.prototypes@.len());
        let p = self.heap.load(r, PROTOTYPE_WORD);
        let prototype = &self.prototypes[p as usize];
        match prototype.type_tag {
            Type::Other => {
                assert(prototype.reference_bitmap.len() == prototype.reference_bitmap@.len());
                (i as u64) < Prototype::attribute_slots(prototype.size) && test_bit(
                    &prototype.reference_bitmap,
                    i as u64,
                )
            },
            Type::ObjList => (i as u64) < self.heap.load(r, LEN_WORD),
            _ => false,
        }
    }

    /// Loads slot `i` of object `r`: attribute `i` of an ordinary object,
    /// element `i` of a list of references.
    pub fn read_slot(&self, r: u64, i: usize) -> (word: u64)
        requires
            self.wf_collecting(),
            self@.is_object(r),
            i < self@.slot_count(r),
        ensures
            word == self@.slot(r, i as int),
    {
        assert(self@.objects.dom().contains(r));
        assert(self.prototypes.len() == self.prototypes@.len());
        let p = self.heap.load(r, PROTOTYPE_WORD);
        if self.prototypes[p as usize].size < 0 {
            self.heap.load(r, ARRAY_HEADER_WORDS + i)
        } else {
            self.heap.load(r, OBJECT_HEADER_WORDS + i)
        }
    }

    /// Stores `value` into slot `i` of object `r`, as compiled code does
    /// when it assigns to an attribute or to a list element.
    pub fn write_slot(&mut self, r: u64, i: usize, value: u64)
        requires
            old(self).wf(),
            old(self)@.is_object(r),
            i < old(self)@.slot_count(r),
        ensures
            final(self).wf(),
            final(self)@ == old(self)@.with_slot(r, i as int, value),
    {
        assert(self@.objects.dom().contains(r));
        assert(self.prototypes.len() == self.prototypes@.len());
        proof {
            lemma_with_slot_wf(self@, r, i as int, value);
        }
        let p = self.heap.load(r, PROTOTYPE_WORD);
        if self.prototypes[p as usize].size < 0 {
            self.heap.store(r, ARRAY_HEADER_WORDS + i, value);
        } else {
            self.heap.store(r, OBJECT_HEADER_WORDS + i, value);
        }
    }

    /// The installed initialisation descriptor, if any.
    pub fn init_param(&self) -> (descriptor: &Option<InitParam>)
        ensures
            *descriptor == self@.descriptor,
    {
        &self.init_param
    }

    /// Whether an instance of prototype `p` with `len` elements can be
    /// allocated without leaving the range of the machine's integers: its
    /// size in bytes can be counted, and twice the space in use after the
    /// allocation can be.
    pub fn has_room(&self, p: u64, len: u64) -> (ok: bool)
        requires
            p < self@.prototypes.len(),
        ensures
            ok <==> object_bytes(self@.prototypes[p as int].size as int, len as int)
                <= usize::MAX && 2 * (self@.allocated + object_units(
                self@.prototypes[p as int].size as int,
                len as int,
            )) <= usize::MAX,
    {
        assert(self.prototypes.len() == self.prototypes@.len());
        let size = self.prototypes[p as usize].size;
        let bytes: u128 = if size >= 0 {
            OBJECT_HEADER_SIZE as u128 + size as u128
        } else {
            let stride: u128 = (-(size as i64)) as u128;
            assert(stride * len <= 0x8000_0000 * 0xffff_ffff_ffff_ffff) by (nonlinear_arith)
                requires
                    0 <= stride <= 0x8000_0000,
                    0 <= len <= 0xffff_ffff_ffff_ffff,
            ;
            ARRAY_HEADER_SIZE as u128 + stride * (len as u128)
        };
        if bytes > usize::MAX as u128 {
            return false;
        }
        let units = calculate_size(size, len);
        2 * (self.current_space as u128 + units as u128) <= usize::MAX as u128
    }

    /// The prototype that `p` refers to.
    pub fn prototype(&self, p: u64) -> (prototype: &Prototype)
        requires
            p < self@.prototypes.len(),
        ensures
            *prototype == self@.prototypes[p as int],
    {
        assert(self.prototypes.len() == self.prototypes@.len());
        &self.prototypes[p as usize]
    }
}

} // verus!
