//! The object store: zero-filled blocks of 8-byte words, each known by a
//! non-null reference. A block is what the host allocator would hand out
//! for one object; the store says nothing about what the words mean.

use vstd::prelude::*;

verus! {

/// A store of word blocks addressed by reference.
pub struct Heap {
    /// Block `r` lives in slot `r - 1`; a released slot is empty.
    slots: Vec<Option<Vec<u64>>>,
    /// Indices of the empty slots, each once.
    free: Vec<usize>,
}

/// A sequence of `units` zero words.
pub open spec fn zeros(units: int) -> Seq<u64> {
    Seq::new(units as nat, |i: int| 0u64)
}

/// Builds a block of `units` zero words.
pub fn zeroed(units: usize) -> (words: Vec<u64>)
    ensures
        words@ == zeros(units as int),
{
    let mut words: Vec<u64> = Vec::new();
    let mut i: usize = 0;
    while i < units
        invariant
            i <= units,
            words@ == zeros(i as int),
        decreases units - i,
    {
        words.push(0);
        i += 1;
        assert(words@ =~= zeros(i as int));
    }
    words
}

/// The references `1..=n`.
spec fn references_up_to(n: nat) -> Set<u64> {
    Set::new(|r: u64| 1 <= r <= n)
}

/// There are finitely many references up to `n`.
proof fn lemma_references_finite(n: nat)
    ensures
        references_up_to(n).finite(),
    decreases n,
{
    if n == 0 {
        assert(references_up_to(n) =~= Set::<u64>::empty());
    } else {
        lemma_references_finite((n - 1) as nat);
        if n <= u64::MAX {
            assert(references_up_to(n) =~= references_up_to((n - 1) as nat).insert(n as u64));
        } else {
            assert(references_up_to(n) =~= references_up_to((n - 1) as nat));
        }
    }
}

impl Heap {
    /// The blocks of the store by reference.
    pub closed spec fn view(&self) -> Map<u64, Seq<u64>> {
        Map::new(
            |r: u64| 1 <= r <= self.slots@.len() && self.slots@[r - 1] is Some,
            |r: u64| self.slots@[r - 1]->0@,
        )
    }

    /// The bookkeeping of empty slots is consistent.
    pub closed spec fn wf(&self) -> bool {
        &&& forall|k: int|
            0 <= k < self.free@.len() ==> (#[trigger] self.free@[k]) < self.slots@.len()
                && self.slots@[self.free@[k] as int] is None
        &&& forall|j: int, k: int|
            0 <= j < k < self.free@.len() ==> self.free@[j] != self.free@[k]
    }

    /// No block has the null reference, there are finitely many blocks, and
    /// every block fits in memory.
    pub proof fn lemma_view(&self)
        ensures
            !self@.dom().contains(0),
            self@.dom().finite(),
            forall|r: u64| #[trigger] self@.dom().contains(r) ==> self@[r].len() <= usize::MAX,
    {
        let n = self.slots@.len();
        lemma_references_finite(n);
        vstd::set_lib::lemma_len_subset(self@.dom(), references_up_to(n));
        assert forall|r: u64| #[trigger] self@.dom().contains(r) implies self@[r].len()
            <= usize::MAX by {
            let block = self.slots@[r - 1]->0;
            assert(block.len() == block@.len());
        }
    }

    /// An empty store.
    pub fn new() -> (heap: Heap)
        ensures
            heap.wf(),
            heap@ == Map::<u64, Seq<u64>>::empty(),
    {
        let heap = Heap { slots: Vec::new(), free: Vec::new() };
        assert(heap@ =~= Map::<u64, Seq<u64>>::empty());
        heap
    }

    /// Whether `r` refers to a block.
    pub fn contains(&self, r: u64) -> (found: bool)
        ensures
            found == self@.dom().contains(r),
    {
        assert(self.slots.len() == self.slots@.len());
        if r == 0 || r > self.slots.len() as u64 {
            false
        } else {
            self.slots[(r - 1) as usize].is_some()
        }
    }

    /// Number of words in block `r`.
    pub fn block_len(&self, r: u64) -> (units: usize)
        requires
            self@.dom().contains(r),
        ensures
            units == self@[r].len(),
    {
        assert(self.slots.len() == self.slots@.len());
        match &self.slots[(r - 1) as usize] {
            Some(block) => block.len(),
            None => 0,
        }
    }

    /// Loads word `index` of block `r`.
    pub fn load(&self, r: u64, index: usize) -> (word: u64)
        requires
            self@.dom().contains(r),
            index < self@[r].len(),
        ensures
            word == self@[r][index as int],
    {
        assert(self.slots.len() == self.slots@.len());
        match &self.slots[(r - 1) as usize] {
            Some(block) => block[index],
            None => 0,
        }
    }

    /// Stores `word` into word `index` of block `r`.
    pub fn store(&mut self, r: u64, index: usize, word: u64)
        requires
            old(self).wf(),
            old(self)@.dom().contains(r),
            index < old(self)@[r].len(),
        ensures
            final(self).wf(),
            final(self)@ == old(self)@.insert(r, old(self)@[r].update(index as int, word)),
    {
        assert(self.slots.len() == self.slots@.len());
        match &mut self.slots[(r - 1) as usize] {
            Some(block) => {
                block[index] = word;
            },
            None => {},
        }
        assert(self@ =~= old(self)@.insert(r, old(self)@[r].update(index as int, word)));
    }

    /// Hands out a fresh block of `units` zero words and its reference.
    pub fn allocate(&mut self, units: usize) -> (r: u64)
        requires
            old(self).wf(),
        ensures
            final(self).wf(),
            r != 0,
            !old(self)@.dom().contains(r),
            final(self)@ == old(self)@.insert(r, zeros(units as int)),
    {
        let block = zeroed(units);
        assert(self.slots.len() == self.slots@.len());
        match self.free.pop() {
            Some(index) => {
                self.slots[index] = Some(block);
                let r: u64 = index as u64 + 1;
                assert(self@ =~= old(self)@.insert(r, zeros(units as int)));
                r
            },
            None => {
                self.slots.push(Some(block));
                let r: u64 = self.slots.len() as u64;
                assert(self@ =~= old(self)@.insert(r, zeros(units as int)));
                r
            },
        }
    }

    /// Gives block `r` of `units` words back; its reference refers to
    /// nothing afterwards.
    pub fn release(&mut self, r: u64, units: usize)
        requires
            old(self).wf(),
            old(self)@.dom().contains(r),
            units == old(self)@[r].len(),
        ensures
            final(self).wf(),
            final(self)@ == old(self)@.remove(r),
    {
        assert(self.slots.len() == self.slots@.len());
        let index: usize = (r - 1) as usize;
        self.slots[index] = None;
        self.free.push(index);
        assert(self@ =~= old(self)@.remove(r));
    }
}

} // verus!
