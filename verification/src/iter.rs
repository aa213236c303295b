//! Walking the elements of a slab from either end.

use vstd::prelude::*;
use crate::model::Slot;
use crate::slab::Slab;

verus! {

/// A walk over the elements of a slab, front to back from one end and back
/// to front from the other. Its view is the sequence of elements that it has
/// yet to yield, front to back.
pub struct SlabIterator<'a, D> {
    list: &'a Slab<D>,
    /// The slot that `next` yields, while anything is left.
    front: Slot,
    /// The slot that `next_back` yields, while anything is left.
    back: Slot,
    /// How many elements are left.
    remaining: usize,
    /// Where `front` stands in the order of the slab.
    start: Ghost<int>,
}

impl<'a, D> View for SlabIterator<'a, D> {
    type V = Seq<D>;

    closed spec fn view(&self) -> Seq<D> {
        self.list@.elements().subrange(self.start@, self.start@ + self.remaining)
    }
}

impl<'a, D> SlabIterator<'a, D> {
    /// The walk stands inside a slab that is in order.
    pub closed spec fn wf(&self) -> bool {
        let order = self.list@.order;
        &&& self.list.wf()
        &&& 0 <= self.start@
        &&& self.start@ + self.remaining <= order.len()
        &&& self.remaining > 0 ==> self.front == order[self.start@] && self.back
            == order[self.start@ + self.remaining - 1]
    }

    /// Yields the front element of what is left, or `None` at the end.
    pub fn next(&mut self) -> (r: Option<&'a D>)
        requires
            old(self).wf(),
        ensures
            final(self).wf(),
            match r {
                Some(v) => old(self)@.len() > 0 && *v == old(self)@.first() && final(self)@
                    == old(self)@.drop_first(),
                None => old(self)@.len() == 0 && final(self)@ == old(self)@,
            },
    {
        if self.remaining == 0 {
            return None;
        }
        let slot = self.front;
        proof {
            assert(self.list@.order[self.start@] == slot);
            self.list@.lemma_index_of_live(slot);
        }
        let value = &self.list[slot];
        self.front = self.list.slot_after(slot);
        self.remaining = self.remaining - 1;
        self.start = Ghost(self.start@ + 1);
        Some(value)
    }

    /// Yields the back element of what is left, or `None` at the end.
    pub fn next_back(&mut self) -> (r: Option<&'a D>)
        requires
            old(self).wf(),
        ensures
            final(self).wf(),
            match r {
                Some(v) => old(self)@.len() > 0 && *v == old(self)@.last() && final(self)@ == old(
                    self,
                )@.drop_last(),
                None => old(self)@.len() == 0 && final(self)@ == old(self)@,
            },
    {
        if self.remaining == 0 {
            return None;
        }
        let slot = self.back;
        proof {
            assert(self.list@.order[self.start@ + self.remaining - 1] == slot);
            self.list@.lemma_index_of_live(slot);
        }
        let value = &self.list[slot];
        self.back = self.list.slot_before(slot);
        self.remaining = self.remaining - 1;
        Some(value)
    }

    /// The number of elements left.
    pub fn len(&self) -> (n: usize)
        requires
            self.wf(),
        ensures
            n == self@.len(),
    {
        self.remaining
    }
}

impl<D> Slab<D> {
    /// A walk over all the elements, which starts at the front.
    pub fn iter(&self) -> (it: SlabIterator<'_, D>)
        requires
            self.wf(),
        ensures
            it.wf(),
            it@ == self@.elements(),
    {
        SlabIterator {
            list: self,
            front: self.front_slot(),
            back: self.back_slot(),
            remaining: self.len(),
            start: Ghost(0),
        }
    }
}

} // verus!
