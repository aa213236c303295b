//! Building a slab from a sequence and adding a sequence to one. Both are
//! made of the single-element operations; a slab by itself never grows.

use vstd::prelude::*;
use crate::error::Error;
use crate::model::{SlabView, NUL};
use crate::slab::Slab;

verus! {

/// The capacity that doubling reaches from `start` once `needed` elements
/// fit. Nothing doubles out of zero.
pub open spec fn grown_capacity(start: nat, needed: nat) -> nat
    decreases
        (if start < needed {
            needed - start
        } else {
            0
        }),
{
    if start == 0 || start >= needed {
        start
    } else {
        grown_capacity(2 * start, needed)
    }
}

/// Doubling never shrinks.
pub proof fn lemma_grown_capacity_bounds(start: nat, needed: nat)
    ensures
        grown_capacity(start, needed) >= start,
        start > 0 ==> grown_capacity(start, needed) >= needed,
    decreases
        (if start < needed {
            needed - start
        } else {
            0
        }),
{
    if !(start == 0 || start >= needed) {
        lemma_grown_capacity_bounds(2 * start, needed);
    }
}

impl<D> Slab<D> {
    /// Moves every element into a new slab of `capacity` slots, back
    /// element first, so that the elements keep their order and sit in the
    /// slots `0, 1, ..` from the back. A capacity too small for the elements
    /// is refused (`Full`), and so is one that reaches the "no slot" marker
    /// (`TooLarge`).
    pub fn migrate(self, capacity: usize) -> (r: Result<Self, Error>)
        requires
            self.wf(),
        ensures
            match r {
                Ok(s) => {
                    &&& self@.order.len() <= capacity < NUL
                    &&& s.wf()
                    &&& s@ == SlabView::packed(capacity as nat, self@.elements().reverse())
                },
                Err(e) => if capacity < self@.order.len() {
                    e == Error::Full
                } else {
                    capacity >= NUL && e == Error::TooLarge
                },
            },
    {
        if capacity < self.len() {
            return Err(Error::Full);
        }
        let mut target = match Self::with_capacity(capacity) {
            Ok(s) => s,
            Err(e) => {
                return Err(e);
            },
        };
        let mut source = self;
        let ghost all = self@.elements();
        let ghost moved = Seq::<D>::empty();
        while !source.is_empty()
            invariant
                capacity < NUL,
                all.len() <= capacity,
                source.wf(),
                target.wf(),
                source@.order.len() <= all.len(),
                source@.elements() == all.take(source@.order.len() as int),
                moved.len() == all.len() - source@.order.len(),
                forall|i: int| 0 <= i < moved.len() ==> moved[i] == all[all.len() - 1 - i],
                target@ == SlabView::packed(capacity as nat, moved),
            decreases source@.order.len(),
        {
            proof {
                source@.lemma_pop_back_elements();
            }
            let value = source.pop_back().unwrap();
            proof {
                SlabView::lemma_packed(capacity as nat, moved);
                SlabView::fresh(capacity as nat).lemma_push_all_then_one(moved, value);
                SlabView::lemma_packed(capacity as nat, moved.push(value));
                moved = moved.push(value);
            }
            let _ = target.push_front(value);
        }
        proof {
            assert(moved =~= all.reverse());
        }
        Ok(target)
    }

    /// Builds a slab that holds `items`, front to back in the order given.
    /// It starts with `estimate` slots and doubles them, moving the elements
    /// over, whenever the next element finds no room. No room can be made
    /// out of zero slots (`Full`), nor beyond the "no slot" marker
    /// (`TooLarge`).
    pub fn collect_from(estimate: usize, items: Vec<D>) -> (r: Result<Self, Error>)
        ensures
            match r {
                Ok(s) => {
                    &&& s.wf()
                    &&& s@ == SlabView::packed(
                        grown_capacity(estimate as nat, items@.len()),
                        items@.reverse(),
                    )
                    &&& s@.elements() == items@
                    &&& grown_capacity(estimate as nat, items@.len()) < NUL
                    &&& estimate > 0 || items@.len() == 0
                },
                Err(e) => if estimate == 0 {
                    items@.len() > 0 && e == Error::Full
                } else {
                    grown_capacity(estimate as nat, items@.len()) >= NUL && e == Error::TooLarge
                },
            },
    {
        let ghost all = items@;
        let ghost turned = items@.reverse();
        let ghost needed = items@.len();
        proof {
            lemma_grown_capacity_bounds(estimate as nat, needed);
        }
        let mut slab = match Self::with_capacity(estimate) {
            Ok(s) => s,
            Err(e) => {
                return Err(e);
            },
        };
        let mut rest = items;
        while rest.len() > 0
            invariant
                all == items@,
                needed == all.len(),
                turned == all.reverse(),
                slab.wf(),
                rest@.len() <= needed,
                rest@ == all.take(rest@.len() as int),
                needed - rest@.len() <= slab@.capacity,
                slab@ == SlabView::packed(slab@.capacity, turned.take(needed - rest@.len())),
                grown_capacity(slab@.capacity, needed) == grown_capacity(estimate as nat, needed),
                (estimate == 0) == (slab@.capacity == 0),
            decreases rest@.len(),
        {
            let ghost done = needed - rest@.len();
            let item = rest.pop().unwrap();
            if slab.is_full() {
                let capacity = slab.capacity();
                if capacity == 0 {
                    return Err(Error::Full);
                }
                proof {
                    lemma_grown_capacity_bounds(2 * capacity as nat, needed);
                }
                if capacity > (NUL as usize) / 2 {
                    return Err(Error::TooLarge);
                }
                proof {
                    SlabView::lemma_packed(capacity as nat, turned.take(done));
                }
                slab = match slab.migrate(capacity * 2) {
                    Ok(s) => s,
                    Err(e) => {
                        return Err(e);
                    },
                };
            }
            proof {
                let capacity = slab@.capacity;
                SlabView::lemma_packed(capacity, turned.take(done));
                SlabView::fresh(capacity).lemma_push_all_then_one(turned.take(done), item);
                SlabView::lemma_packed(capacity, turned.take(done + 1));
            }
            let _ = slab.push_front(item);
        }
        proof {
            assert(turned.take(needed as int) =~= turned);
            SlabView::lemma_packed(slab@.capacity, turned);
            assert(turned.reverse() =~= all);
        }
        Ok(slab)
    }

    /// Builds a slab of exactly `items.len()` slots that holds `items`,
    /// front to back in the order given. More elements than there are slot
    /// numbers are refused.
    pub fn from_vec(items: Vec<D>) -> (r: Result<Self, Error>)
        ensures
            match r {
                Ok(s) => {
                    &&& items@.len() < NUL
                    &&& s.wf()
                    &&& s@ == SlabView::packed(items@.len(), items@.reverse())
                    &&& s@.elements() == items@
                },
                Err(e) => items@.len() >= NUL && e == Error::TooLarge,
            },
    {
        Self::collect_from(items.len(), items)
    }

    /// Pushes each of `items` to the front, the first of them first. There
    /// must be room for all of them.
    pub fn extend(&mut self, items: Vec<D>)
        requires
            old(self).wf(),
            items@.len() <= old(self)@.free.len(),
        ensures
            final(self).wf(),
            final(self)@ == old(self)@.push_all(items@),
    {
        let ghost all = items@;
        let ghost start = self@;
        for item in it: items.into_iter()
            invariant
                it.seq() == all,
                self.wf(),
                self@ == start.push_all(all.take(it.index() as int)),
                self@.free.len() == start.free.len() - it.index(),
                all.len() <= start.free.len(),
        {
            proof {
                start.lemma_push_all_then_one(all.take(it.index() as int), item);
                assert(all.take(it.index() as int).push(item) =~= all.take(it.index() + 1));
            }
            let _ = self.push_front(item);
        }
        proof {
            assert(all.take(all.len() as int) =~= all);
        }
    }
}

} // verus!
