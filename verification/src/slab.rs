//! The slab: preallocated cells, a doubly linked list of the live ones and a
//! singly linked list of the free ones, both threaded through the same link
//! arrays.

use vstd::prelude::*;
use crate::bitmap::Bitmap;
use crate::error::Error;
use crate::model::{
    lemma_contains_with_front, lemma_contains_without, slot_at, SlabView, Slot, NUL,
};

verus! {

/// The capacity of a slab made by `Default`.
pub const DEFAULT_CAPACITY: usize = 16;

/// A linked list of at most `capacity` elements that allocates once, when it
/// is made. Pushing hands out a slot, which names the element until it leaves.
pub struct Slab<D> {
    /// For a live slot its neighbour towards the back, for a free slot the
    /// next free one.
    vec_next: Vec<Slot>,
    /// For a live slot its neighbour towards the front, for a free slot
    /// `NUL`.
    vec_prev: Vec<Slot>,
    free_head: Slot,
    head: Slot,
    tail: Slot,
    len: usize,
    /// The cells. The cell of a live slot holds its element; the cell of a
    /// free slot holds one only where the slot was freed by lending it.
    data: Vec<Option<D>>,
    /// One flag per slot, raised while the slot is live.
    bitmap: Bitmap,
    /// The live slots, front to back.
    order: Ghost<Seq<Slot>>,
    /// The free slots, in the order in which they will be handed out.
    spare: Ghost<Seq<Slot>>,
}

impl<D> View for Slab<D> {
    type V = SlabView<D>;

    closed spec fn view(&self) -> SlabView<D> {
        SlabView {
            capacity: self.vec_next@.len(),
            order: self.order@,
            free: self.spare@,
            values: Map::new(
                |s: Slot| s < self.data@.len() && self.data@[s as int] is Some,
                |s: Slot| self.data@[s as int]->0,
            ),
        }
    }
}

impl<D> Slab<D> {
    /// The stored lists and links agree with the model.
    pub closed spec fn links_wf(&self) -> bool {
        let cap = self.vec_next@.len();
        let order = self.order@;
        let spare = self.spare@;
        &&& self.vec_prev@.len() == cap
        &&& self.data@.len() == cap
        &&& self.bitmap@.len() == 8 * Bitmap::bytes_for(cap)
        &&& self.len == order.len()
        &&& self.head == slot_at(order, 0)
        &&& self.tail == slot_at(order, order.len() - 1)
        &&& self.free_head == slot_at(spare, 0)
        &&& forall|i: int|
            0 <= i < order.len() ==> #[trigger] self.vec_next@[order[i] as int] == slot_at(
                order,
                i + 1,
            )
        &&& forall|i: int|
            0 <= i < order.len() ==> #[trigger] self.vec_prev@[order[i] as int] == slot_at(
                order,
                i - 1,
            )
        &&& forall|i: int|
            0 <= i < spare.len() ==> #[trigger] self.vec_next@[spare[i] as int] == slot_at(
                spare,
                i + 1,
            )
        &&& forall|i: int|
            0 <= i < spare.len() ==> #[trigger] self.vec_prev@[spare[i] as int] == NUL
        &&& forall|s: Slot|
            #![trigger self.bitmap@[s as int]]
            #![trigger order.contains(s)]
            s < cap ==> (self.bitmap@[s as int] <==> order.contains(s))
    }

    /// The slab is in order: its model is well formed and the stored links
    /// spell out that model.
    pub open spec fn wf(&self) -> bool {
        &&& self@.wf()
        &&& self.links_wf()
    }

    /// Whether two slabs store the same links towards the back, the same
    /// front slot and first free slot, the same count and the same cells.
    pub closed spec fn same_storage(&self, other: &Self) -> bool {
        &&& self.vec_next == other.vec_next
        &&& self.head == other.head
        &&& self.free_head == other.free_head
        &&& self.len == other.len
        &&& self.data == other.data
    }

    /// The model is no free choice: two slabs in order that store the same
    /// links and cells have the same model.
    pub proof fn lemma_model_is_determined(&self, other: &Self)
        requires
            self.wf(),
            other.wf(),
            self.same_storage(other),
        ensures
            self@ == other@,
    {
        assert forall|i: int| 0 <= i < self.order@.len() implies self.order@[i]
            == other.order@[i] by {
            Self::lemma_same_chain(self.vec_next@, self.order@, other.order@, i);
        }
        assert forall|i: int| 0 <= i < self.spare@.len() implies self.spare@[i]
            == other.spare@[i] by {
            Self::lemma_same_chain(self.vec_next@, self.spare@, other.spare@, i);
        }
    }

    /// Two chains of one length that start at the same slot and follow the
    /// same links are the same chain.
    proof fn lemma_same_chain(next: Seq<Slot>, a: Seq<Slot>, b: Seq<Slot>, i: int)
        requires
            a.len() == b.len(),
            slot_at(a, 0) == slot_at(b, 0),
            forall|j: int| 0 <= j < a.len() ==> #[trigger] next[a[j] as int] == slot_at(a, j + 1),
            forall|j: int| 0 <= j < b.len() ==> #[trigger] next[b[j] as int] == slot_at(b, j + 1),
            0 <= i < a.len(),
        ensures
            a[i] == b[i],
        decreases i,
    {
        if i > 0 {
            Self::lemma_same_chain(next, a, b, i - 1);
            assert(next[b[i - 1] as int] == slot_at(b, i));
        }
    }

    /// Makes an empty slab of `capacity` slots. A capacity that reaches the
    /// "no slot" marker is refused.
    pub fn with_capacity(capacity: usize) -> (r: Result<Self, Error>)
        ensures
            match r {
                Ok(s) => capacity < NUL && s.wf() && s@ == SlabView::<D>::fresh(capacity as nat),
                Err(e) => capacity >= NUL && e == Error::TooLarge,
            },
    {
        if capacity >= NUL as usize {
            return Err(Error::TooLarge);
        }
        let mut vec_next: Vec<Slot> = Vec::with_capacity(capacity);
        let mut vec_prev: Vec<Slot> = Vec::with_capacity(capacity);
        let mut data: Vec<Option<D>> = Vec::with_capacity(capacity);
        let mut i: usize = 0;
        while i < capacity
            invariant
                capacity < NUL,
                i <= capacity,
                vec_next@.len() == i,
                vec_prev@.len() == i,
                data@.len() == i,
                forall|j: int| 0 <= j < i ==> (#[trigger] data@[j]) is None,
                forall|j: int| 0 <= j < i ==> #[trigger] vec_prev@[j] == NUL,
                forall|j: int|
                    0 <= j < i ==> #[trigger] vec_next@[j] == (if j + 1 < capacity {
                        (j + 1) as Slot
                    } else {
                        NUL
                    }),
            decreases capacity - i,
        {
            let next: Slot = if i + 1 < capacity {
                (i + 1) as Slot
            } else {
                NUL
            };
            vec_next.push(next);
            vec_prev.push(NUL);
            data.push(None);
            i += 1;
        }
        let free_head: Slot = if capacity > 0 {
            0
        } else {
            NUL
        };
        let slab = Slab {
            vec_next,
            vec_prev,
            free_head,
            head: NUL,
            tail: NUL,
            len: 0,
            data,
            bitmap: Bitmap::new(capacity),
            order: Ghost(Seq::empty()),
            spare: Ghost(Seq::new(capacity as nat, |i: int| i as Slot)),
        };
        proof {
            SlabView::<D>::lemma_fresh_wf(capacity as nat);
            assert(slab@.values =~= Map::<Slot, D>::empty());
        }
        Ok(slab)
    }

    /// The number of slots.
    pub fn capacity(&self) -> (n: usize)
        requires
            self.wf(),
        ensures
            n == self@.capacity,
    {
        self.vec_next.len()
    }

    /// The number of elements.
    pub fn len(&self) -> (n: usize)
        requires
            self.wf(),
        ensures
            n == self@.order.len(),
    {
        self.len
    }

    /// The number of elements that can still be pushed.
    pub fn free(&self) -> (n: usize)
        requires
            self.wf(),
        ensures
            n == self@.free.len(),
            n == self@.capacity - self@.order.len(),
    {
        self.capacity() - self.len()
    }

    /// Whether the slab holds no element.
    pub fn is_empty(&self) -> (b: bool)
        requires
            self.wf(),
        ensures
            b == (self@.order.len() == 0),
    {
        self.len() == 0
    }

    /// Whether every slot is taken.
    pub fn is_full(&self) -> (b: bool)
        requires
            self.wf(),
        ensures
            b == (self@.free.len() == 0),
    {
        self.free_head == NUL
    }

    /// Puts `value` at the front and returns the slot that now names it: the
    /// first free one. A full slab refuses and stays as it is.
    pub fn push_front(&mut self, value: D) -> (r: Result<Slot, Error>)
        requires
            old(self).wf(),
        ensures
            final(self).wf(),
            final(self)@ == old(self)@.push_front(value),
            r == (if old(self)@.free.len() == 0 {
                Err::<Slot, Error>(Error::Full)
            } else {
                Ok::<Slot, Error>(old(self)@.free[0])
            }),
    {
        let free_slot = self.free_head;
        if free_slot == NUL {
            return Err(Error::Full);
        }
        let at = free_slot as usize;
        let head = self.head;
        let ghost order = self.order@;
        let ghost spare = self.spare@;
        let next = self.vec_next[at];
        if head != NUL {
            self.vec_prev[head as usize] = free_slot;
        }
        self.free_head = next;
        self.vec_next[at] = head;
        self.vec_prev[at] = NUL;
        if head == NUL {
            self.tail = free_slot;
        }
        self.head = free_slot;
        self.data[at] = Some(value);
        self.len += 1;
        self.bitmap.set(at);
        self.order = Ghost(seq![free_slot] + order);
        self.spare = Ghost(spare.drop_first());
        proof {
            let grown = self.order@;
            lemma_contains_with_front(order, free_slot);
            assert forall|i: int| 0 <= i < grown.len() implies
                #[trigger] self.vec_next@[grown[i] as int] == slot_at(grown, i + 1) by {
                if i > 0 {
                    assert(order.contains(order[i - 1]));
                }
            }
            assert forall|i: int| 0 <= i < grown.len() implies
                #[trigger] self.vec_prev@[grown[i] as int] == slot_at(grown, i - 1) by {
                if i > 0 {
                    assert(order.contains(order[i - 1]));
                }
            }
            assert forall|i: int| 0 <= i < self.spare@.len() implies
                #[trigger] self.vec_prev@[self.spare@[i] as int] == NUL by {
                assert(spare.contains(spare[i + 1]));
            }
            old(self)@.lemma_push_front_wf(value);
        }
        Ok(free_slot)
    }

    /// Takes the live slot `slot` out of the list and puts it in front of
    /// the free slots. Its cell keeps what it holds.
    fn unlink(&mut self, slot: Slot)
        requires
            old(self).wf(),
            old(self)@.is_live(slot),
        ensures
            final(self).wf(),
            final(self)@ == old(self)@.release(slot),
            final(self).data@ == old(self).data@,
    {
        let at = slot as usize;
        let ghost order = self.order@;
        let ghost spare = self.spare@;
        let ghost place = order.index_of(slot);
        proof {
            old(self)@.lemma_index_of_live(slot);
        }
        let prev = self.vec_prev[at];
        let next = self.vec_next[at];
        if prev != NUL {
            self.vec_next[prev as usize] = next;
        }
        if next != NUL {
            self.vec_prev[next as usize] = prev;
        }
        if self.tail == slot {
            self.tail = prev;
        }
        if self.head == slot {
            self.head = next;
        }
        self.vec_prev[at] = NUL;
        self.vec_next[at] = self.free_head;
        self.free_head = slot;
        self.len -= 1;
        self.bitmap.unset(at);
        self.order = Ghost(order.remove(place));
        self.spare = Ghost(seq![slot] + spare);
        proof {
            lemma_contains_without(order, place);
            lemma_contains_with_front(spare, slot);
            old(self)@.lemma_remove_wf(slot);
        }
    }

    /// Whether `slot` names an element.
    pub fn contains_slot(&self, slot: Slot) -> (b: bool)
        requires
            self.wf(),
        ensures
            b == self@.is_live(slot),
    {
        if slot as usize >= self.capacity() {
            proof {
                if self@.is_live(slot) {
                    self@.lemma_index_of_live(slot);
                }
            }
            return false;
        }
        self.bitmap.get(slot as usize)
    }

    /// The element that `slot` names. A slot that is out of range or names
    /// nothing is refused.
    pub fn get(&self, slot: Slot) -> (r: Result<&D, Error>)
        requires
            self.wf(),
        ensures
            match r {
                Ok(v) => self@.is_live(slot) && *v == self@.values[slot],
                Err(e) => !self@.is_live(slot) && e == Error::InvalidSlot,
            },
    {
        if !self.contains_slot(slot) {
            return Err(Error::InvalidSlot);
        }
        proof {
            self@.lemma_index_of_live(slot);
        }
        Ok(self.data[slot as usize].as_ref().unwrap())
    }

    /// Takes the element that `slot` names out of the list, wherever it
    /// stands, drops it and frees the slot. A slot that is out of range or
    /// names nothing is refused, and the slab stays as it is.
    pub fn remove(&mut self, slot: Slot) -> (r: Result<(), Error>)
        requires
            old(self).wf(),
        ensures
            final(self).wf(),
            final(self)@ == old(self)@.remove(slot),
            r == (if old(self)@.is_live(slot) {
                Ok::<(), Error>(())
            } else {
                Err::<(), Error>(Error::InvalidSlot)
            }),
    {
        if !self.contains_slot(slot) {
            return Err(Error::InvalidSlot);
        }
        self.unlink(slot);
        self.data[slot as usize] = None;
        proof {
            old(self)@.lemma_remove_wf(slot);
            assert(self@.values =~= old(self)@.values.remove(slot));
        }
        Ok(())
    }

    /// Takes the back element out and returns it, or `None` where the slab
    /// is empty.
    pub fn pop_back(&mut self) -> (r: Option<D>)
        requires
            old(self).wf(),
        ensures
            final(self).wf(),
            final(self)@ == old(self)@.pop_back(),
            r == old(self)@.back(),
    {
        let slot = self.tail;
        if slot == NUL {
            return None;
        }
        proof {
            old(self)@.lemma_back_is_last();
        }
        self.unlink(slot);
        let value = self.data[slot as usize].take();
        proof {
            old(self)@.lemma_remove_wf(slot);
            assert(self@.values =~= old(self)@.values.remove(slot));
        }
        value
    }

    /// The element that `slot` names, for changing in place. A slot that is
    /// out of range or names nothing is refused.
    pub fn get_mut(&mut self, slot: Slot) -> (r: Result<&mut D, Error>)
        requires
            old(self).wf(),
        ensures
            final(self).wf(),
            match r {
                Ok(v) => old(self)@.is_live(slot) && *v == old(self)@.values[slot] && final(self)@
                    == old(self)@.replace(slot, *final(v)),
                Err(e) => !old(self)@.is_live(slot) && e == Error::InvalidSlot && final(self)@
                    == old(self)@,
            },
    {
        if !self.contains_slot(slot) {
            return Err(Error::InvalidSlot);
        }
        proof {
            self@.lemma_index_of_live(slot);
        }
        Ok(self.data[slot as usize].as_mut().unwrap())
    }

    /// Takes the back element out of the list and lends it, or returns
    /// `None` where the slab is empty. The slot is free at once; the element
    /// stays in its cell until the slot is taken again or the slab cleared.
    pub fn pop_back_ref(&mut self) -> (r: Option<&D>)
        requires
            old(self).wf(),
        ensures
            final(self).wf(),
            final(self)@ == old(self)@.release_back(),
            match r {
                Some(v) => old(self)@.back() == Some(*v),
                None => old(self)@.back() is None,
            },
    {
        let slot = self.tail;
        if slot == NUL {
            return None;
        }
        proof {
            old(self)@.lemma_back_is_last();
        }
        self.unlink(slot);
        self.data[slot as usize].as_ref()
    }

    /// Takes the back element out of the list and lends it for changing, or
    /// returns `None` where the slab is empty. The slot is free at once; the
    /// element, as the borrower leaves it, stays in its cell until the slot
    /// is taken again or the slab cleared.
    pub fn pop_back_ref_mut(&mut self) -> (r: Option<&mut D>)
        requires
            old(self).wf(),
        ensures
            final(self).wf(),
            match r {
                Some(v) => old(self)@.back() == Some(*v) && final(self)@ == old(
                    self,
                )@.release_back().replace(old(self)@.order.last(), *final(v)),
                None => old(self)@.back() is None && final(self)@ == old(self)@,
            },
    {
        let slot = self.tail;
        if slot == NUL {
            return None;
        }
        proof {
            old(self)@.lemma_back_is_last();
        }
        self.unlink(slot);
        self.data[slot as usize].as_mut()
    }

    /// The front slot, or `NUL` where the slab is empty.
    pub(crate) fn front_slot(&self) -> (slot: Slot)
        requires
            self.wf(),
        ensures
            slot == slot_at(self@.order, 0),
    {
        self.head
    }

    /// The back slot, or `NUL` where the slab is empty.
    pub(crate) fn back_slot(&self) -> (slot: Slot)
        requires
            self.wf(),
        ensures
            slot == slot_at(self@.order, self@.order.len() - 1),
    {
        self.tail
    }

    /// The live slot that follows `slot` towards the back, or `NUL` where
    /// `slot` is the back one.
    pub(crate) fn slot_after(&self, slot: Slot) -> (after: Slot)
        requires
            self.wf(),
            self@.is_live(slot),
        ensures
            after == slot_at(self@.order, self@.order.index_of(slot) + 1),
    {
        proof {
            self@.lemma_index_of_live(slot);
        }
        self.vec_next[slot as usize]
    }

    /// The live slot that precedes `slot` towards the front, or `NUL` where
    /// `slot` is the front one.
    pub(crate) fn slot_before(&self, slot: Slot) -> (before: Slot)
        requires
            self.wf(),
            self@.is_live(slot),
        ensures
            before == slot_at(self@.order, self@.order.index_of(slot) - 1),
    {
        proof {
            self@.lemma_index_of_live(slot);
        }
        self.vec_prev[slot as usize]
    }

    /// Drops every element, lent ones too, and puts the slab back as it
    /// was when made. The capacity stays.
    pub fn clear(&mut self)
        requires
            old(self).wf(),
        ensures
            final(self).wf(),
            final(self)@ == old(self)@.clear(),
    {
        let capacity = self.capacity();
        let mut i: usize = 0;
        while i < capacity
            invariant
                capacity < NUL,
                i <= capacity,
                self.vec_next@.len() == capacity,
                self.vec_prev@.len() == capacity,
                self.data@.len() == capacity,
                self.bitmap == old(self).bitmap,
                forall|j: int| 0 <= j < i ==> (#[trigger] self.data@[j]) is None,
                forall|j: int| 0 <= j < i ==> #[trigger] self.vec_prev@[j] == NUL,
                forall|j: int|
                    0 <= j < i ==> #[trigger] self.vec_next@[j] == (if j + 1 < capacity {
                        (j + 1) as Slot
                    } else {
                        NUL
                    }),
            decreases capacity - i,
        {
            self.data[i] = None;
            self.vec_next[i] = if i + 1 < capacity {
                (i + 1) as Slot
            } else {
                NUL
            };
            self.vec_prev[i] = NUL;
            i += 1;
        }
        self.bitmap.reset();
        self.free_head = if capacity > 0 {
            0
        } else {
            NUL
        };
        self.head = NUL;
        self.tail = NUL;
        self.len = 0;
        self.order = Ghost(Seq::empty());
        self.spare = Ghost(Seq::new(capacity as nat, |i: int| i as Slot));
        proof {
            SlabView::<D>::lemma_fresh_wf(capacity as nat);
            assert(self@.values =~= Map::<Slot, D>::empty());
        }
    }
}

impl<D> core::ops::Index<Slot> for Slab<D> {
    type Output = D;

    /// The element that the live slot `slot` names.
    fn index(&self, slot: Slot) -> (r: &D)
        ensures
            *r == self@.values[slot],
    {
        proof {
            self@.lemma_index_of_live(slot);
        }
        self.data[slot as usize].as_ref().unwrap()
    }
}

impl<D> vstd::std_specs::core::IndexSpecImpl<Slot> for Slab<D> {
    open spec fn index_req(&self, index: &Slot) -> bool {
        self.wf() && self@.is_live(*index)
    }
}

impl<D> core::ops::IndexMut<Slot> for Slab<D> {
    /// The element that the live slot `slot` names, for changing in place.
    fn index_mut(&mut self, slot: Slot) -> (r: &mut D)
        requires
            old(self).wf(),
            old(self)@.is_live(slot),
        ensures
            *r == old(self)@.values[slot],
            final(self).wf(),
            final(self)@ == old(self)@.replace(slot, *final(r)),
    {
        proof {
            self@.lemma_index_of_live(slot);
        }
        self.data[slot as usize].as_mut().unwrap()
    }
}

impl<D> Default for Slab<D> {
    /// An empty slab of `DEFAULT_CAPACITY` slots.
    fn default() -> (s: Self)
        ensures
            s.wf(),
            s@ == SlabView::<D>::fresh(DEFAULT_CAPACITY as nat),
    {
        Self::with_capacity(DEFAULT_CAPACITY).unwrap()
    }
}

} // verus!
