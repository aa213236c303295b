//! The mathematical model of a slab: which slots are live and in what order,
//! which are free and in what order they will be handed out, and what the
//! cells hold.

use vstd::prelude::*;

verus! {

/// A stable handle to one storage cell of a slab.
pub type Slot = u32;

/// The "no slot" marker. It is never a valid slot, so no capacity reaches it.
pub const NUL: Slot = u32::MAX;

/// Element `i` of `chain`, or `NUL` where the chain has no such element.
pub open spec fn slot_at(chain: Seq<Slot>, i: int) -> Slot {
    if 0 <= i < chain.len() {
        chain[i]
    } else {
        NUL
    }
}

/// Putting `x` in front of `chain` adds `x` to what the chain holds.
pub proof fn lemma_contains_with_front(chain: Seq<Slot>, x: Slot)
    ensures
        forall|v: Slot|
            #![trigger (seq![x] + chain).contains(v)]
            #![trigger chain.contains(v)]
            (seq![x] + chain).contains(v) <==> (v == x || chain.contains(v)),
{
    let longer = seq![x] + chain;
    assert forall|v: Slot|
        #![trigger longer.contains(v)]
        #![trigger chain.contains(v)]
        longer.contains(v) <==> (v == x || chain.contains(v)) by {
        if longer.contains(v) {
            let i = choose|i: int| 0 <= i < longer.len() && longer[i] == v;
            if i > 0 {
                assert(chain[i - 1] == v);
            }
        }
        if v == x {
            assert(longer[0] == v);
        }
        if chain.contains(v) {
            let i = choose|i: int| 0 <= i < chain.len() && chain[i] == v;
            assert(longer[i + 1] == v);
        }
    }
}

/// Taking element `at` out of a chain without repeats takes that slot, and
/// no other, out of what the chain holds.
pub proof fn lemma_contains_without(chain: Seq<Slot>, at: int)
    requires
        chain.no_duplicates(),
        0 <= at < chain.len(),
    ensures
        forall|v: Slot|
            #![trigger chain.remove(at).contains(v)]
            #![trigger chain.contains(v)]
            chain.remove(at).contains(v) <==> (v != chain[at] && chain.contains(v)),
{
    let shorter = chain.remove(at);
    assert forall|v: Slot|
        #![trigger shorter.contains(v)]
        #![trigger chain.contains(v)]
        shorter.contains(v) <==> (v != chain[at] && chain.contains(v)) by {
        if shorter.contains(v) {
            let i = choose|i: int| 0 <= i < shorter.len() && shorter[i] == v;
            assert(chain[if i < at { i } else { i + 1 }] == v);
        }
        if v != chain[at] && chain.contains(v) {
            let i = choose|i: int| 0 <= i < chain.len() && chain[i] == v;
            assert(shorter[if i < at { i } else { i - 1 }] == v);
        }
    }
}

/// What a slab is, apart from how it is stored.
#[verifier::ext_equal]
pub struct SlabView<D> {
    /// The number of slots.
    pub capacity: nat,
    /// The live slots, front (pushed last) to back (pushed first).
    pub order: Seq<Slot>,
    /// The free slots; the first is the one that the next push takes.
    pub free: Seq<Slot>,
    /// What the cells hold. The cell of a live slot holds its element. The
    /// cell of a free slot is empty, unless the slot was freed by lending
    /// its element: then the element stays until the slot is taken again.
    pub values: Map<Slot, D>,
}

impl<D> SlabView<D> {
    /// Every slot below the capacity is either live or free and occurs once
    /// in its list; the cell of every live slot holds an element.
    pub open spec fn wf(self) -> bool {
        &&& self.capacity < NUL
        &&& self.order.len() + self.free.len() == self.capacity
        &&& self.order.no_duplicates()
        &&& self.free.no_duplicates()
        &&& forall|i: int| 0 <= i < self.order.len() ==> #[trigger] self.order[i] < self.capacity
        &&& forall|i: int| 0 <= i < self.free.len() ==> #[trigger] self.free[i] < self.capacity
        &&& forall|s: Slot|
            #![trigger self.order.contains(s)]
            #![trigger self.free.contains(s)]
            s < self.capacity ==> (self.order.contains(s) <==> !self.free.contains(s))
        &&& forall|s: Slot| #[trigger] self.order.contains(s) ==> self.values.contains_key(s)
        &&& forall|s: Slot| #[trigger] self.values.contains_key(s) ==> s < self.capacity
    }

    /// The slab of `capacity` slots that holds nothing: the free slots are
    /// `0, 1, ..` in rising order.
    pub open spec fn fresh(capacity: nat) -> Self {
        SlabView {
            capacity,
            order: Seq::empty(),
            free: Seq::new(capacity, |i: int| i as Slot),
            values: Map::empty(),
        }
    }

    /// Whether `slot` names an element of the list.
    pub open spec fn is_live(self, slot: Slot) -> bool {
        self.order.contains(slot)
    }

    /// The elements, front to back.
    pub open spec fn elements(self) -> Seq<D> {
        self.order.map_values(|s: Slot| self.values[s])
    }

    /// The back element, which was pushed first of those that are left.
    pub open spec fn back(self) -> Option<D> {
        if self.order.len() == 0 {
            None
        } else {
            Some(self.values[self.order.last()])
        }
    }

    /// The slab after `value` went to the front, into the cell of the first
    /// free slot. A full slab stays as it is.
    pub open spec fn push_front(self, value: D) -> Self {
        if self.free.len() == 0 {
            self
        } else {
            SlabView {
                capacity: self.capacity,
                order: seq![self.free[0]] + self.order,
                free: self.free.drop_first(),
                values: self.values.insert(self.free[0], value),
            }
        }
    }

    /// The slab after `slot` left the list and became the first free slot,
    /// with its element still in its cell. Where `slot` is not live the slab
    /// stays as it is.
    pub open spec fn release(self, slot: Slot) -> Self {
        if !self.is_live(slot) {
            self
        } else {
            SlabView {
                capacity: self.capacity,
                order: self.order.remove(self.order.index_of(slot)),
                free: seq![slot] + self.free,
                values: self.values,
            }
        }
    }

    /// The slab after the element in `slot` left: the slot is released and
    /// its cell emptied. Where `slot` is not live the slab stays as it is.
    pub open spec fn remove(self, slot: Slot) -> Self {
        if !self.is_live(slot) {
            self
        } else {
            SlabView {
                capacity: self.capacity,
                order: self.order.remove(self.order.index_of(slot)),
                free: seq![slot] + self.free,
                values: self.values.remove(slot),
            }
        }
    }

    /// The slab after the back element left. An empty slab stays as it is.
    pub open spec fn pop_back(self) -> Self {
        if self.order.len() == 0 {
            self
        } else {
            self.remove(self.order.last())
        }
    }

    /// The slab after the back slot was released, with its element still
    /// in its cell. An empty slab stays as it is.
    pub open spec fn release_back(self) -> Self {
        if self.order.len() == 0 {
            self
        } else {
            self.release(self.order.last())
        }
    }

    /// The slab with `value` in the cell of `slot`, in place of what it held.
    pub open spec fn replace(self, slot: Slot, value: D) -> Self {
        SlabView {
            capacity: self.capacity,
            order: self.order,
            free: self.free,
            values: self.values.insert(slot, value),
        }
    }

    /// The slab after every element left.
    pub open spec fn clear(self) -> Self {
        Self::fresh(self.capacity)
    }

    /// The slab after each of `items` went to the front, the first of them
    /// first. Pushing stops having an effect once the slab is full.
    pub open spec fn push_all(self, items: Seq<D>) -> Self
        decreases items.len(),
    {
        if items.len() == 0 {
            self
        } else {
            self.push_all(items.drop_last()).push_front(items.last())
        }
    }

    /// The slab of `capacity` slots into which `pushed` went one by one
    /// since it was fresh: the element pushed as number `i` sits in slot `i`,
    /// and the slots from `pushed.len()` on are free, in rising order.
    pub open spec fn packed(capacity: nat, pushed: Seq<D>) -> Self {
        SlabView {
            capacity,
            order: Seq::new(pushed.len(), |i: int| (pushed.len() - 1 - i) as Slot),
            free: Seq::new((capacity - pushed.len()) as nat, |i: int| (pushed.len() + i) as Slot),
            values: Map::new(|s: Slot| s < pushed.len(), |s: Slot| pushed[s as int]),
        }
    }

    /// A fresh slab is well formed.
    pub proof fn lemma_fresh_wf(capacity: nat)
        requires
            capacity < NUL,
        ensures
            Self::fresh(capacity).wf(),
    {
        let v = Self::fresh(capacity);
        assert forall|s: Slot| s < v.capacity implies (v.order.contains(s) <==> !v.free.contains(
            s,
        )) by {
            assert(v.free[s as int] == s);
        }
    }

    /// In a well-formed slab a live slot lies below the capacity and stands
    /// at one place of the order.
    pub proof fn lemma_index_of_live(self, slot: Slot)
        requires
            self.wf(),
            self.is_live(slot),
        ensures
            slot < self.capacity,
            0 <= self.order.index_of(slot) < self.order.len(),
            self.order[self.order.index_of(slot)] == slot,
            forall|i: int| 0 <= i < self.order.len() && self.order[i] == slot ==> i
                == self.order.index_of(slot),
    {
        assert(self.order.contains(slot));
    }

    /// Pushing keeps a slab well formed.
    pub proof fn lemma_push_front_wf(self, value: D)
        requires
            self.wf(),
        ensures
            self.push_front(value).wf(),
    {
        if self.free.len() > 0 {
            let slot = self.free[0];
            let w = self.push_front(value);
            lemma_contains_with_front(self.order, slot);
            assert(w.free =~= self.free.remove(0));
            lemma_contains_without(self.free, 0);
            assert forall|i: int| 0 <= i < w.order.len() implies #[trigger] w.order[i]
                < w.capacity by {
                if i > 0 {
                    assert(w.order[i] == self.order[i - 1]);
                }
            }
            assert forall|i: int, j: int|
                0 <= i < w.order.len() && 0 <= j < w.order.len() && i != j implies w.order[i]
                != w.order[j] by {
                if i > 0 {
                    assert(self.order.contains(self.order[i - 1]));
                }
                if j > 0 {
                    assert(self.order.contains(self.order[j - 1]));
                }
            }
        }
    }

    /// Releasing and removing keep a slab well formed.
    pub proof fn lemma_remove_wf(self, slot: Slot)
        requires
            self.wf(),
        ensures
            self.release(slot).wf(),
            self.remove(slot).wf(),
    {
        if self.is_live(slot) {
            self.lemma_index_of_live(slot);
            let at = self.order.index_of(slot);
            let w = self.release(slot);
            lemma_contains_without(self.order, at);
            lemma_contains_with_front(self.free, slot);
            assert forall|i: int| 0 <= i < w.free.len() implies #[trigger] w.free[i]
                < w.capacity by {
                if i > 0 {
                    assert(w.free[i] == self.free[i - 1]);
                }
            }
            assert forall|i: int, j: int|
                0 <= i < w.free.len() && 0 <= j < w.free.len() && i != j implies w.free[i]
                != w.free[j] by {
                if i > 0 {
                    assert(self.free.contains(self.free[i - 1]));
                }
                if j > 0 {
                    assert(self.free.contains(self.free[j - 1]));
                }
            }
        }
    }

    /// The back element of a slab that holds one stands last in the order,
    /// and taking it out leaves the others as they stood.
    pub proof fn lemma_back_is_last(self)
        requires
            self.wf(),
            self.order.len() > 0,
        ensures
            self.is_live(self.order.last()),
            self.order.index_of(self.order.last()) == self.order.len() - 1,
            self.pop_back().order == self.order.drop_last(),
            self.release_back().order == self.order.drop_last(),
    {
        let slot = self.order.last();
        assert(self.order[self.order.len() - 1] == slot);
        self.lemma_index_of_live(slot);
        assert(self.order.drop_last() =~= self.order.remove(self.order.len() - 1));
    }

    /// Popping keeps a slab well formed, whether the element is taken or
    /// lent.
    pub proof fn lemma_pop_back_wf(self)
        requires
            self.wf(),
        ensures
            self.pop_back().wf(),
            self.release_back().wf(),
    {
        if self.order.len() > 0 {
            self.lemma_remove_wf(self.order.last());
        }
    }

    /// Pushing several elements keeps a slab well formed and its capacity.
    pub proof fn lemma_push_all_wf(self, items: Seq<D>)
        requires
            self.wf(),
        ensures
            self.push_all(items).wf(),
            self.push_all(items).capacity == self.capacity,
        decreases items.len(),
    {
        if items.len() > 0 {
            self.lemma_push_all_wf(items.drop_last());
            self.push_all(items.drop_last()).lemma_push_front_wf(items.last());
        }
    }

    /// Pushing one more element after several is pushing them all.
    pub proof fn lemma_push_all_then_one(self, items: Seq<D>, value: D)
        ensures
            self.push_all(items).push_front(value) == self.push_all(items.push(value)),
    {
        assert(items.push(value).drop_last() =~= items);
    }

    /// A packed slab is what pushing into a fresh slab gives, and its
    /// elements, front to back, are the pushed ones from last to first.
    pub proof fn lemma_packed(capacity: nat, pushed: Seq<D>)
        requires
            pushed.len() <= capacity < NUL,
        ensures
            Self::packed(capacity, pushed) == Self::fresh(capacity).push_all(pushed),
            Self::packed(capacity, pushed).wf(),
            Self::packed(capacity, pushed).elements() == pushed.reverse(),
        decreases pushed.len(),
    {
        let all = Self::packed(capacity, pushed);
        if pushed.len() == 0 {
            assert(all =~= Self::fresh(capacity));
        } else {
            let fewer = Self::packed(capacity, pushed.drop_last());
            Self::lemma_packed(capacity, pushed.drop_last());
            assert(fewer.free[0] == (pushed.len() - 1) as Slot);
            assert(fewer.push_front(pushed.last()) =~= all);
        }
        Self::lemma_fresh_wf(capacity);
        Self::fresh(capacity).lemma_push_all_wf(pushed);
        assert(all.elements() =~= pushed.reverse());
    }

    /// A pushed element becomes the first of the elements.
    pub proof fn lemma_push_front_elements(self, value: D)
        requires
            self.wf(),
            self.free.len() > 0,
        ensures
            self.push_front(value).elements() == seq![value] + self.elements(),
    {
        let w = self.push_front(value);
        assert(self.free.contains(self.free[0]));
        assert forall|i: int| 0 <= i < w.order.len() implies w.elements()[i] == (seq![value]
            + self.elements())[i] by {
            if i > 0 {
                assert(w.order[i] == self.order[i - 1]);
                assert(self.order.contains(self.order[i - 1]));
            }
        }
        assert(w.elements() =~= seq![value] + self.elements());
    }

    /// Removing a live slot takes its element, and no other, out of the
    /// elements; the rest keep their order.
    pub proof fn lemma_remove_elements(self, slot: Slot)
        requires
            self.wf(),
            self.is_live(slot),
        ensures
            self.remove(slot).elements() == self.elements().remove(self.order.index_of(slot)),
            self.release(slot).elements() == self.elements().remove(self.order.index_of(slot)),
            self.elements()[self.order.index_of(slot)] == self.values[slot],
    {
        self.lemma_index_of_live(slot);
        let at = self.order.index_of(slot);
        let w = self.remove(slot);
        assert forall|i: int| 0 <= i < w.order.len() implies w.elements()[i]
            == self.elements().remove(at)[i] by {
            let j = if i < at {
                i
            } else {
                i + 1
            };
            assert(w.order[i] == self.order[j]);
        }
        assert(w.elements() =~= self.elements().remove(at));
        assert(self.release(slot).elements() =~= w.elements());
    }

    /// Popping takes the last of the elements, which is what the back slot
    /// holds.
    pub proof fn lemma_pop_back_elements(self)
        requires
            self.wf(),
            self.order.len() > 0,
        ensures
            self.pop_back().elements() == self.elements().drop_last(),
            self.release_back().elements() == self.elements().drop_last(),
            self.back() == Some(self.elements().last()),
    {
        self.lemma_back_is_last();
        self.lemma_remove_elements(self.order.last());
        assert(self.elements().remove(self.order.len() - 1) =~= self.elements().drop_last());
    }
}

} // verus!
