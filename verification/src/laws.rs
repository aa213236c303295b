//! What holds of every slab, stated over its model and proved from the
//! contracts of the operations.

use vstd::prelude::*;
use crate::model::{lemma_contains_with_front, lemma_contains_without, SlabView, Slot, NUL};
use crate::slab::Slab;

verus! {

/// The elements and the free slots of a slab together make up its capacity.
/// Every operation leaves a slab in order, so this holds after each of them.
pub proof fn lemma_len_and_free_make_capacity<D>(slab: &Slab<D>)
    requires
        slab.wf(),
    ensures
        slab@.order.len() + slab@.free.len() == slab@.capacity,
        slab@.order.len() <= slab@.capacity < NUL,
{
}

/// A push into a slab with room makes the slot that it returns live, with
/// the pushed value in it, and the slab one element longer. What the other
/// live slots hold stays.
pub proof fn lemma_pushed_slot_holds_value<D>(v: SlabView<D>, value: D)
    requires
        v.wf(),
        v.free.len() > 0,
    ensures
        !v.is_live(v.free[0]),
        v.push_front(value).is_live(v.free[0]),
        v.push_front(value).values[v.free[0]] == value,
        v.push_front(value).order.len() == v.order.len() + 1,
        forall|s: Slot| v.is_live(s) ==> v.push_front(value).is_live(s) && v.push_front(
            value,
        ).values[s] == v.values[s],
{
    assert(v.free.contains(v.free[0]));
    lemma_contains_with_front(v.order, v.free[0]);
}

/// A removed slot is dead at once, and it is the slot that the next push
/// takes: after that push it holds the new value.
pub proof fn lemma_removed_slot_is_reused_next<D>(v: SlabView<D>, slot: Slot, value: D)
    requires
        v.wf(),
        v.is_live(slot),
    ensures
        !v.remove(slot).is_live(slot),
        v.remove(slot).order.len() == v.order.len() - 1,
        v.remove(slot).free.len() > 0,
        v.remove(slot).free[0] == slot,
        v.remove(slot).push_front(value).is_live(slot),
        v.remove(slot).push_front(value).values[slot] == value,
{
    v.lemma_index_of_live(slot);
    lemma_contains_without(v.order, v.order.index_of(slot));
    lemma_contains_with_front(v.remove(slot).order, slot);
}

/// A dead slot stays dead whatever leaves the slab, and a push revives it
/// only by taking it, which puts the pushed value in it.
pub proof fn lemma_dead_slot_stays_dead_until_taken<D>(
    v: SlabView<D>,
    slot: Slot,
    other: Slot,
    value: D,
)
    requires
        v.wf(),
        !v.is_live(slot),
    ensures
        !v.remove(other).is_live(slot),
        !v.release(other).is_live(slot),
        !v.pop_back().is_live(slot),
        !v.release_back().is_live(slot),
        !v.clear().is_live(slot),
        v.push_front(value).is_live(slot) <==> (v.free.len() > 0 && v.free[0] == slot),
        v.push_front(value).is_live(slot) ==> v.push_front(value).values[slot] == value,
{
    if v.is_live(other) {
        v.lemma_index_of_live(other);
        lemma_contains_without(v.order, v.order.index_of(other));
    }
    if v.order.len() > 0 {
        v.lemma_back_is_last();
        lemma_contains_without(v.order, v.order.len() - 1);
    }
    if v.free.len() > 0 {
        lemma_contains_with_front(v.order, v.free[0]);
    }
}

/// A lent element stays in its cell, though its slot is free, until the
/// slot is taken again, which is at the next push.
pub proof fn lemma_lent_element_stays_until_taken<D>(v: SlabView<D>, value: D)
    requires
        v.wf(),
        v.order.len() > 0,
    ensures
        ({
            let slot = v.order.last();
            let w = v.release_back();
            &&& !w.is_live(slot)
            &&& w.values.contains_key(slot)
            &&& w.values[slot] == v.values[slot]
            &&& !v.pop_back().values.contains_key(slot)
            &&& w.free[0] == slot
            &&& w.push_front(value).values[slot] == value
        }),
{
    v.lemma_back_is_last();
    lemma_contains_without(v.order, v.order.len() - 1);
}

/// Pushing fills a slab up to its capacity and no further.
pub proof fn lemma_push_all_counts<D>(v: SlabView<D>, items: Seq<D>)
    requires
        v.wf(),
    ensures
        v.push_all(items).order.len() == if items.len() <= v.free.len() {
            v.order.len() + items.len()
        } else {
            v.capacity
        },
    decreases items.len(),
{
    if items.len() > 0 {
        lemma_push_all_counts(v, items.drop_last());
        v.lemma_push_all_wf(items.drop_last());
    }
}

/// After as many pushes as a fresh slab has slots it is full, and one more
/// push is refused and changes nothing.
pub proof fn lemma_full_after_capacity_pushes<D>(capacity: nat, items: Seq<D>, value: D)
    requires
        capacity < NUL,
        items.len() == capacity,
    ensures
        SlabView::fresh(capacity).push_all(items).free.len() == 0,
        SlabView::fresh(capacity).push_all(items).push_front(value) == SlabView::fresh(
            capacity,
        ).push_all(items),
{
    SlabView::<D>::lemma_fresh_wf(capacity);
    lemma_push_all_counts(SlabView::fresh(capacity), items);
    SlabView::fresh(capacity).lemma_push_all_wf(items);
}

/// The elements pushed into a slab with room for them stand in front of
/// the old ones, the last pushed first.
pub proof fn lemma_push_all_elements<D>(v: SlabView<D>, items: Seq<D>)
    requires
        v.wf(),
        items.len() <= v.free.len(),
    ensures
        v.push_all(items).elements() == items.reverse() + v.elements(),
    decreases items.len(),
{
    if items.len() == 0 {
        assert(v.elements() =~= items.reverse() + v.elements());
    } else {
        let fewer = v.push_all(items.drop_last());
        lemma_push_all_elements(v, items.drop_last());
        lemma_push_all_counts(v, items.drop_last());
        v.lemma_push_all_wf(items.drop_last());
        fewer.lemma_push_front_elements(items.last());
        assert(seq![items.last()] + (items.drop_last().reverse() + v.elements())
            =~= items.reverse() + v.elements());
    }
}

/// First in, first out: after `a`, `b` and `c` went into an empty slab, the
/// walk from the front meets `c`, `b`, `a`, and popping gives `a`, then
/// `b`, then `c`, then nothing.
pub proof fn lemma_first_in_first_out<D>(v: SlabView<D>, a: D, b: D, c: D)
    requires
        v.wf(),
        v.order.len() == 0,
        v.free.len() >= 3,
    ensures
        ({
            let w = v.push_front(a).push_front(b).push_front(c);
            &&& w.elements() == seq![c, b, a]
            &&& w.back() == Some(a)
            &&& w.pop_back().back() == Some(b)
            &&& w.pop_back().pop_back().back() == Some(c)
            &&& w.pop_back().pop_back().pop_back().back() == None::<D>
            &&& w.pop_back().pop_back().pop_back().order.len() == 0
        }),
{
    let w1 = v.push_front(a);
    v.lemma_push_front_wf(a);
    v.lemma_push_front_elements(a);
    let w2 = w1.push_front(b);
    w1.lemma_push_front_wf(b);
    w1.lemma_push_front_elements(b);
    let w = w2.push_front(c);
    w2.lemma_push_front_wf(c);
    w2.lemma_push_front_elements(c);
    assert(v.elements() =~= Seq::<D>::empty());
    assert(w.elements() =~= seq![c, b, a]);
    w.lemma_pop_back_elements();
    w.lemma_pop_back_wf();
    let once = w.pop_back();
    assert(once.elements() =~= seq![c, b]);
    once.lemma_pop_back_elements();
    once.lemma_pop_back_wf();
    let twice = once.pop_back();
    assert(twice.elements() =~= seq![c]);
    twice.lemma_pop_back_elements();
    twice.lemma_pop_back_wf();
}

/// Removing a live slot, wherever it stands, makes the slab one element
/// shorter and leaves the other elements in the order that they had. The
/// only element of a slab leaves it empty.
pub proof fn lemma_remove_keeps_order<D>(v: SlabView<D>, slot: Slot)
    requires
        v.wf(),
        v.is_live(slot),
    ensures
        ({
            let at = v.order.index_of(slot);
            let w = v.remove(slot);
            &&& 0 <= at < v.order.len()
            &&& v.order[at] == slot
            &&& w.order.len() == v.order.len() - 1
            &&& v.order.len() == 1 ==> w.order.len() == 0
            &&& w.order == v.order.remove(at)
            &&& w.elements() == v.elements().remove(at)
            &&& forall|i: int|
                0 <= i < w.order.len() ==> #[trigger] w.elements()[i] == v.elements()[if i < at {
                    i
                } else {
                    i + 1
                }]
        }),
{
    v.lemma_index_of_live(slot);
    v.lemma_remove_elements(slot);
}

/// Clearing empties a slab and keeps its capacity; after it as many pushes
/// as there are slots all find room, and they fill the slab.
pub proof fn lemma_clear_then_refill<D>(v: SlabView<D>, items: Seq<D>)
    requires
        v.wf(),
        items.len() == v.capacity,
    ensures
        v.clear().wf(),
        v.clear().order.len() == 0,
        v.clear().capacity == v.capacity,
        forall|k: int|
            0 <= k < items.len() ==> (#[trigger] v.clear().push_all(items.take(k))).free.len() > 0,
        v.clear().push_all(items) == SlabView::packed(v.capacity, items),
        v.clear().push_all(items).free.len() == 0,
{
    SlabView::<D>::lemma_fresh_wf(v.capacity);
    assert forall|k: int| 0 <= k < items.len() implies (#[trigger] v.clear().push_all(
        items.take(k),
    )).free.len() > 0 by {
        SlabView::lemma_packed(v.capacity, items.take(k));
    }
    SlabView::lemma_packed(v.capacity, items);
}

} // verus!
