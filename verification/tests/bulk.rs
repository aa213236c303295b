use slabigator::{Error, Slab, Slot};

fn front_to_back(slab: &Slab<i32>) -> Vec<i32> {
    let mut out = Vec::new();
    let mut it = slab.iter();
    while let Some(value) = it.next() {
        out.push(*value);
    }
    out
}

#[test]
fn from_vec_takes_exactly_as_many_slots_as_elements() {
    let slab = Slab::from_vec(vec![10, 20, 30]).unwrap();
    assert_eq!(slab.capacity(), 3);
    assert_eq!(slab.len(), 3);
    assert!(slab.is_full());
    assert_eq!(front_to_back(&slab), vec![10, 20, 30]);
    // The last element was pushed first.
    assert_eq!(slab.get(0), Ok(&30));
    assert_eq!(slab.get(1), Ok(&20));
    assert_eq!(slab.get(2), Ok(&10));
}

#[test]
fn from_vec_of_nothing_has_no_slots() {
    let slab: Slab<i32> = Slab::from_vec(Vec::new()).unwrap();
    assert_eq!(slab.capacity(), 0);
    assert!(slab.is_empty());
    assert!(slab.is_full());
}

#[test]
fn collect_from_keeps_a_generous_estimate() {
    let mut slab = Slab::collect_from(10, vec![1, 2, 3]).unwrap();
    assert_eq!(slab.capacity(), 10);
    assert_eq!(slab.len(), 3);
    assert_eq!(slab.free(), 7);
    assert_eq!(front_to_back(&slab), vec![1, 2, 3]);
    assert_eq!(slab.get(0), Ok(&3));
    assert_eq!(slab.get(2), Ok(&1));
    assert_eq!(slab.push_front(0), Ok(3));
}

#[test]
fn collect_from_doubles_a_small_estimate() {
    // Two slots, then four, then eight.
    let mut slab = Slab::collect_from(2, vec![1, 2, 3, 4, 5]).unwrap();
    assert_eq!(slab.capacity(), 8);
    assert_eq!(slab.len(), 5);
    assert_eq!(slab.free(), 3);
    assert_eq!(front_to_back(&slab), vec![1, 2, 3, 4, 5]);
    for slot in 0..5u32 {
        assert_eq!(slab.get(slot), Ok(&(5 - slot as i32)));
    }
    assert_eq!(slab.get(5), Err(Error::InvalidSlot));
    assert_eq!(slab.push_front(0), Ok(5));

    // Three slots, then six: doubling stops as soon as everything fits.
    let slab = Slab::collect_from(3, vec![1, 2, 3, 4]).unwrap();
    assert_eq!(slab.capacity(), 6);
    let slab = Slab::collect_from(1, vec![1, 2, 3, 4]).unwrap();
    assert_eq!(slab.capacity(), 4);
    let slab = Slab::collect_from(1, vec![1, 2, 3, 4, 5]).unwrap();
    assert_eq!(slab.capacity(), 8);
    assert_eq!(front_to_back(&slab), vec![1, 2, 3, 4, 5]);
}

#[test]
fn collect_from_cannot_grow_out_of_nothing() {
    assert!(matches!(Slab::collect_from(0, vec![1]), Err(Error::Full)));
    let empty: Slab<i32> = Slab::collect_from(0, Vec::new()).unwrap();
    assert_eq!(empty.capacity(), 0);
    assert!(empty.is_empty());
}

#[test]
fn collect_from_refuses_an_estimate_beyond_the_slot_numbers() {
    assert!(matches!(
        Slab::<i32>::collect_from(u32::MAX as usize, Vec::new()),
        Err(Error::TooLarge)
    ));
    assert!(matches!(Slab::collect_from(usize::MAX, vec![1, 2]), Err(Error::TooLarge)));
}

#[test]
fn migrate_packs_the_elements_into_the_first_slots() {
    let mut slab = Slab::with_capacity(4).unwrap();
    let a = slab.push_front(1).unwrap();
    slab.push_front(2).unwrap();
    slab.push_front(3).unwrap();
    slab.remove(a).unwrap();
    slab.push_front(4).unwrap();
    assert_eq!(front_to_back(&slab), vec![4, 3, 2]);
    assert_eq!(slab.get(0), Ok(&4));

    let mut moved = slab.migrate(6).unwrap();
    assert_eq!(moved.capacity(), 6);
    assert_eq!(moved.len(), 3);
    assert_eq!(front_to_back(&moved), vec![4, 3, 2]);
    // The back element went over first.
    assert_eq!(moved.get(0), Ok(&2));
    assert_eq!(moved.get(1), Ok(&3));
    assert_eq!(moved.get(2), Ok(&4));
    assert_eq!(moved.push_front(5), Ok(3));
}

#[test]
fn migrate_refuses_a_capacity_too_small_for_the_elements() {
    let slab = Slab::from_vec(vec![1, 2, 3]).unwrap();
    assert!(matches!(slab.migrate(2), Err(Error::Full)));
    let slab = Slab::from_vec(vec![1, 2, 3]).unwrap();
    let same = slab.migrate(3).unwrap();
    assert_eq!(same.capacity(), 3);
    assert_eq!(front_to_back(&same), vec![1, 2, 3]);
    let empty: Slab<i32> = Slab::with_capacity(4).unwrap();
    assert_eq!(empty.migrate(0).unwrap().capacity(), 0);
}

#[test]
fn migrate_refuses_a_capacity_beyond_the_slot_numbers() {
    let mut slab = Slab::with_capacity(1).unwrap();
    slab.push_front(1).unwrap();
    assert!(matches!(slab.migrate(u32::MAX as usize), Err(Error::TooLarge)));
}

#[test]
fn extend_pushes_each_element_in_turn() {
    let mut slab = Slab::with_capacity(6).unwrap();
    let a = slab.push_front(1).unwrap();
    slab.push_front(2).unwrap();
    slab.remove(a).unwrap();
    // Slot 0 is free again and is taken first, then 2 and 3.
    slab.extend(vec![3, 4, 5]);
    assert_eq!(front_to_back(&slab), vec![5, 4, 3, 2]);
    assert_eq!(slab.get(0), Ok(&3));
    assert_eq!(slab.get(2), Ok(&4));
    assert_eq!(slab.get(3), Ok(&5));
    assert_eq!(slab.free(), 2);
    slab.extend(Vec::new());
    assert_eq!(slab.len(), 4);
    slab.extend(vec![6, 7]);
    assert!(slab.is_full());
    assert_eq!(front_to_back(&slab), vec![7, 6, 5, 4, 3, 2]);
    let slots: Vec<Slot> = (0..6).collect();
    assert!(slots.iter().all(|&s| slab.contains_slot(s)));
}
