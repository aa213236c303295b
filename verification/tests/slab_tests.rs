use std::collections::VecDeque;

use rand::Rng;
use slabigator::Slab;

#[test]
fn test() {
    let mut slab = Slab::with_capacity(3).unwrap();
    let a = slab.push_front(Box::pin(1)).unwrap();
    let b = slab.push_front(Box::pin(2)).unwrap();
    slab.push_front(Box::pin(3)).unwrap();
    assert_eq!(slab.len(), 3);
    assert!(slab.push_front(Box::pin(4)).is_err());
    slab.remove(a).unwrap();
    slab.remove(b).unwrap();
    assert_eq!(slab.len(), 1);
    let cv = slab.pop_back().unwrap();
    assert_eq!(3, *cv);
}

#[test]
fn test2() {
    let mut rng = rand::rng();
    let capacity = rng.random_range(1..=50);
    let mut slab = Slab::with_capacity(capacity).unwrap();

    let mut c: u64 = 0;
    let mut expected_len: usize = 0;
    let mut deque = VecDeque::with_capacity(capacity);
    for _ in 0..1_000_000 {
        let x = rng.random_range(0..=3);
        match x {
            0 => match slab.push_front(c) {
                Err(_) => {
                    assert!(slab.is_full());
                    assert_eq!(slab.free(), 0);
                }
                Ok(idx) => {
                    deque.push_front(idx);
                    expected_len += 1;
                    assert!(expected_len <= capacity);
                    assert_eq!(slab.free(), capacity - expected_len);
                }
            },
            1 => match slab.pop_back() {
                None => {
                    assert!(slab.is_empty());
                    assert_eq!(slab.free(), capacity);
                }
                Some(_x) => {
                    deque.pop_back().unwrap();
                    expected_len -= 1;
                    assert_eq!(slab.free(), capacity - expected_len);
                    if expected_len == 0 {
                        assert!(slab.is_empty());
                    }
                }
            },
            2 => {
                if slab.is_empty() {
                    continue;
                }
                let deque_len = deque.len();
                if deque_len == 0 {
                    continue;
                }
                let r = rng.random_range(0..deque_len);
                let idx = deque.remove(r).unwrap();
                slab.remove(idx).unwrap();
                expected_len -= 1;
                assert_eq!(slab.free(), capacity - expected_len);
            }
            3 => {
                // Only test slots that we know are valid in the deque
                if deque.is_empty() {
                    continue;
                }
                let r = rng.random_range(0..deque.len());
                let slot = deque[r];

                // Remove from the deque first
                let idx = deque.iter().position(|&x| x == slot).unwrap();
                deque.remove(idx);

                // Then remove from the slab
                slab.remove(slot).unwrap();
                expected_len -= 1;
                assert_eq!(slab.free(), capacity - expected_len);
            }
            _ => unreachable!(),
        }
        assert_eq!(slab.len(), expected_len);
        c += 1;
    }
}

#[test]
fn test_default() {
    let slab: Slab<i32> = Slab::default();
    assert_eq!(slab.capacity(), 16);
    assert_eq!(slab.len(), 0);
    assert!(slab.is_empty());
}

#[test]
fn lib_test_from_iterator() {
    // Create a vector of test values
    let values = vec![1, 2, 3, 4, 5];

    // Create a slab from the vector
    let slab: Slab<i32> = Slab::from_vec(values.clone()).unwrap();

    // Verify the length
    assert_eq!(slab.len(), 5);

    // The elements are pushed from the last to the first, so the slots
    // hold them in reverse
    if slab.len() == 5 {
        assert_eq!(*slab.get(0).unwrap(), 5); // Last element in input, first in slab
        assert_eq!(*slab.get(1).unwrap(), 4);
        assert_eq!(*slab.get(2).unwrap(), 3);
        assert_eq!(*slab.get(3).unwrap(), 2);
        assert_eq!(*slab.get(4).unwrap(), 1); // First element in input, last in slab
    }
}

#[test]
fn test_extend() {
    let mut slab = Slab::with_capacity(5).unwrap();
    slab.push_front(1).unwrap();
    slab.push_front(2).unwrap();

    slab.extend(vec![3, 4, 5]);
    assert_eq!(slab.len(), 5);

    // Collect the items to see what's actually there
    let mut items: Vec<i32> = Vec::new();
    let mut it = slab.iter();
    while let Some(value) = it.next() {
        items.push(*value);
    }

    // Elements appear in the reverse order of how they were added
    assert_eq!(items, vec![5, 4, 3, 2, 1]);
}

#[test]
fn test_clear() {
    let mut slab = Slab::with_capacity(3).unwrap();
    slab.push_front(1).unwrap();
    slab.push_front(2).unwrap();
    slab.push_front(3).unwrap();

    assert_eq!(slab.len(), 3);
    assert!(slab.is_full());

    slab.clear();

    assert_eq!(slab.len(), 0);
    assert!(slab.is_empty());
    assert!(!slab.is_full());

    // Should be able to add elements again
    let a = slab.push_front(4).unwrap();
    let b = slab.push_front(5).unwrap();
    let c = slab.push_front(6).unwrap();

    assert_eq!(slab.len(), 3);
    assert!(slab.is_full());

    // We can get elements by slot
    assert_eq!(*slab.get(a).unwrap(), 4);
    assert_eq!(*slab.get(b).unwrap(), 5);
    assert_eq!(*slab.get(c).unwrap(), 6);
}
