use slabigator::Slab;

fn front_to_back(slab: &Slab<i32>) -> Vec<i32> {
    let mut out = Vec::new();
    let mut it = slab.iter();
    while let Some(value) = it.next() {
        out.push(*value);
    }
    out
}

#[test]
fn basic_tests_test_from_iterator() {
    // Create a vector of values
    let input = vec![1, 2, 3, 4, 5];

    // Collect into a slab
    let slab: Slab<i32> = Slab::from_vec(input).unwrap();

    // Verify the size
    assert_eq!(slab.len(), 5);

    // Elements keep the order of the input
    let expected = vec![1, 2, 3, 4, 5];

    // Verify elements have the expected order
    let output: Vec<i32> = front_to_back(&slab);
    assert_eq!(output, expected);
}

#[test]
fn test_extend_functionality() {
    let mut slab = Slab::with_capacity(5).unwrap();
    slab.push_front(1).unwrap();
    slab.push_front(2).unwrap();

    // Extend with more elements
    slab.extend(vec![3, 4, 5]);

    // Verify size
    assert_eq!(slab.len(), 5);

    // Verify order after extending - elements are in reverse order of insertion
    // since extend pushes each element to the front
    let items: Vec<i32> = front_to_back(&slab);
    assert_eq!(items, vec![5, 4, 3, 2, 1]);
}

#[test]
fn test_clear_operation() {
    let mut slab = Slab::with_capacity(3).unwrap();

    // Add elements
    let _a = slab.push_front(4).unwrap();
    let _b = slab.push_front(5).unwrap();
    let _c = slab.push_front(6).unwrap();

    assert_eq!(slab.len(), 3);
    assert!(slab.is_full());

    // Clear the slab
    slab.clear();

    // Verify it's empty
    assert_eq!(slab.len(), 0);
    assert!(slab.is_empty());
    assert!(!slab.is_full());

    // Add new elements
    let x = slab.push_front(7).unwrap();
    let y = slab.push_front(8).unwrap();
    let z = slab.push_front(9).unwrap();

    // Verify slab state
    assert_eq!(slab.len(), 3);
    assert!(slab.is_full());

    // Verify access to new elements
    assert_eq!(*slab.get(x).unwrap(), 7);
    assert_eq!(*slab.get(y).unwrap(), 8);
    assert_eq!(*slab.get(z).unwrap(), 9);
}
