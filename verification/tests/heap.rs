use algorithms::heap::{BinaryMinHeap, HeapElement, HeapMethod};

#[test]
fn test_binary_heap() {
    let heap = BinaryMinHeap::new();
    test_heap(heap);
}

fn test_heap(mut heap: impl HeapMethod<usize, usize>) {
    heap.push(HeapElement::new(5, 1));
    heap.push(HeapElement::new(3, 1));
    heap.push(HeapElement::new(7, 2));
    heap.push(HeapElement::new(12, 3));
    heap.push(HeapElement::new(11, 4));
    heap.push(HeapElement::new(20, 5));
    heap.push(HeapElement::new(16, 6));
    heap.push(HeapElement::new(9, 7));
    heap.push(HeapElement::new(12, 7));
    heap.push(HeapElement::new(4, 7));

    assert_eq!(heap.get_element(1).unwrap(), &HeapElement::new(3, 1));
    assert_eq!(heap.get_element(2).unwrap(), &HeapElement::new(7, 2));
    assert_eq!(heap.get_element(3).unwrap(), &HeapElement::new(12, 3));
    assert_eq!(heap.get_element(4).unwrap(), &HeapElement::new(11, 4));
    assert_eq!(heap.get_element(5).unwrap(), &HeapElement::new(20, 5));
    assert_eq!(heap.get_element(6).unwrap(), &HeapElement::new(16, 6));
    assert_eq!(heap.get_element(7).unwrap(), &HeapElement::new(4, 7));
    assert_eq!(heap.get_element(8), None);

    assert_eq!(heap.pop().unwrap(), HeapElement::new(3, 1));
    assert_eq!(heap.pop().unwrap(), HeapElement::new(4, 7));
    assert_eq!(heap.pop().unwrap(), HeapElement::new(7, 2));
    assert_eq!(heap.pop().unwrap(), HeapElement::new(11, 4));
    assert_eq!(heap.pop().unwrap(), HeapElement::new(12, 3));
    assert_eq!(heap.pop().unwrap(), HeapElement::new(16, 6));
    assert_eq!(heap.pop().unwrap(), HeapElement::new(20, 5));
    assert_eq!(heap.pop(), None);
}

fn drain(heap: &mut BinaryMinHeap<i64, usize>) -> Vec<(i64, usize)> {
    let mut popped = Vec::new();
    while let Some(element) = heap.pop() {
        popped.push((element.key, element.track_id));
    }
    popped
}

#[test]
fn empty_heap_pops_nothing() {
    let mut heap: BinaryMinHeap<i64, usize> = BinaryMinHeap::new();
    assert!(heap.pop().is_none());
    assert!(heap.get_element(1).is_none());
    heap.decrease_key(1, 1);
    assert!(heap.pop().is_none());
    let mut sized: BinaryMinHeap<i64, usize> = BinaryMinHeap::with_capacity(16);
    assert!(sized.pop().is_none());
}

#[test]
fn single_element_is_popped_directly() {
    let mut heap: BinaryMinHeap<i64, usize> = BinaryMinHeap::new();
    heap.push(HeapElement::new(-3, 9));
    let popped = heap.pop().unwrap();
    assert_eq!((popped.key, popped.track_id), (-3, 9));
    assert!(heap.get_element(9).is_none());
    assert!(heap.pop().is_none());
}

#[test]
fn pops_come_in_ascending_order() {
    let mut heap: BinaryMinHeap<i64, usize> = BinaryMinHeap::new();
    let keys = [31, -4, 15, 9, 26, 5, 35, 8, 97, 93, 23, 84, 62, 64, 33];
    for (id, key) in keys.iter().enumerate() {
        heap.push(HeapElement::new(*key, id));
    }
    let popped = drain(&mut heap);
    let mut expected: Vec<(i64, usize)> =
        keys.iter().enumerate().map(|(id, key)| (*key, id)).collect();
    expected.sort();
    assert_eq!(popped, expected);
}

#[test]
fn pop_gives_the_least_key_after_mixed_operations() {
    let mut heap: BinaryMinHeap<i64, usize> = BinaryMinHeap::new();
    heap.push(HeapElement::new(50, 1));
    heap.push(HeapElement::new(40, 2));
    heap.push(HeapElement::new(30, 3));
    heap.decrease_key(10, 1);
    assert_eq!(heap.pop().map(|e| (e.key, e.track_id)), Some((10, 1)));
    heap.push(HeapElement::new(35, 4));
    heap.push(HeapElement::new(20, 1));
    heap.decrease_key(25, 2);
    assert_eq!(heap.pop().map(|e| (e.key, e.track_id)), Some((20, 1)));
    assert_eq!(heap.pop().map(|e| (e.key, e.track_id)), Some((25, 2)));
    heap.decrease_key(1, 2);
    assert_eq!(drain(&mut heap), vec![(30, 3), (35, 4)]);
}

#[test]
fn decrease_key_needs_a_strictly_lesser_key() {
    let mut heap: BinaryMinHeap<i64, usize> = BinaryMinHeap::new();
    for (id, key) in [10, 20, 30, 40, 50].iter().enumerate() {
        heap.push(HeapElement::new(*key, id));
    }
    heap.decrease_key(40, 3);
    heap.decrease_key(45, 3);
    heap.decrease_key(30, 2);
    heap.decrease_key(5, 7);
    assert_eq!(heap.get_element(3).unwrap().key, 40);
    assert_eq!(heap.get_element(2).unwrap().key, 30);
    assert!(heap.get_element(7).is_none());
    assert_eq!(drain(&mut heap), vec![(10, 0), (20, 1), (30, 2), (40, 3), (50, 4)]);
}

#[test]
fn push_of_a_tracked_identity_lowers_its_key_or_does_nothing() {
    let mut heap: BinaryMinHeap<i64, usize> = BinaryMinHeap::new();
    heap.push(HeapElement::new(10, 1));
    heap.push(HeapElement::new(20, 2));
    heap.push(HeapElement::new(30, 2));
    assert_eq!(heap.get_element(2).unwrap().key, 20);
    heap.push(HeapElement::new(5, 2));
    assert_eq!(heap.get_element(2).unwrap().key, 5);
    assert_eq!(drain(&mut heap), vec![(5, 2), (10, 1)]);
}

#[test]
fn popped_identity_can_be_pushed_again() {
    let mut heap: BinaryMinHeap<i64, usize> = BinaryMinHeap::new();
    heap.push(HeapElement::new(10, 1));
    heap.push(HeapElement::new(20, 2));
    assert_eq!(heap.pop().map(|e| e.track_id), Some(1));
    heap.decrease_key(1, 1);
    assert!(heap.get_element(1).is_none());
    heap.push(HeapElement::new(30, 1));
    assert_eq!(heap.get_element(1).unwrap().key, 30);
    assert_eq!(drain(&mut heap), vec![(20, 2), (30, 1)]);
}

#[test]
fn every_tracked_identity_is_found_under_its_key() {
    let mut heap: BinaryMinHeap<i64, usize> = BinaryMinHeap::new();
    let mut keys: Vec<Option<i64>> = vec![None; 40];
    let mut seed: u64 = 12345;
    for _ in 0..2000 {
        seed = seed.wrapping_mul(6364136223846793005).wrapping_add(1442695040888963407);
        let id = ((seed >> 33) % 40) as usize;
        let key = ((seed >> 20) % 1000) as i64;
        match (seed >> 60) % 3 {
            0 => {
                heap.push(HeapElement::new(key, id));
                keys[id] = Some(match keys[id] {
                    Some(old) if old <= key => old,
                    _ => key,
                });
            }
            1 => {
                heap.decrease_key(key, id);
                if let Some(old) = keys[id] {
                    if key < old {
                        keys[id] = Some(key);
                    }
                }
            }
            _ => {
                let least = keys.iter().filter_map(|k| *k).min();
                let popped = heap.pop();
                assert_eq!(popped.as_ref().map(|e| e.key), least);
                if let Some(element) = popped {
                    assert_eq!(keys[element.track_id], Some(element.key));
                    keys[element.track_id] = None;
                }
            }
        }
        for (id, key) in keys.iter().enumerate() {
            match heap.get_element(id) {
                Some(element) => {
                    assert_eq!(element.track_id, id);
                    assert_eq!(Some(element.key), *key);
                }
                None => assert_eq!(*key, None),
            }
        }
    }
}

#[test]
fn elements_are_equal_when_their_keys_are() {
    assert_eq!(HeapElement::new(3usize, 1usize), HeapElement::new(3usize, 2usize));
    assert_ne!(HeapElement::new(3usize, 1usize), HeapElement::new(4usize, 1usize));
    let mut element = HeapElement::new(8i64, 5usize);
    element.reset_key(2);
    assert_eq!((element.key, element.track_id), (2, 5));
}

#[test]
fn tracked_element_can_be_borrowed_for_change() {
    let mut heap: BinaryMinHeap<i64, usize> = BinaryMinHeap::new();
    heap.push(HeapElement::new(10, 1));
    heap.push(HeapElement::new(20, 2));
    heap.push(HeapElement::new(30, 3));
    assert!(heap.get_mut_element(4).is_none());
    let element = heap.get_mut_element(2).unwrap();
    assert_eq!((element.key, element.track_id), (20, 2));
    // Lowering the key of a leaf below the root's has to be followed by
    // a repair; `decrease_key` does both at once.
    heap.decrease_key(5, 2);
    assert_eq!(heap.get_mut_element(2).unwrap().key, 5);
    assert_eq!(drain(&mut heap), vec![(5, 2), (10, 1), (30, 3)]);
}

#[test]
fn elements_are_ordered_as_their_keys() {
    assert!(HeapElement::new(3usize, 9usize) < HeapElement::new(4usize, 1usize));
    assert!(HeapElement::new(4usize, 1usize) >= HeapElement::new(4usize, 2usize));
    assert!(!(HeapElement::new(5usize, 1usize) < HeapElement::new(4usize, 2usize)));
}
