use algorithms::sort::heap::SmallHeap;
use algorithms::sort::{
    bubble_sort, heap_sort, insert_sort, merge_sort, quick_sort, select_sort, shell_sort,
};

#[test]
fn test_bubble_sort() {
    let mut l = [4, 3, 2, 1];
    bubble_sort(&mut l);
    assert_eq!(l, [1, 2, 3, 4]);
}

#[test]
fn test_select_sort() {
    let mut l = [4, 3, 2, 1];
    select_sort(&mut l);
    assert_eq!(l, [1, 2, 3, 4]);
}

#[test]
fn test_insert_sort() {
    let mut l = [4, 3, 1, 2];
    insert_sort(&mut l);
    assert_eq!(l, [1, 2, 3, 4]);
}

#[test]
fn test_shell_sort() {
    let mut l1 = [4, 3, 1, 2];
    let mut l2 = [4, 3, 2, 1];

    shell_sort(&mut l1);
    shell_sort(&mut l2);

    assert_eq!(l1, [1, 2, 3, 4]);
    assert_eq!(l2, [1, 2, 3, 4]);
}

#[test]
fn test_quick_sort() {
    let mut l1 = [2, 4, 3, 1, 5];
    let mut l2 = [5, 4, 3, 2, 1];

    quick_sort(&mut l1);
    quick_sort(&mut l2);

    assert_eq!(l1, [1, 2, 3, 4, 5]);
    assert_eq!(l2, [1, 2, 3, 4, 5]);
}

#[test]
fn test_merge_sort() {
    let mut l1 = [4, 2, 3, 5, 1];
    let mut l2 = [8, 7, 6, 5, 4, 3, 2, 1];

    merge_sort(&mut l1);
    merge_sort(&mut l2);

    assert_eq!(l1, [1, 2, 3, 4, 5]);
    assert_eq!(l2, [1, 2, 3, 4, 5, 6, 7, 8]);
}

#[test]
fn test_heap_sort() {
    let l1 = vec![5, 8, 2, 4, 1];
    let l2 = vec![5, 8, 2, 4, 1, 10, 11, 4, 2];

    assert_eq!(heap_sort(l1), vec![1, 2, 4, 5, 8]);
    assert_eq!(heap_sort(l2), vec![1, 2, 2, 4, 4, 5, 8, 10, 11]);
}

fn samples() -> Vec<Vec<i32>> {
    let mut lists: Vec<Vec<i32>> = vec![
        vec![],
        vec![7],
        vec![2, 1],
        vec![1, 2],
        vec![3, 3, 3],
        vec![1, 2, 3, 4, 5, 6, 7],
        vec![7, 6, 5, 4, 3, 2, 1],
        vec![0, -1, i32::MAX, i32::MIN, 0, 5, -1],
    ];
    let mut seed: u64 = 99;
    for len in 0..40 {
        let mut list = Vec::new();
        for _ in 0..len {
            seed = seed.wrapping_mul(6364136223846793005).wrapping_add(1442695040888963407);
            list.push(((seed >> 40) % 50) as i32 - 25);
        }
        lists.push(list);
    }
    lists
}

fn check(sort: fn(&mut [i32])) {
    for list in samples() {
        let mut expected = list.clone();
        expected.sort();
        let mut sorted = list.clone();
        sort(&mut sorted);
        assert_eq!(sorted, expected, "from {:?}", list);
    }
}

#[test]
fn bubble_sort_sorts_every_sample() {
    check(bubble_sort::<i32>);
}

#[test]
fn select_sort_sorts_every_sample() {
    check(select_sort::<i32>);
}

#[test]
fn insert_sort_sorts_every_sample() {
    check(insert_sort::<i32>);
}

#[test]
fn shell_sort_sorts_every_sample() {
    check(shell_sort::<i32>);
}

#[test]
fn quick_sort_sorts_every_sample() {
    check(quick_sort::<i32>);
}

#[test]
fn merge_sort_sorts_every_sample() {
    check(merge_sort::<i32>);
}

#[test]
fn heap_sort_sorts_every_sample() {
    for list in samples() {
        let mut expected = list.clone();
        expected.sort();
        assert_eq!(heap_sort(list), expected);
    }
}

#[test]
fn sorts_take_other_ordered_types() {
    let mut words = ["pear", "apple", "fig", "apple"];
    quick_sort(&mut words);
    assert_eq!(words, ["apple", "apple", "fig", "pear"]);
    let mut pairs = [(2u8, 'b'), (1, 'z'), (2, 'a')];
    merge_sort(&mut pairs);
    assert_eq!(pairs, [(1, 'z'), (2, 'a'), (2, 'b')]);
    let mut owned = vec![String::from("b"), String::from("a")];
    select_sort(&mut owned);
    assert_eq!(owned, vec![String::from("a"), String::from("b")]);
    bubble_sort(&mut owned);
    assert_eq!(owned, vec![String::from("a"), String::from("b")]);
}

#[test]
fn small_heap_gives_the_least_first() {
    let mut heap = SmallHeap::new(vec![9, 4, 7, 1, 8, 1]);
    assert!(!heap.is_empty());
    let mut taken = Vec::new();
    while !heap.is_empty() {
        taken.push(heap.pop_top());
    }
    assert_eq!(taken, vec![1, 1, 4, 7, 8, 9]);
    assert!(SmallHeap::new(Vec::<i32>::new()).is_empty());
}

#[test]
fn small_heap_sift_down_restores_the_order_below() {
    // Only the root is out of place.
    let mut heap = SmallHeap::new(vec![1, 2, 3, 4, 5, 6, 7]);
    assert_eq!(heap.pop_top(), 1);
    heap.sift_down(0);
    heap.sift_down(100);
    let mut taken = Vec::new();
    while !heap.is_empty() {
        taken.push(heap.pop_top());
    }
    assert_eq!(taken, vec![2, 3, 4, 5, 6, 7]);
}
