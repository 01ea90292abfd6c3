use ir_algorithms::heap::{heapsort, BinaryHeap};

#[test]
fn peek_mut_restores_heap_prop() {
    let data = vec![10, 2, 3, 8, 3, 15];
    let check = vec![1, 2, 3, 3, 8, 10];

    let mut heap = BinaryHeap::from(data);

    assert_eq!(heap.peek_mut(1), Some(15));

    assert_eq!(heap.into_sorted_vec(), check)
}

#[test]
fn insert_peek_and_pop() {
    let xs = vec![5u64, 1, 9, 9, 0, 7, 3];
    let mut heap = BinaryHeap::new();
    assert!(heap.is_empty());
    for v in &xs {
        heap.insert(*v);
    }
    let mut sorted = xs.clone();
    sorted.sort();
    while let Some(expected) = sorted.pop() {
        assert_eq!(heap.peek(), Some(&expected));
        assert_eq!(heap.pop(), Some(expected));
    }
    assert!(heap.is_empty());
    assert_eq!(heap.peek(), None);
    assert_eq!(heap.pop(), None);
}

#[test]
fn heapsort_sorts() {
    assert_eq!(heapsort(vec![3, 1, 2, 3, 0, 100, 50]), vec![0, 1, 2, 3, 3, 50, 100]);
    assert_eq!(heapsort(vec![]), Vec::<u64>::new());
    assert_eq!(heapsort(vec![42]), vec![42]);
}

#[test]
fn peek_mut_on_empty_heap() {
    let mut heap = BinaryHeap::new();
    assert_eq!(heap.peek_mut(3), None);
    assert!(heap.is_empty());
}

#[test]
fn from_vec_builds_the_same_heap() {
    let mut heap = BinaryHeap::from_vec(vec![10, 2, 3, 8, 3, 15]);
    assert_eq!(heap.peek_mut(1), Some(15));
    assert_eq!(heap.into_sorted_vec(), vec![1, 2, 3, 3, 8, 10]);
}
