use datastructs::bloom_filter::BloomFilter;
use datastructs::heap::MinHeap;

#[test]
fn insert_single() {
    let heap: MinHeap<i32> = MinHeap::from_vec(vec![0]);
    assert_eq!(heap.items(), &vec![0]);
}

#[test]
fn insert_simple() {
    let heap: MinHeap<i32> = MinHeap::from_vec(vec![2, 1]);
    assert_eq!(heap.items(), &vec![1, 2]);
}

#[test]
fn insert_negative() {
    let heap: MinHeap<i32> = MinHeap::from_vec(vec![2, 1, -2, -5, 0]);
    assert_eq!(heap.items(), &vec![-5, -2, 1, 2, 0]);
}

#[test]
fn insert_many() {
    let heap: MinHeap<i32> = MinHeap::from_vec(vec![8, 3, 10, 1, 6, 14, 4, 7, 13]);
    assert_eq!(heap.items(), &vec![1, 3, 4, 7, 6, 14, 10, 8, 13]);
}

#[test]
fn min_empty() {
    let mut heap: MinHeap<usize> = MinHeap::from_vec(vec![]);
    assert_eq!(heap.pop(), None);
}

#[test]
fn min_many() {
    let mut heap: MinHeap<i32> = MinHeap::from_vec(vec![8, 3, -1, 0, 10, 1]);
    assert_eq!(heap.pop(), Some(-1));
    assert_eq!(heap.pop(), Some(0));
    assert_eq!(heap.pop(), Some(1));
    assert_eq!(heap.pop(), Some(3));
    assert_eq!(heap.pop(), Some(8));
    assert_eq!(heap.pop(), Some(10));
    assert_eq!(heap.pop(), None);
}

#[test]
fn heap_sorts_any_order() {
    let mut heap: MinHeap<i32> = MinHeap::new();
    for v in [4, -7, 9, 0, 4, 2] {
        heap.insert(v);
    }
    let mut drained = Vec::new();
    while let Some(v) = heap.pop() {
        drained.push(v);
    }
    assert_eq!(drained, vec![-7, 0, 2, 4, 4, 9]);
}

#[test]
fn bloom_no_false_negatives() {
    let mut filter = BloomFilter::with_dimensions(64, 4);
    for item in [3u64, 99u64, 12345u64] {
        filter.insert(item);
    }
    assert!(filter.contains(3u64));
    assert!(filter.contains(99u64));
    assert!(filter.contains(12345u64));
}

#[test]
fn bloom_fresh_filter_contains_nothing() {
    let mut filter = BloomFilter::with_dimensions(64, 3);
    assert!(!filter.contains(1u64));
    assert!(!filter.contains("anything"));
}

#[test]
fn bloom_string_items() {
    let mut filter = BloomFilter::with_dimensions(128, 5);
    filter.insert("hello");
    filter.insert("world");
    assert!(filter.contains("hello"));
    assert!(filter.contains("world"));
}
