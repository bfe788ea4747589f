use datastructs::array_deque::VecDeque;
use datastructs::array_dequeue::Deque;
use datastructs::array_queue::Queue;
use datastructs::circular_buffer::Buffer;
use datastructs::linked_list_simple::List;
use datastructs::linked_list_tuple::LinkedList;
use datastructs::unsafe_singly_linked_queue;

#[test]
fn array_deque_basic() {
    let mut deque = VecDeque::new();
    assert_eq!(deque.pop_front(), None);

    deque.push_back(1);
    assert_eq!(deque.pop_back(), Some(1));
    deque.push_back(1);
    assert_eq!(deque.pop_front(), Some(1));

    deque.push_front(1);
    assert_eq!(deque.pop_back(), Some(1));
    deque.push_front(1);
    assert_eq!(deque.pop_front(), Some(1));

    deque.push_front(1);
    deque.push_back(2);
    deque.push_front(0);
    assert_eq!(deque.pop_front(), Some(0));
    assert_eq!(deque.pop_front(), Some(1));
    assert_eq!(deque.pop_front(), Some(2));
}

#[test]
fn grow() {
    let mut deque = VecDeque::with_capacity(3);
    assert_eq!(deque.capacity(), 3);

    deque.push_back(0);
    deque.push_back(1);
    deque.pop_front();
    deque.push_back(2);
    deque.push_back(3);
    deque.push_back(4);
    assert_eq!(deque.capacity(), 6);
    assert_eq!(deque.slot(0), Some(&1));
    assert_eq!(deque.slot(1), Some(&2));
    assert_eq!(deque.slot(2), Some(&3));
    assert_eq!(deque.slot(3), Some(&4));
    assert_eq!(deque.slot(4), None);
}

#[test]
fn deque_is_empty_tracks_len() {
    let mut deque = VecDeque::new();
    assert!(deque.is_empty());
    deque.push_back(9);
    assert!(!deque.is_empty());
    deque.pop_back();
    assert!(deque.is_empty());
}

#[test]
fn array_dequeue_with_capacity() {
    let _q: Deque<u8> = Deque::with_capacity(7);
}

#[test]
fn array_queue_basic() {
    let mut queue = Queue::new();
    assert_eq!(queue.pop(), None);

    queue.push(0);
    queue.push(1);
    queue.push(2);
    assert_eq!(queue.pop(), Some(0));
    queue.push(3);
    queue.push(4);
    assert_eq!(queue.pop(), Some(1));
    queue.push(5);
    assert_eq!(queue.pop(), Some(2));
    assert_eq!(queue.pop(), Some(3));
    queue.push(6);
    queue.push(7);
    assert_eq!(queue.pop(), Some(4));
    assert_eq!(queue.pop(), Some(5));
    assert_eq!(queue.pop(), Some(6));
    assert_eq!(queue.pop(), Some(7));
    assert_eq!(queue.pop(), None);
}

#[test]
fn array_queue_from_zero_capacity() {
    let mut queue = Queue::with_capacity(0);
    queue.push(5);
    queue.push(6);
    assert_eq!(queue.pop(), Some(5));
    assert_eq!(queue.pop(), Some(6));
    assert_eq!(queue.pop(), None);
}

#[test]
fn circular_buffer_basic() {
    let mut buf = Buffer::new();

    assert_eq!(buf.pop(), None);
    buf.push(1);
    assert_eq!(buf.pop(), Some(1));
    buf.push(1);
    buf.push(2);
    buf.push(3);
    buf.push(4);
    buf.push(5); // <- should overwrite 1, making the reader skip it
    assert_eq!(buf.pop(), Some(2));
    assert_eq!(buf.pop(), Some(3));
    assert_eq!(buf.pop(), Some(4));
    assert_eq!(buf.pop(), Some(5));
    assert_eq!(buf.pop(), None);
    buf.push(1);
    assert_eq!(buf.pop(), Some(1));
}

#[test]
fn circular_buffer_wraps_many_times() {
    let mut buf = Buffer::with_capacity(3);
    for round in 0..5 {
        buf.push(round * 2);
        buf.push(round * 2 + 1);
        assert_eq!(buf.pop(), Some(round * 2));
        assert_eq!(buf.pop(), Some(round * 2 + 1));
        assert_eq!(buf.pop(), None);
    }
}

#[test]
fn linked_list_simple_basics() {
    let mut list = List::new();

    // Check empty list behaves right
    assert_eq!(list.pop(), None);

    // Populate list
    list.push(1);
    list.push(2);
    list.push(3);

    // Check normal removal
    assert_eq!(list.pop(), Some(3));
    assert_eq!(list.pop(), Some(2));

    // Push some more just to make sure nothing's corrupted
    list.push(4);
    list.push(5);

    // Check normal removal
    assert_eq!(list.pop(), Some(5));
    assert_eq!(list.pop(), Some(4));

    // Check exhaustion
    assert_eq!(list.pop(), Some(1));
    assert_eq!(list.pop(), None);
}

#[test]
fn linked_list_simple_peek() {
    let mut list = List::new();
    assert_eq!(list.peek(), None);
    assert_eq!(list.peek_mut(), None);
    list.push(1);
    list.push(2);
    list.push(3);

    assert_eq!(list.peek(), Some(&3));
    assert_eq!(list.peek_mut(), Some(&mut 3));

    list.peek_mut().map(|value| *value = 42);

    assert_eq!(list.peek(), Some(&42));
    assert_eq!(list.pop(), Some(42));
}

#[test]
fn linked_list_simple_into_iter() {
    let mut list = List::new();
    list.push(1);
    list.push(2);
    list.push(3);

    let mut iter = list.into_iter();
    assert_eq!(iter.next(), Some(3));
    assert_eq!(iter.next(), Some(2));
    assert_eq!(iter.next(), Some(1));
    assert_eq!(iter.next(), None);
}

#[test]
fn linked_list_simple_iter() {
    let mut list = List::new();
    list.push(1);
    list.push(2);
    list.push(3);

    let mut iter = list.iter();
    assert_eq!(iter.next(), Some(&3));
    assert_eq!(iter.next(), Some(&2));
    assert_eq!(iter.next(), Some(&1));
    assert_eq!(iter.next(), None);

    assert_eq!(list.pop(), Some(3));
}

#[test]
fn linked_list_tuple_ops() {
    let mut list = LinkedList::new();
    list.prepend(2);
    list.prepend(1);
    list.append(3);
    // The list now reads 1, 2, 3 from the head.
    assert!(list.find(3).is_some());
    assert!(list.find(4).is_none());
    let sub = list.find(2).unwrap();
    assert!(sub.find(3).is_some());
    assert!(sub.find(1).is_none());
}

#[test]
fn unsafe_singly_linked_queue_new() {
    let _q: unsafe_singly_linked_queue::List<u8> = unsafe_singly_linked_queue::List::new();
}
