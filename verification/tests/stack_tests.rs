use datastructs::array_stack;
use datastructs::array_stack_simple;
use datastructs::auxiliary_stack;
use datastructs::rootish_array_stack::RootishStack;
use datastructs::singly_linked_stack;

#[test]
fn array_stack_add() {
    let mut stack: array_stack::Stack<u8> = array_stack::Stack::new();
    assert_eq!(stack.len(), 0);

    // Should resize backing array
    stack.add(8, 13);
    assert_eq!(stack.get(8), Some(&13));
    assert_eq!(stack.capacity(), 16);
    assert_eq!(stack.len(), 1);

    stack.add(100, 13);
    assert_eq!(stack.get(100), Some(&13));
    assert_eq!(stack.capacity(), 128);
}

#[test]
fn array_stack_set() {
    let mut stack: array_stack::Stack<u8> = array_stack::Stack::new();

    stack.add(0, 13);
    assert_eq!(stack.len(), 1);
    assert_eq!(stack.get(0), Some(&13));

    // Should overwrite
    stack.set(0, 69);
    assert_eq!(stack.get(0), Some(&69));
    assert_eq!(stack.len(), 1);

    // Should resize & set
    stack.set(100, 13);
    assert_eq!(stack.get(100), Some(&13));
    assert_eq!(stack.len(), 2);
}

#[test]
fn array_stack_remove() {
    let mut stack: array_stack::Stack<u8> = array_stack::Stack::new();

    stack.add(0, 13);
    assert_eq!(stack.get(0), Some(&13));
    assert_eq!(stack.len(), 1);

    assert_eq!(stack.remove(0), Some(13));
    assert_eq!(stack.get(0), None);
    assert_eq!(stack.len(), 0);

    assert_eq!(stack.remove(100), None);
    assert_eq!(stack.get(100), None);
}

#[test]
fn array_stack_shift_right() {
    let mut stack: array_stack::Stack<u8> = array_stack::Stack::with_capacity(4);
    assert_eq!(stack.capacity(), 4);
    stack.set(0, 0);
    stack.set(1, 1);
    stack.set(2, 2);
    stack.set(3, 3);
    stack.add(0, 13);
    assert_eq!(stack.get(0), Some(&13));
    assert_eq!(stack.get(1), Some(&0));
    assert_eq!(stack.get(2), Some(&1));
    assert_eq!(stack.get(3), Some(&2));
    assert_eq!(stack.get(4), Some(&3));
    assert_eq!(stack.capacity(), 8);
    assert_eq!(stack.len(), 5);

    let mut stack: array_stack::Stack<u8> = array_stack::Stack::new();
    stack.set(2, 2);
    stack.add(2, 13);
    assert_eq!(stack.get(2), Some(&13));
    assert_eq!(stack.get(3), Some(&2));
}

#[test]
fn array_stack_edge_cases() {
    let mut stack: array_stack::Stack<u8> = array_stack::Stack::with_capacity(0);
    assert_eq!(stack.get(11), None);
    assert_eq!(stack.set(0, 13), None);
}

#[test]
fn array_stack_simple_add() {
    let mut stack: array_stack_simple::Stack<u8> = array_stack_simple::Stack::new();

    stack.add(0, 13);
    assert_eq!(stack.get(0), Some(&13));
    assert_eq!(stack.len(), 1);

    // Should resize backing array
    stack.add(8, 13);
    assert_eq!(stack.get(8), Some(&13));
    assert_eq!(stack.capacity(), 16);
    assert_eq!(stack.len(), 2);

    stack.add(100, 13);
    assert_eq!(stack.get(100), Some(&13));
    assert_eq!(stack.capacity(), 128);
}

#[test]
fn array_stack_simple_set() {
    let mut stack: array_stack_simple::Stack<u8> = array_stack_simple::Stack::new();

    stack.add(0, 13);
    assert_eq!(stack.len(), 1);
    assert_eq!(stack.get(0), Some(&13));

    // Should overwrite
    stack.set(0, 69);
    assert_eq!(stack.get(0), Some(&69));
    assert_eq!(stack.len(), 1);

    // Should resize & set
    stack.set(100, 13);
    assert_eq!(stack.get(100), Some(&13));
    assert_eq!(stack.len(), 2);
}

#[test]
fn array_stack_simple_remove() {
    let mut stack: array_stack_simple::Stack<u8> = array_stack_simple::Stack::new();

    stack.add(0, 13);
    assert_eq!(stack.get(0), Some(&13));
    assert_eq!(stack.len(), 1);

    assert_eq!(stack.remove(0), Some(13));
    assert_eq!(stack.get(0), None);
    assert_eq!(stack.len(), 0);

    assert_eq!(stack.remove(100), None);
    assert_eq!(stack.get(100), None);
}

#[test]
fn array_stack_simple_shift_right() {
    let mut stack: array_stack_simple::Stack<u8> = array_stack_simple::Stack::with_capacity(4);
    assert_eq!(stack.capacity(), 4);
    stack.set(0, 0);
    stack.set(1, 1);
    stack.set(2, 2);
    stack.set(3, 3);
    stack.add(0, 13);
    assert_eq!(stack.get(0), Some(&13));
    assert_eq!(stack.get(1), Some(&0));
    assert_eq!(stack.get(2), Some(&1));
    assert_eq!(stack.get(3), Some(&2));
    assert_eq!(stack.get(4), Some(&3));
    assert_eq!(stack.capacity(), 8);
    assert_eq!(stack.len(), 5);

    let mut stack: array_stack_simple::Stack<u8> = array_stack_simple::Stack::new();
    stack.set(2, 2);
    stack.add(2, 13);
    assert_eq!(stack.get(2), Some(&13));
    assert_eq!(stack.get(3), Some(&2));
}

#[test]
fn array_stack_simple_edge_cases() {
    let mut stack: array_stack_simple::Stack<u8> = array_stack_simple::Stack::with_capacity(0);
    assert_eq!(stack.get(11), None);
    assert_eq!(stack.set(0, 13), None);
}

#[test]
fn test_push() {
    let mut stack = auxiliary_stack::Stack::new();
    stack.push(5);
    stack.push(3);
    stack.push(7);

    assert_eq!(stack.min(), Some(&3));
}

#[test]
fn test_pop() {
    let mut stack = auxiliary_stack::Stack::new();
    stack.push(5);
    stack.push(3);
    stack.push(7);

    assert_eq!(stack.pop(), Some(7));
    assert_eq!(stack.min(), Some(&3));

    assert_eq!(stack.pop(), Some(3));
    assert_eq!(stack.min(), Some(&5));

    assert_eq!(stack.pop(), Some(5));
    assert_eq!(stack.min(), None);

    assert_eq!(stack.pop(), None);
}

#[test]
fn test_min() {
    let mut stack = auxiliary_stack::Stack::new();
    stack.push(5);
    stack.push(3);
    stack.push(7);

    assert_eq!(stack.min(), Some(&3));

    stack.pop();
    assert_eq!(stack.min(), Some(&3));

    stack.pop();
    assert_eq!(stack.min(), Some(&5));

    stack.push(2);
    assert_eq!(stack.min(), Some(&2));
}

#[test]
fn min_with_duplicates() {
    let mut stack = auxiliary_stack::Stack::new();
    stack.push(3);
    stack.push(3);
    stack.push(9);
    assert_eq!(stack.min(), Some(&3));
    assert_eq!(stack.pop(), Some(9));
    assert_eq!(stack.pop(), Some(3));
    assert_eq!(stack.min(), Some(&3));
    assert_eq!(stack.pop(), Some(3));
    assert_eq!(stack.min(), None);
}

#[test]
fn rootish_array_stack_basic() {
    let mut stack = RootishStack::new();
    assert_eq!(stack.len(), 0);
    assert_eq!(stack.get_block(), 0);
    assert_eq!(stack.get_index(), 0);

    stack.push(0);
    assert_eq!(stack.len(), 1);
    assert_eq!(stack.get_block(), 1);
    assert_eq!(stack.get_index(), 0);

    stack.push(1);
    assert_eq!(stack.len(), 2);
    assert_eq!(stack.get_block(), 1);
    assert_eq!(stack.get_index(), 1);

    stack.push(2);
    assert_eq!(stack.len(), 3);
    assert_eq!(stack.get_block(), 2);
    assert_eq!(stack.get_index(), 0);

    assert_eq!(stack.pop(), Some(2));
    assert_eq!(stack.pop(), Some(1));
    assert_eq!(stack.pop(), Some(0));
    assert_eq!(stack.pop(), None);
    assert_eq!(stack.len(), 0);
}

#[test]
fn rootish_many_blocks() {
    let mut stack = RootishStack::new();
    for i in 0..20 {
        stack.push(i);
    }
    assert_eq!(stack.len(), 20);
    assert!(!stack.is_empty());
    for i in (0..20).rev() {
        assert_eq!(stack.pop(), Some(i));
    }
    assert!(stack.is_empty());
}

#[test]
fn singly_linked_stack_basics() {
    let list = singly_linked_stack::List::new();
    assert_eq!(list.peek(), None);

    let list = list.push(1).push(2).push(3);
    assert_eq!(list.peek(), Some(&3));

    let list = list.pop();
    assert_eq!(list.peek(), Some(&2));

    let list = list.pop();
    assert_eq!(list.peek(), Some(&1));

    let list = list.pop();
    assert_eq!(list.peek(), None);

    let list = list.pop();
    assert_eq!(list.peek(), None);
}

#[test]
fn singly_linked_stack_iter() {
    let list = singly_linked_stack::List::new().push(1).push(2).push(3);
    let mut iter = list.iter();
    assert_eq!(iter.next(), Some(&3));
    assert_eq!(iter.next(), Some(&2));
    assert_eq!(iter.next(), Some(&1));
    assert_eq!(iter.next(), None);
}
