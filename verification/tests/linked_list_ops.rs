use basic_data_structures::linked_list::node::Node;
use basic_data_structures::linked_list::LinkedList;
use basic_data_structures::queue::Queue;
use basic_data_structures::stack::Stack;
use std::cell::RefCell;

fn filled(values: &[u32]) -> LinkedList<u32> {
    let mut list = LinkedList::new();
    for value in values {
        list.append(*value);
    }
    list
}

fn contents(list: &LinkedList<u32>) -> Vec<u32> {
    list.to_vec().into_iter().copied().collect()
}

#[test]
fn new_list_is_empty() {
    let list: LinkedList<u32> = LinkedList::new();
    assert!(list.is_empty());
    assert_eq!(list.size(), 0);
    assert_eq!(list.peek_head(), None);
    assert!(list.to_vec().is_empty());
}

#[test]
fn node_new_is_detached() {
    let node = Node::new(5u32);
    assert_eq!(*node.data, 5);
    assert!(node.next.is_none());
}

#[test]
fn append_keeps_insertion_order() {
    let list = filled(&[4, 9, 7, 4]);
    assert_eq!(contents(&list), vec![4, 9, 7, 4]);
    assert_eq!(list.size(), 4);
    assert!(!list.is_empty());
}

#[test]
fn prepend_puts_value_at_head() {
    let mut list = filled(&[2, 3]);
    list.prepend(1);
    assert_eq!(contents(&list), vec![1, 2, 3]);
    assert_eq!(list.size(), 3);
}

#[test]
fn pop_takes_from_head() {
    let mut list = filled(&[1, 2, 3]);
    assert_eq!(LinkedList::pop(&mut list), Some(1));
    assert_eq!(contents(&list), vec![2, 3]);
    assert_eq!(list.size(), 2);
}

#[test]
fn pop_on_empty_returns_none() {
    let mut list: LinkedList<u32> = LinkedList::new();
    assert_eq!(LinkedList::pop(&mut list), None);
    assert_eq!(list.size(), 0);
}

#[test]
fn remove_takes_from_tail() {
    let mut list = LinkedList::new();
    list.prepend(1);
    list.prepend(2);
    assert_eq!(list.remove(), Some(1));
    assert_eq!(list.size(), 1);
    assert_eq!(contents(&list), vec![2]);
    assert_eq!(list.remove(), Some(2));
    assert_eq!(list.remove(), None);
    assert_eq!(list.size(), 0);
}

#[test]
fn peek_head_leaves_list_unchanged() {
    let list = filled(&[8, 6]);
    assert_eq!(list.peek_head(), Some(8));
    assert_eq!(list.peek_head(), Some(8));
    assert_eq!(list.size(), 2);
    assert_eq!(contents(&list), vec![8, 6]);
}

#[test]
fn find_removes_first_match_only() {
    let mut list = filled(&[1, 2, 3, 2]);
    assert_eq!(list.find(|x| *x == 2), Some(2));
    assert_eq!(contents(&list), vec![1, 3, 2]);
    assert_eq!(list.size(), 3);
}

#[test]
fn find_checks_the_head() {
    let mut list = filled(&[1, 2, 3]);
    assert_eq!(list.find(|x| *x == 1), Some(1));
    assert_eq!(contents(&list), vec![2, 3]);
    assert_eq!(list.size(), 2);
}

#[test]
fn find_removes_the_tail() {
    let mut list = filled(&[1, 2, 3]);
    assert_eq!(list.find(|x| *x == 3), Some(3));
    assert_eq!(contents(&list), vec![1, 2]);
    list.append(4);
    assert_eq!(contents(&list), vec![1, 2, 4]);
}

#[test]
fn find_miss_leaves_list_unchanged() {
    let mut list = filled(&[1, 2, 3]);
    assert_eq!(list.find(|x| *x == 9), None);
    assert_eq!(contents(&list), vec![1, 2, 3]);
    assert_eq!(list.size(), 3);
}

#[test]
fn find_on_empty_returns_none() {
    let mut list: LinkedList<u32> = LinkedList::new();
    assert_eq!(list.find(|_| true), None);
    assert_eq!(list.find_as_reference(|_| true), None);
    assert!(list.find_as_mut_reference(|_| true).is_none());
    assert_eq!(list.size(), 0);
}

#[test]
fn find_as_reference_returns_first_match() {
    let list = filled(&[5, 10, 15, 20]);
    assert_eq!(list.find_as_reference(|x| *x > 7), Some(&10));
    assert_eq!(list.find_as_reference(|x| *x > 70), None);
    assert_eq!(list.size(), 4);
}

#[test]
fn find_as_mut_reference_changes_value_in_place() {
    let mut list = filled(&[5, 10, 15]);
    *list.find_as_mut_reference(|x| *x == 10).unwrap() = 11;
    assert_eq!(contents(&list), vec![5, 11, 15]);
    assert_eq!(list.size(), 3);
}

#[test]
fn for_each_stops_before_the_last_value() {
    let list = filled(&[10, 20, 30]);
    let seen = RefCell::new(Vec::new());
    list.for_each(|value, index| seen.borrow_mut().push((*value, index)));
    assert_eq!(seen.into_inner(), vec![(10, 0), (20, 1)]);
}

#[test]
fn for_each_on_single_value_visits_nothing() {
    let list = filled(&[10]);
    let seen = RefCell::new(0u32);
    list.for_each(|_, _| *seen.borrow_mut() += 1);
    assert_eq!(seen.into_inner(), 0);
}

#[test]
fn for_each_mut_changes_all_but_the_last_value() {
    let mut list = filled(&[1, 2, 3]);
    list.for_each_mut(|value, index| *value += 10 * (index as u32 + 1));
    assert_eq!(contents(&list), vec![11, 22, 3]);
    assert_eq!(list.size(), 3);
}

#[test]
fn for_each_mut_on_empty_list_does_nothing() {
    let mut list: LinkedList<u32> = LinkedList::new();
    list.for_each_mut(|value, _| *value = 0);
    assert!(list.is_empty());
}

#[test]
fn clone_copies_every_value() {
    let list = filled(&[3, 1, 2]);
    let mut copy = list.clone();
    assert_eq!(contents(&copy), vec![3, 1, 2]);
    assert_eq!(copy.size(), 3);
    copy.append(9);
    assert_eq!(contents(&list), vec![3, 1, 2]);
    assert_eq!(contents(&copy), vec![3, 1, 2, 9]);
}

#[test]
fn long_list_is_released_without_deep_recursion() {
    let mut list = LinkedList::new();
    for value in 0..200_000u32 {
        list.prepend(value);
    }
    assert_eq!(list.size(), 200_000);
    drop(list);
}

#[test]
fn queue_yields_values_in_append_order() {
    let values = [3u32, 1, 4, 1, 5, 9, 2, 6];
    let mut list = LinkedList::new();
    for value in values {
        Queue::append(&mut list, value);
    }
    let mut out = Vec::new();
    while let Some(value) = Queue::pop(&mut list) {
        out.push(value);
    }
    assert_eq!(out, values.to_vec());
    assert_eq!(Queue::pop(&mut list), None);
    assert_eq!(Queue::size(&list), 0);
}

#[test]
fn stack_yields_values_in_reverse_order() {
    let values = [3u32, 1, 4, 1, 5, 9, 2, 6];
    let mut list = LinkedList::new();
    for value in values {
        Stack::prepend(&mut list, value);
    }
    let mut out = Vec::new();
    while let Some(value) = Stack::pop(&mut list) {
        out.push(value);
    }
    let mut expected = values.to_vec();
    expected.reverse();
    assert_eq!(out, expected);
    assert_eq!(Stack::pop(&mut list), None);
    assert_eq!(Stack::size(&list), 0);
}
