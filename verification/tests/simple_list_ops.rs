use basic_data_structures::simple_list::List;

fn contents(list: &List<u32>) -> Vec<u32> {
    list.to_vec().into_iter().copied().collect()
}

#[test]
fn simple_list_starts_empty() {
    let list: List<u32> = List::new();
    assert!(list.is_empty());
    assert_eq!(list.size, 0);
}

#[test]
fn simple_list_push_appends_at_tail() {
    let mut list = List::new();
    list.push(1u32);
    list.push(2);
    list.push(3);
    assert_eq!(contents(&list), vec![1, 2, 3]);
    assert_eq!(list.size, 3);
    assert!(!list.is_empty());
}

#[test]
fn simple_list_pop_takes_from_tail() {
    let mut list = List::new();
    list.push(1u32);
    list.push(2);
    assert_eq!(list.pop(), Some(2));
    assert_eq!(list.size, 1);
    assert_eq!(list.pop(), Some(1));
    assert_eq!(list.pop(), None);
    assert_eq!(list.size, 0);
    assert!(list.is_empty());
}

#[test]
fn simple_list_long_chain_is_released() {
    let mut list = List::new();
    for value in 0..2_000u32 {
        list.push(value);
    }
    assert_eq!(list.size, 2_000);
    drop(list);
}
