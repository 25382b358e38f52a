use roadnet::parallel_list::{ParallelConstantList, ParallelList};
use roadnet::super_cell::SuperCell;

#[test]
fn a_new_list_has_empty_slots() {
    let list: ParallelList<String> = ParallelList::new(3);
    assert_eq!(list.len(), 3);
    assert!(!list.is_full());
    assert!(!list.is_filled(0));
    assert!(!list.is_filled(3));
    assert!(list.as_slice().is_empty());
    let none: ParallelList<u8> = ParallelList::new(0);
    assert!(none.is_full());
    assert_eq!(none.into_vec(), Vec::<u8>::new());
}

#[test]
fn slots_are_filled_by_index() {
    let mut list: ParallelList<String> = ParallelList::new(3);
    list.insert("c".to_string(), 2);
    list.insert("a".to_string(), 0);
    assert_eq!(list.get(2), "c");
    assert_eq!(list.as_slice(), vec!["a", "c"]);
    assert!(!list.is_full());
    list.insert("b".to_string(), 1);
    list.insert("B".to_string(), 1);
    assert!(list.is_full());
    list.get_mut(0).push('!');
    assert_eq!(list.as_slice(), vec!["a!", "B", "c"]);
    assert_eq!(list.into_vec(), vec!["a!".to_string(), "B".to_string(), "c".to_string()]);
}

#[test]
fn a_list_of_constant_size() {
    let mut list: ParallelConstantList<u32, 4> = ParallelConstantList::new();
    assert_eq!(list.len(), 0);
    list.insert(7, 3);
    list.insert(5, 1);
    list.insert(6, 1);
    assert_eq!(list.len(), 2);
    assert_eq!(*list.get(1), 6);
    *list.get_mut(3) += 1;
    assert_eq!(*list.get(3), 8);
}

#[test]
fn a_cell_holds_one_value() {
    let mut cell = SuperCell::new(vec![1, 2]);
    assert_eq!(cell.get().len(), 2);
    cell.get_mut().push(3);
    assert_eq!(cell.get(), &vec![1, 2, 3]);
    assert_eq!(cell.into_inner(), vec![1, 2, 3]);
}
