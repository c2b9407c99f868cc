use xecs::components::{Column, ComponentStorage, MAX_ENTITY_ID};

const A: usize = 3;
const B: usize = 5;
const C: usize = 9;

fn abc() -> Column<char> {
    let mut column = Column::new();
    assert_eq!(column.insert(A, 'a'), None);
    assert_eq!(column.insert(B, 'b'), None);
    assert_eq!(column.insert(C, 'c'), None);
    column
}

#[test]
fn new_column_is_empty() {
    let column: Column<u32> = Column::new();
    assert!(column.is_empty());
    assert_eq!(column.count(), 0);
    assert!(!column.has(0));
    assert_eq!(column.index(0), None);
    assert_eq!(column.get(0), None);
}

#[test]
fn insert_takes_the_next_slot() {
    let column = abc();
    assert!(!column.is_empty());
    assert_eq!(column.count(), 3);
    assert_eq!(column.index(A), Some(0));
    assert_eq!(column.index(B), Some(1));
    assert_eq!(column.index(C), Some(2));
    assert_eq!(column.get(A), Some(&'a'));
    assert_eq!(column.get(B), Some(&'b'));
    assert_eq!(column.get(C), Some(&'c'));
    assert!(!column.has(4));
    assert_eq!(column.index(4), None);
    assert_eq!(column.get(100), None);
}

#[test]
fn insert_of_a_present_entity_replaces_its_value() {
    let mut column = abc();
    assert_eq!(column.insert(B, 'x'), Some('b'));
    assert_eq!(column.count(), 3);
    assert_eq!(column.index(B), Some(1));
    assert_eq!(column.get(B), Some(&'x'));
    assert_eq!(column.get(A), Some(&'a'));
    assert_eq!(column.get(C), Some(&'c'));
}

#[test]
fn insert_accepts_the_largest_identifier() {
    let mut column: Column<u8> = Column::new();
    assert_eq!(column.insert(MAX_ENTITY_ID, 1), None);
    assert!(column.has(MAX_ENTITY_ID));
    assert_eq!(column.index(MAX_ENTITY_ID), Some(0));
    assert_eq!(column.insert(0, 2), None);
    assert_eq!(column.get(MAX_ENTITY_ID), Some(&1));
    assert_eq!(column.get(0), Some(&2));
}

#[test]
fn removing_the_middle_entity_moves_the_last_into_its_slot() {
    let mut column = abc();
    column.remove(B);
    assert!(!column.has(B));
    assert!(column.has(A));
    assert!(column.has(C));
    assert_eq!(column.count(), 2);
    assert_eq!(column.index(B), None);
    assert_eq!(column.index(A), Some(0));
    assert_eq!(column.index(C), Some(1));
    assert_eq!(column.get(C), Some(&'c'));
    assert_eq!(column.get(A), Some(&'a'));
    assert_eq!(column.get(B), None);
}

#[test]
fn removing_the_last_entity_moves_nothing() {
    let mut column = abc();
    column.remove(C);
    assert_eq!(column.count(), 2);
    assert_eq!(column.index(A), Some(0));
    assert_eq!(column.index(B), Some(1));
    assert_eq!(column.get(B), Some(&'b'));
    assert!(!column.has(C));
}

#[test]
fn removing_every_entity_empties_the_column() {
    let mut column = abc();
    column.remove(A);
    assert_eq!(column.index(C), Some(0));
    assert_eq!(column.index(B), Some(1));
    column.remove(C);
    assert_eq!(column.index(B), Some(0));
    column.remove(B);
    assert!(column.is_empty());
    assert_eq!(column.count(), 0);
    assert_eq!(column.insert(B, 'z'), None);
    assert_eq!(column.index(B), Some(0));
    assert_eq!(column.get(B), Some(&'z'));
}

#[test]
fn swap_by_index_exchanges_two_slots() {
    let mut column = abc();
    column.swap_by_index(0, 2);
    assert_eq!(column.count(), 3);
    assert_eq!(column.index(A), Some(2));
    assert_eq!(column.index(B), Some(1));
    assert_eq!(column.index(C), Some(0));
    assert_eq!(column.get(A), Some(&'a'));
    assert_eq!(column.get(B), Some(&'b'));
    assert_eq!(column.get(C), Some(&'c'));
    column.remove(C);
    assert_eq!(column.index(A), Some(0));
    assert_eq!(column.get(A), Some(&'a'));
}

#[test]
fn swap_by_index_of_one_slot_changes_nothing() {
    let mut column = abc();
    column.swap_by_index(1, 1);
    column.swap_by_index(7, 7);
    assert_eq!(column.index(A), Some(0));
    assert_eq!(column.index(B), Some(1));
    assert_eq!(column.index(C), Some(2));
    assert_eq!(column.get(B), Some(&'b'));
}

#[test]
fn a_column_serves_through_the_storage_interface() {
    let mut storage: Box<dyn ComponentStorage> = Box::new(abc());
    assert!(storage.has(B));
    assert_eq!(storage.index(C), Some(2));
    storage.remove(B);
    assert!(!storage.has(B));
    assert_eq!(storage.index(C), Some(1));
    assert_eq!(storage.count(), 2);
    storage.swap_by_index(0, 1);
    assert_eq!(storage.index(C), Some(0));
    assert_eq!(storage.index(A), Some(1));
    assert!(!storage.is_empty());
}
