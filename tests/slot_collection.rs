use gen_slotmap::SlotCollection;

#[test]
fn new_collection_links_every_slot_in_order() {
    let collection = SlotCollection::new(6);
    assert_eq!(collection.free_len(), 6);
    assert_eq!(collection.free_slice(), vec![0, 1, 2, 3, 4, 5]);
}

#[test]
fn empty_collection_has_no_free_slot() {
    let mut collection = SlotCollection::new(0);
    assert_eq!(collection.free_len(), 0);
    assert!(collection.free_slice().is_empty());
    assert!(collection.take_slot(0).is_none());
}

#[test]
fn take_slot_hands_out_the_head_and_points_it_at_the_value() {
    let mut collection = SlotCollection::new(3);
    let a = collection.take_slot(0).unwrap();
    let b = collection.take_slot(1).unwrap();
    assert_eq!(collection.get_value_index(&a), Some(0));
    assert_eq!(collection.get_value_index(&b), Some(1));
    assert!(collection.is_valid(&a));
    assert_eq!(collection.free_slice(), vec![2]);
    let c = collection.take_slot(2).unwrap();
    assert_eq!(collection.free_len(), 0);
    assert!(collection.take_slot(3).is_none());
    assert_eq!(collection.get_value_index(&c), Some(2));
}

#[test]
fn return_slot_frees_in_ascending_order() {
    let mut collection = SlotCollection::new(4);
    let a = collection.take_slot(0).unwrap();
    let b = collection.take_slot(1).unwrap();
    let c = collection.take_slot(2).unwrap();
    assert_eq!(collection.free_slice(), vec![3]);
    collection.return_slot(c, None);
    assert_eq!(collection.free_slice(), vec![2, 3]);
    collection.return_slot(a, None);
    assert!(!collection.is_valid(&a));
    assert_eq!(collection.get_value_index(&a), None);
    assert_eq!(collection.get_value_index(&b), Some(1));
    assert_eq!(collection.free_slice(), vec![0, 2, 3]);
    collection.return_slot(b, None);
    assert_eq!(collection.free_slice(), vec![0, 1, 2, 3]);
    assert_eq!(collection.free_len(), 4);
}

#[test]
fn reused_slot_gets_a_new_generation() {
    let mut collection = SlotCollection::new(1);
    let first = collection.take_slot(0).unwrap();
    collection.return_slot(first, None);
    let second = collection.take_slot(0).unwrap();
    assert!(!collection.is_valid(&first));
    assert!(collection.is_valid(&second));
}
