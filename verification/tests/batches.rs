use timely::progress::change_batch::ChangeBatch;
use timely::progress::frontier::Antichain;

#[test]
fn drained_changes_are_sorted() {
    let mut batch = ChangeBatch::<usize>::new();
    batch.update(5, 1);
    batch.update(1, 2);
    batch.update(3, -4);
    batch.update(1, 7);
    assert_eq!(batch.drain(), vec![(1, 9), (3, -4), (5, 1)]);
    assert_eq!(batch.drain(), vec![]);
}

#[test]
fn changes_that_cancel_are_dropped() {
    let mut batch = ChangeBatch::<usize>::new();
    batch.update(5, 1);
    batch.update(6, 3);
    batch.update(5, -1);
    batch.update(7, 0);
    assert_eq!(batch.drain(), vec![(6, 3)]);
}

#[test]
fn order_of_updates_does_not_matter() {
    let changes = vec![(8, 1), (2, 3), (8, 5), (4, -2), (2, -3)];
    let mut forwards = ChangeBatch::<usize>::new();
    let mut backwards = ChangeBatch::<usize>::new();
    for i in 0..changes.len() {
        let (time, value) = changes[i];
        forwards.update(time, value);
        let (time, value) = changes[changes.len() - 1 - i];
        backwards.update(time, value);
    }
    let expected = vec![(4, -2), (8, 6)];
    assert_eq!(forwards.drain(), expected);
    assert_eq!(backwards.drain(), expected);
}

#[test]
fn counts_wrap_around() {
    let mut batch = ChangeBatch::<usize>::new();
    batch.update(0, i64::MAX);
    batch.update(0, 1);
    batch.update(1, i64::MIN);
    batch.update(1, i64::MIN);
    assert_eq!(batch.drain(), vec![(0, i64::MIN)]);
}

#[test]
fn cleared_batch_is_empty() {
    let mut batch = ChangeBatch::<usize>::new();
    batch.update(5, 1);
    batch.clear();
    assert_eq!(batch.drain(), vec![]);
}

#[test]
fn antichain_keeps_least_elements() {
    let mut antichain = Antichain::<usize>::new();
    assert_eq!(antichain.elements().len(), 0);
    assert!(!antichain.less_equal(&usize::MAX));
    assert!(antichain.insert(5));
    assert!(!antichain.insert(5));
    assert!(!antichain.insert(6));
    assert!(antichain.insert(3));
    assert_eq!(antichain.elements().to_vec(), vec![3]);
    assert!(antichain.less_equal(&3));
    assert!(!antichain.less_equal(&2));
}
