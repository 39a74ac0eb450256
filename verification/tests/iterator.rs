use transaction_shuffler::{
    Address, Config, ShuffledTransactionIterator, Transaction, UseCaseKey,
};

fn txn(sender: u128, use_case: u128, position: usize) -> Transaction<usize> {
    Transaction::new(
        Address::new(0, sender),
        UseCaseKey::Other(Address::new(0, use_case)),
        position,
    )
}

#[test]
fn new_iterator_is_exhausted() {
    let mut iterator: ShuffledTransactionIterator<usize> =
        ShuffledTransactionIterator::new(Config::new(1, 1, 1));
    assert_eq!(iterator.next(), None);
    assert_eq!(iterator.select_next_txn(), None);
    assert_eq!(iterator.input_idx(), 0);
    assert_eq!(iterator.output_idx(), 0);
}

#[test]
fn extended_with_nothing_is_exhausted() {
    let mut iterator: ShuffledTransactionIterator<usize> =
        ShuffledTransactionIterator::new(Config::new(1, 1, 1)).extended_with(Vec::new());
    assert_eq!(iterator.next(), None);
}

#[test]
fn extended_with_keeps_the_order_of_the_input() {
    let mut iterator = ShuffledTransactionIterator::new(Config::default())
        .extended_with(vec![txn(1, 10, 0), txn(2, 11, 1)])
        .extended_with(vec![txn(3, 12, 2), txn(4, 13, 3)]);
    assert_eq!(iterator.next(), Some(txn(1, 10, 0)));
    assert_eq!(iterator.next(), Some(txn(2, 11, 1)));
    assert_eq!(iterator.next(), Some(txn(3, 12, 2)));
    assert_eq!(iterator.next(), Some(txn(4, 13, 3)));
    assert_eq!(iterator.next(), None);
}

#[test]
fn selection_looks_at_the_input_only_as_far_as_needed() {
    let mut iterator = ShuffledTransactionIterator::new(Config::new(1, 0, 0)).extended_with(vec![
        txn(1, 10, 0),
        txn(1, 11, 1),
        txn(1, 12, 2),
        txn(2, 13, 3),
        txn(3, 14, 4),
    ]);
    assert_eq!(iterator.select_next_txn(), Some(txn(1, 10, 0)));
    assert_eq!((iterator.input_idx(), iterator.output_idx()), (1, 1));
    assert_eq!(iterator.select_next_txn(), Some(txn(2, 13, 3)));
    assert_eq!((iterator.input_idx(), iterator.output_idx()), (4, 2));
    // sender 1 is ready again at slot 2
    assert_eq!(iterator.select_next_txn(), Some(txn(1, 11, 1)));
    assert_eq!((iterator.input_idx(), iterator.output_idx()), (4, 3));
    assert_eq!(iterator.select_next_txn(), Some(txn(3, 14, 4)));
    assert_eq!((iterator.input_idx(), iterator.output_idx()), (5, 4));
    assert_eq!(iterator.select_next_txn(), Some(txn(1, 12, 2)));
    assert_eq!((iterator.input_idx(), iterator.output_idx()), (5, 5));
    assert_eq!(iterator.select_next_txn(), None);
    assert_eq!((iterator.input_idx(), iterator.output_idx()), (5, 5));
}
