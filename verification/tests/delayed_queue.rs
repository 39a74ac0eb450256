use transaction_shuffler::{Address, Config, DelayedQueue, Transaction, UseCaseKey};

fn txn(sender: u128, use_case: u128, position: usize) -> Transaction<usize> {
    Transaction::new(
        Address::new(0, sender),
        UseCaseKey::Other(Address::new(0, use_case)),
        position,
    )
}

fn platform_txn(sender: u128, position: usize) -> Transaction<usize> {
    Transaction::new(Address::new(0, sender), UseCaseKey::Platform, position)
}

#[test]
fn new_queue_hands_out_nothing() {
    let mut queue: DelayedQueue<usize> = DelayedQueue::new(Config::new(1, 2, 3));
    assert_eq!(queue.pop_head(true), None);
    assert_eq!(queue.pop_head(false), None);
}

#[test]
fn first_transaction_is_returned() {
    let mut queue = DelayedQueue::new(Config::new(1, 2, 3));
    assert_eq!(queue.add_or_return(0, txn(1, 10, 0)), Some(txn(1, 10, 0)));
    assert_eq!(queue.pop_head(false), None);
}

/// After an emission at slot 0 with a sender spread factor of 2 the sender
/// is held back until slot 3.
#[test]
fn sender_is_held_back_for_one_slot_and_the_spread_factor() {
    for slot in 0..5usize {
        let mut queue = DelayedQueue::new(Config::new(2, 0, 0));
        assert_eq!(queue.add_or_return(0, txn(1, 10, 0)), Some(txn(1, 10, 0)));
        queue.bump_output_idx(slot);
        let returned = queue.add_or_return(1, txn(1, 11, 1));
        if slot < 3 {
            assert_eq!(returned, None);
            assert_eq!(queue.pop_head(false), Some(txn(1, 11, 1)));
        } else {
            assert_eq!(returned, Some(txn(1, 11, 1)));
        }
    }
}

/// After an emission at slot 0 with a use-case spread factor of 3 the use
/// case is held back until slot 4, whoever sends.
#[test]
fn use_case_is_held_back_for_one_slot_and_the_spread_factor() {
    for slot in 0..6usize {
        let mut queue = DelayedQueue::new(Config::new(0, 0, 3));
        assert_eq!(queue.add_or_return(0, txn(1, 10, 0)), Some(txn(1, 10, 0)));
        queue.bump_output_idx(slot);
        let returned = queue.add_or_return(1, txn(2, 10, 1));
        if slot < 4 {
            assert_eq!(returned, None);
        } else {
            assert_eq!(returned, Some(txn(2, 10, 1)));
        }
    }
}

#[test]
fn platform_is_held_back_by_its_own_spread_factor() {
    for slot in 0..5usize {
        let mut queue = DelayedQueue::new(Config::new(0, 2, 0));
        assert_eq!(queue.add_or_return(0, platform_txn(1, 0)), Some(platform_txn(1, 0)));
        queue.bump_output_idx(slot);
        let returned = queue.add_or_return(1, platform_txn(2, 1));
        if slot < 3 {
            assert_eq!(returned, None);
        } else {
            assert_eq!(returned, Some(platform_txn(2, 1)));
        }
    }
}

#[test]
fn pop_head_waits_for_the_slot_unless_forced() {
    let mut queue = DelayedQueue::new(Config::new(2, 0, 0));
    assert_eq!(queue.add_or_return(0, txn(1, 10, 0)), Some(txn(1, 10, 0)));
    queue.bump_output_idx(1);
    assert_eq!(queue.add_or_return(1, txn(1, 11, 1)), None);
    assert_eq!(queue.pop_head(true), None);
    queue.bump_output_idx(2);
    assert_eq!(queue.pop_head(true), None);
    queue.bump_output_idx(3);
    assert_eq!(queue.pop_head(true), Some(txn(1, 11, 1)));
    assert_eq!(queue.pop_head(true), None);
    assert_eq!(queue.pop_head(false), None);
}

#[test]
fn pop_head_hands_out_before_the_slot_when_forced() {
    let mut queue = DelayedQueue::new(Config::new(2, 0, 0));
    assert_eq!(queue.add_or_return(0, txn(1, 10, 0)), Some(txn(1, 10, 0)));
    queue.bump_output_idx(1);
    assert_eq!(queue.add_or_return(1, txn(1, 11, 1)), None);
    assert_eq!(queue.pop_head(false), Some(txn(1, 11, 1)));
}

/// A use case that becomes known by a kept transaction is held back until
/// the next slot only, and so is a sender that becomes known that way.
#[test]
fn kept_transactions_start_no_cooldown_of_their_own() {
    let mut queue = DelayedQueue::new(Config::new(5, 5, 5));
    assert_eq!(queue.add_or_return(0, txn(1, 10, 0)), Some(txn(1, 10, 0)));
    queue.bump_output_idx(1);
    // the first sender cools down, so its transaction of another use case is kept
    assert_eq!(queue.add_or_return(1, txn(1, 11, 1)), None);
    // that use case is now held back until slot 2, and the second sender with it
    assert_eq!(queue.add_or_return(2, txn(2, 11, 2)), None);
    queue.bump_output_idx(2);
    // the first sender is held back until slot 6, the second until slot 2
    assert_eq!(queue.pop_head(true), Some(txn(2, 11, 2)));
    assert_eq!(queue.pop_head(true), None);
    queue.bump_output_idx(6);
    assert_eq!(queue.pop_head(true), None);
    queue.bump_output_idx(8);
    assert_eq!(queue.pop_head(true), Some(txn(1, 11, 1)));
}

#[test]
fn senders_of_one_use_case_come_by_delay_then_by_input_position() {
    let mut queue = DelayedQueue::new(Config::new(0, 0, 9));
    assert_eq!(queue.add_or_return(0, txn(1, 10, 0)), Some(txn(1, 10, 0)));
    assert_eq!(queue.add_or_return(1, txn(3, 10, 1)), None);
    assert_eq!(queue.add_or_return(2, txn(2, 10, 2)), None);
    assert_eq!(queue.add_or_return(3, txn(3, 10, 3)), None);
    assert_eq!(queue.pop_head(false), Some(txn(3, 10, 1)));
    assert_eq!(queue.pop_head(false), Some(txn(2, 10, 2)));
    assert_eq!(queue.pop_head(false), Some(txn(3, 10, 3)));
    assert_eq!(queue.pop_head(false), None);
}

/// The account of a sender moves from the use case of its first
/// transaction to that of its second when the first has left.
#[test]
fn account_moves_to_the_use_case_of_its_next_transaction() {
    let mut queue = DelayedQueue::new(Config::new(1, 0, 4));
    assert_eq!(queue.add_or_return(0, txn(1, 10, 0)), Some(txn(1, 10, 0)));
    // the first sender is held back until slot 2; the use case of its next
    // transaction becomes known and is held back until slot 1, and the
    // second sender with it
    assert_eq!(queue.add_or_return(1, txn(1, 11, 1)), None);
    assert_eq!(queue.add_or_return(2, txn(1, 12, 2)), None);
    assert_eq!(queue.add_or_return(3, txn(2, 11, 3)), None);
    queue.bump_output_idx(2);
    // of the two accounts of that use case, that of the second sender is
    // ready first
    assert_eq!(queue.pop_head(true), Some(txn(2, 11, 3)));
    // the use case is held back until slot 7 now
    queue.bump_output_idx(6);
    assert_eq!(queue.pop_head(true), None);
    queue.bump_output_idx(7);
    assert_eq!(queue.pop_head(true), Some(txn(1, 11, 1)));
    // the first sender is held back until slot 9; the use case of its last
    // transaction becomes known and is held back until slot 8
    queue.bump_output_idx(8);
    assert_eq!(queue.pop_head(true), None);
    queue.bump_output_idx(9);
    assert_eq!(queue.pop_head(true), Some(txn(1, 12, 2)));
    assert_eq!(queue.pop_head(false), None);
}

#[test]
fn bump_forgets_senders_whose_time_is_over() {
    let mut queue = DelayedQueue::new(Config::new(1, 0, 0));
    assert_eq!(queue.add_or_return(0, txn(1, 10, 0)), Some(txn(1, 10, 0)));
    queue.bump_output_idx(2);
    // the account is gone: the next transaction starts a new cooldown
    assert_eq!(queue.add_or_return(1, txn(1, 10, 1)), Some(txn(1, 10, 1)));
    queue.bump_output_idx(3);
    assert_eq!(queue.add_or_return(2, txn(1, 10, 2)), None);
    queue.bump_output_idx(4);
    assert_eq!(queue.pop_head(true), Some(txn(1, 10, 2)));
}

#[test]
fn bump_may_stay_at_the_slot() {
    let mut queue = DelayedQueue::new(Config::new(1, 0, 0));
    queue.bump_output_idx(0);
    assert_eq!(queue.add_or_return(0, txn(1, 10, 0)), Some(txn(1, 10, 0)));
    queue.bump_output_idx(0);
    assert_eq!(queue.add_or_return(1, txn(1, 10, 1)), None);
}

#[test]
fn input_positions_may_leave_gaps() {
    let mut queue = DelayedQueue::new(Config::new(3, 0, 0));
    assert_eq!(queue.add_or_return(5, txn(1, 10, 5)), Some(txn(1, 10, 5)));
    assert_eq!(queue.add_or_return(9, txn(1, 10, 9)), None);
    assert_eq!(queue.add_or_return(20, txn(1, 10, 20)), None);
    assert_eq!(queue.pop_head(false), Some(txn(1, 10, 9)));
    assert_eq!(queue.pop_head(false), Some(txn(1, 10, 20)));
}
