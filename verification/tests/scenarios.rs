use transaction_shuffler::{
    Address, Config, ShuffledTransactionIterator, Transaction, UseCaseAwareShuffler, UseCaseKey,
};

const A: u128 = 1;
const B: u128 = 2;
const C: u128 = 3;
const D: u128 = 4;
const X: u128 = 10;
const Y: u128 = 11;
const Z: u128 = 12;

fn user(sender: u128, use_case: u128, position: usize) -> Transaction<usize> {
    Transaction::new(
        Address::new(0, sender),
        UseCaseKey::Other(Address::new(0, use_case)),
        position,
    )
}

fn platform(sender: u128, position: usize) -> Transaction<usize> {
    Transaction::new(Address::new(0, sender), UseCaseKey::Platform, position)
}

fn positions(txns: &[Transaction<usize>]) -> Vec<usize> {
    txns.iter().map(|txn| txn.payload).collect()
}

#[test]
fn single_sender_keeps_its_order_under_spread() {
    let input = vec![user(A, X, 0), user(A, X, 1), user(A, X, 2)];
    let output = UseCaseAwareShuffler::new(Config::new(2, 0, 0)).shuffle(input.clone());
    assert_eq!(output, input);
}

/// The second transaction of A is kept at slot 1, and with it its use case
/// becomes tracked and is held back until slot 2. So the transactions of B,
/// which are of the same use case, are kept at slot 1 too, behind that of A.
#[test]
fn two_senders_of_one_use_case_under_sender_spread() {
    let input = vec![user(A, X, 0), user(A, X, 1), user(B, X, 2), user(B, X, 3)];
    let output = UseCaseAwareShuffler::new(Config::new(1, 0, 0)).shuffle(input);
    assert_eq!(positions(&output), vec![0, 1, 2, 3]);
}

/// With use cases of their own, two senders alternate.
#[test]
fn two_senders_alternate_under_sender_spread() {
    let input = vec![user(A, X, 0), user(A, X, 1), user(B, Y, 2), user(B, Y, 3)];
    let output = UseCaseAwareShuffler::new(Config::new(1, 0, 0)).shuffle(input);
    assert_eq!(positions(&output), vec![0, 2, 1, 3]);
    assert_eq!(output[1], user(B, Y, 2));
}

#[test]
fn use_case_spread_lets_another_use_case_pass() {
    let input = vec![user(A, X, 0), user(B, X, 1), user(C, Y, 2), user(D, X, 3)];
    let output = UseCaseAwareShuffler::new(Config::new(0, 0, 1)).shuffle(input);
    assert_eq!(
        output,
        vec![user(A, X, 0), user(C, Y, 2), user(B, X, 1), user(D, X, 3)]
    );
}

#[test]
fn platform_has_a_spread_factor_of_its_own() {
    let input = vec![platform(A, 0), user(B, Y, 1), platform(C, 2), user(D, Y, 3)];
    let output = UseCaseAwareShuffler::new(Config::new(0, 2, 0)).shuffle(input);
    assert_eq!(
        output,
        vec![platform(A, 0), user(B, Y, 1), user(D, Y, 3), platform(C, 2)]
    );
}

#[test]
fn zero_config_passes_the_input_through() {
    let input = vec![user(A, X, 0), user(B, Y, 1), user(C, Z, 2)];
    let output = UseCaseAwareShuffler::new(Config::default()).shuffle(input.clone());
    assert_eq!(output, input);
}

#[test]
fn empty_input_gives_empty_output() {
    let output = UseCaseAwareShuffler::new(Config::new(2, 1, 3)).shuffle(Vec::<Transaction<usize>>::new());
    assert!(output.is_empty());
}

fn mixed_input() -> Vec<Transaction<usize>> {
    (0..64usize)
        .map(|i| user(100 + (i % 8) as u128, 200 + (i % 3) as u128, i))
        .collect()
}

#[test]
fn large_mixed_output_is_a_permutation() {
    let input = mixed_input();
    let output = UseCaseAwareShuffler::new(Config::new(2, 1, 3)).shuffle(input.clone());
    assert_eq!(output.len(), 64);
    let mut seen = positions(&output);
    seen.sort();
    assert_eq!(seen, (0..64usize).collect::<Vec<usize>>());
    for txn in &output {
        assert_eq!(*txn, input[txn.payload]);
    }
}

#[test]
fn large_mixed_output_keeps_the_order_of_each_sender() {
    let input = mixed_input();
    let output = UseCaseAwareShuffler::new(Config::new(2, 1, 3)).shuffle(input.clone());
    for sender in 100..108u128 {
        let address = Address::new(0, sender);
        let of_output: Vec<usize> = output
            .iter()
            .filter(|txn| txn.sender == address)
            .map(|txn| txn.payload)
            .collect();
        let of_input: Vec<usize> = input
            .iter()
            .filter(|txn| txn.sender == address)
            .map(|txn| txn.payload)
            .collect();
        assert_eq!(of_output, of_input);
    }
}

#[test]
fn large_mixed_output_keeps_the_order_of_each_sender_in_each_use_case() {
    let input = mixed_input();
    let output = UseCaseAwareShuffler::new(Config::new(2, 1, 3)).shuffle(input.clone());
    for sender in 100..108u128 {
        for use_case in 200..203u128 {
            let address = Address::new(0, sender);
            let key = UseCaseKey::Other(Address::new(0, use_case));
            let of_output: Vec<usize> = output
                .iter()
                .filter(|txn| txn.sender == address && txn.use_case == key)
                .map(|txn| txn.payload)
                .collect();
            let of_input: Vec<usize> = input
                .iter()
                .filter(|txn| txn.sender == address && txn.use_case == key)
                .map(|txn| txn.payload)
                .collect();
            assert_eq!(of_output, of_input);
        }
    }
}

/// A transaction lies at least one slot and the spread factor behind every
/// earlier one of its sender and of its use case, unless the input had run
/// out when it was selected.
#[test]
fn large_mixed_output_is_spread_while_input_is_left() {
    let sender_spread = 2;
    let user_spread = 3;
    let mut iterator = ShuffledTransactionIterator::new(Config::new(sender_spread, 1, user_spread))
        .extended_with(mixed_input());
    let mut output: Vec<Transaction<usize>> = Vec::new();
    let mut spread_out = 0;
    while let Some(txn) = iterator.select_next_txn() {
        let slot = output.len();
        let input_left = iterator.input_idx() < 64;
        for (earlier_slot, earlier) in output.iter().enumerate() {
            if earlier.sender == txn.sender && input_left {
                assert!(slot - earlier_slot >= 1 + sender_spread);
            }
            if earlier.use_case == txn.use_case && input_left {
                assert!(slot - earlier_slot >= 1 + user_spread);
            }
        }
        if input_left {
            spread_out += 1;
        }
        output.push(txn);
    }
    assert_eq!(output.len(), 64);
    assert!(spread_out > 0);
}

#[test]
fn large_mixed_counters_never_decrease() {
    let mut iterator =
        ShuffledTransactionIterator::new(Config::new(2, 1, 3)).extended_with(mixed_input());
    let mut input_idx = iterator.input_idx();
    let mut output_idx = iterator.output_idx();
    assert_eq!((input_idx, output_idx), (0, 0));
    let mut emitted = 0;
    while let Some(_) = iterator.select_next_txn() {
        emitted += 1;
        assert!(iterator.input_idx() >= input_idx);
        assert_eq!(iterator.output_idx(), output_idx + 1);
        assert!(iterator.output_idx() <= iterator.input_idx());
        input_idx = iterator.input_idx();
        output_idx = iterator.output_idx();
    }
    assert_eq!(emitted, 64);
    assert_eq!(iterator.input_idx(), 64);
    assert_eq!(iterator.output_idx(), 64);
    assert_eq!(iterator.select_next_txn(), None);
    assert_eq!(iterator.output_idx(), 64);
}

fn four_senders_input() -> Vec<Transaction<usize>> {
    let mut input = Vec::new();
    for sender in [A, B, C, D] {
        for _ in 0..3 {
            let position = input.len();
            input.push(user(sender, 200 + position as u128, position));
        }
    }
    input
}

#[test]
fn two_runs_give_the_same_output() {
    let shuffler = UseCaseAwareShuffler::new(Config::new(2, 1, 3));
    let first = shuffler.shuffle(mixed_input());
    let second = UseCaseAwareShuffler::new(Config::new(2, 1, 3)).shuffle(mixed_input());
    assert_eq!(first, second);
    let first = shuffler.shuffle(four_senders_input());
    let second = UseCaseAwareShuffler::new(Config::new(2, 1, 3)).shuffle(four_senders_input());
    assert_eq!(first, second);
    assert_ne!(first, four_senders_input());
}

/// With four senders and a sender spread factor of 3 every transaction
/// goes out in its time.
#[test]
fn four_senders_are_spread_throughout() {
    let mut iterator =
        ShuffledTransactionIterator::new(Config::new(3, 0, 0)).extended_with(four_senders_input());
    let mut output: Vec<Transaction<usize>> = Vec::new();
    while let Some(txn) = iterator.select_next_txn() {
        let slot = output.len();
        for (earlier_slot, earlier) in output.iter().enumerate() {
            if earlier.sender == txn.sender {
                assert!(slot - earlier_slot >= 4);
            }
        }
        output.push(txn);
    }
    assert_eq!(output.len(), 12);
}

#[test]
fn distinct_senders_and_use_cases_pass_through() {
    let input: Vec<Transaction<usize>> = (0..20usize)
        .map(|i| user(100 + i as u128, 200 + i as u128, i))
        .collect();
    let output = UseCaseAwareShuffler::new(Config::default()).shuffle(input.clone());
    assert_eq!(output, input);
    let output = UseCaseAwareShuffler::new(Config::new(4, 5, 6)).shuffle(input.clone());
    assert_eq!(output, input);
}

/// Four senders A to D with three transactions each come out in rounds.
#[test]
fn sender_spread_interleaves_four_senders() {
    let output = UseCaseAwareShuffler::new(Config::new(3, 0, 0)).shuffle(four_senders_input());
    assert_eq!(
        positions(&output),
        vec![0, 3, 6, 9, 1, 4, 7, 10, 2, 5, 8, 11]
    );
}

/// With four use cases and a use-case spread factor of 3 every transaction
/// goes out in its time.
#[test]
fn four_use_cases_are_spread_throughout() {
    let mut input = Vec::new();
    for use_case in [X, Y, Z, 13] {
        for _ in 0..3 {
            let position = input.len();
            input.push(user(300 + position as u128, use_case, position));
        }
    }
    let mut iterator =
        ShuffledTransactionIterator::new(Config::new(0, 0, 3)).extended_with(input.clone());
    let mut output: Vec<Transaction<usize>> = Vec::new();
    while let Some(txn) = iterator.select_next_txn() {
        let slot = output.len();
        for (earlier_slot, earlier) in output.iter().enumerate() {
            if earlier.use_case == txn.use_case {
                assert!(slot - earlier_slot >= 4);
            }
        }
        output.push(txn);
    }
    assert_eq!(
        positions(&output),
        vec![0, 3, 6, 9, 1, 4, 7, 10, 2, 5, 8, 11]
    );
}
