use transaction_shuffler::delay_key::DelayIndex;
use transaction_shuffler::tables::{AccountTable, UseCaseTable};
use transaction_shuffler::use_case::UseCase;
use transaction_shuffler::{
    Account, Address, Config, ConsensusObserverConfig, DelayKey, LogEvent, Transaction,
    TxnWithInputIdx, UseCaseKey,
};

fn txn(sender: u128, use_case: u128, position: usize) -> Transaction<usize> {
    Transaction::new(
        Address::new(0, sender),
        UseCaseKey::Other(Address::new(0, use_case)),
        position,
    )
}

#[test]
fn observer_config_is_enabled_when_either_side_is() {
    let mut config = ConsensusObserverConfig::default();
    assert!(!config.is_enabled());
    assert_eq!(config.max_network_channel_size, 0);
    config.consensus_publisher_enabled = true;
    assert!(config.is_enabled());
    config.consensus_publisher_enabled = false;
    config.consensus_observer_enabled = true;
    assert!(config.is_enabled());
    config.consensus_publisher_enabled = true;
    assert!(config.is_enabled());
}

#[test]
fn log_events_differ() {
    assert_eq!(LogEvent::Vote, LogEvent::Vote);
    assert_ne!(LogEvent::EpochStart, LogEvent::Shutdown);
    assert_eq!(format!("{:?}", LogEvent::FetchPayload), "FetchPayload");
}

#[test]
fn default_config_spreads_nothing() {
    let config = Config::default();
    assert_eq!(config, Config::new(0, 0, 0));
    assert_eq!(config.sender_spread_factor(), 0);
    assert_eq!(config.use_case_spread_factor(&UseCaseKey::Platform), 0);
}

#[test]
fn spread_factor_follows_the_use_case() {
    let config = Config::new(1, 2, 3);
    assert_eq!(config.sender_spread_factor(), 1);
    assert_eq!(config.use_case_spread_factor(&UseCaseKey::Platform), 2);
    assert_eq!(
        config.use_case_spread_factor(&UseCaseKey::Other(Address::new(0, 7))),
        3
    );
    assert_eq!(
        config.use_case_spread_factor(&UseCaseKey::Other(Address::new(0, 0))),
        3
    );
}

#[test]
fn transaction_tells_sender_and_use_case() {
    let t = Transaction::new(Address::new(7, 1), UseCaseKey::Platform, "payload");
    assert_eq!(t.parse_sender(), Address::new(7, 1));
    assert_eq!(t.parse_use_case(), UseCaseKey::Platform);
    assert_eq!(t.payload, "payload");
    assert_ne!(Address::new(7, 1), Address::new(1, 7));
}

#[test]
fn delay_key_holds_its_parts() {
    let key = DelayKey::new(3, 8);
    assert_eq!(key.try_delay_till, 3);
    assert_eq!(key.input_idx, 8);
    assert_eq!(key, DelayKey { try_delay_till: 3, input_idx: 8 });
}

#[test]
fn delay_index_hands_out_keys_in_lexicographic_order() {
    let mut index: DelayIndex<u8> = DelayIndex::new();
    assert!(index.is_empty());
    assert_eq!(index.first_key(), None);
    assert!(index.pop_first().is_none());
    index.strict_insert(DelayKey::new(1, 5), 15);
    index.strict_insert(DelayKey::new(1, 2), 12);
    index.strict_insert(DelayKey::new(0, 9), 9);
    index.strict_insert(DelayKey::new(2, 0), 20);
    assert!(!index.is_empty());
    assert!(index.contains_key(&DelayKey::new(1, 2)));
    assert!(!index.contains_key(&DelayKey::new(2, 1)));
    assert_eq!(index.get(&DelayKey::new(1, 5)), Some(&15));
    assert_eq!(index.get(&DelayKey::new(5, 1)), None);
    assert_eq!(index.first_key(), Some(DelayKey::new(0, 9)));
    assert_eq!(index.pop_first(), Some((DelayKey::new(0, 9), 9)));
    assert_eq!(index.first_key(), Some(DelayKey::new(1, 2)));
    assert_eq!(index.strict_remove(&DelayKey::new(1, 2)), 12);
    assert_eq!(index.pop_first(), Some((DelayKey::new(1, 5), 15)));
    assert_eq!(index.pop_first(), Some((DelayKey::new(2, 0), 20)));
    assert_eq!(index.pop_first(), None);
    assert!(index.is_empty());
}

#[test]
fn account_queues_in_input_order() {
    let mut account = Account::new_with_txn(4, 7, txn(1, 10, 7));
    assert!(!account.is_empty());
    assert_eq!(account.delay_key(), DelayKey::new(4, 7));
    account.queue_txn(9, txn(1, 11, 9));
    assert_eq!(account.delay_key(), DelayKey::new(4, 7));
    assert_eq!(account.expect_first_txn().input_idx, 7);
    assert_eq!(
        account.expect_use_case_key(),
        UseCaseKey::Other(Address::new(0, 10))
    );
    let first: TxnWithInputIdx<usize> = account.expect_dequeue_txn();
    assert_eq!(first.input_idx, 7);
    assert_eq!(first.txn, txn(1, 10, 7));
    assert_eq!(account.delay_key(), DelayKey::new(4, 9));
    assert_eq!(
        account.expect_use_case_key(),
        UseCaseKey::Other(Address::new(0, 11))
    );
    account.update_try_delay_till(12);
    assert_eq!(account.delay_key(), DelayKey::new(12, 9));
    let second = account.expect_dequeue_txn();
    assert_eq!(second.txn, txn(1, 11, 9));
    assert!(account.is_empty());
    // the input position stays that of the last transaction
    assert_eq!(account.delay_key(), DelayKey::new(12, 9));
}

#[test]
fn empty_account_takes_the_position_of_its_first_transaction() {
    let mut account: Account<usize> = Account::new_empty(3, 1, UseCaseKey::Platform);
    assert!(account.is_empty());
    assert_eq!(account.delay_key(), DelayKey::new(3, 1));
    account.queue_txn(6, txn(1, 10, 6));
    assert!(!account.is_empty());
    assert_eq!(account.delay_key(), DelayKey::new(3, 6));
}

#[test]
fn use_case_is_held_back_as_long_as_its_first_account() {
    let early = Account::new_with_txn(2, 5, txn(1, 10, 5));
    let late = Account::new_with_txn(9, 3, txn(2, 10, 3));
    let mut use_case = UseCase::new_with_account(4, Address::new(0, 2), &late);
    assert!(!use_case.is_empty());
    // the first account is held back longer than the use case
    assert_eq!(use_case.delay_key(), DelayKey::new(9, 3));
    use_case.add_account(Address::new(0, 1), &early);
    // the use case is held back longer than its first account
    assert_eq!(use_case.delay_key(), DelayKey::new(4, 5));
    use_case.update_try_delay_till(1);
    assert_eq!(use_case.delay_key(), DelayKey::new(2, 5));
    assert_eq!(
        use_case.expect_pop_head_account(),
        (DelayKey::new(2, 5), Address::new(0, 1))
    );
    assert_eq!(use_case.delay_key(), DelayKey::new(9, 3));
    assert_eq!(
        use_case.expect_pop_head_account(),
        (DelayKey::new(9, 3), Address::new(0, 2))
    );
    assert!(use_case.is_empty());
    // the input position stays that of the last account
    assert_eq!(use_case.delay_key(), DelayKey::new(1, 3));
}

#[test]
fn empty_use_case_has_its_own_key() {
    let mut use_case = UseCase::new_empty(6, 2);
    assert!(use_case.is_empty());
    assert_eq!(use_case.delay_key(), DelayKey::new(6, 2));
    let account = Account::new_with_txn(1, 8, txn(1, 10, 8));
    use_case.add_account(Address::new(0, 1), &account);
    assert_eq!(use_case.delay_key(), DelayKey::new(6, 8));
}

#[test]
fn account_table_keeps_addresses_apart() {
    let mut table: AccountTable<usize> = AccountTable::new();
    assert!(table.get(&Address::new(0, 1)).is_none());
    table.strict_insert(Address::new(0, 1), Account::new_empty(1, 0, UseCaseKey::Platform));
    table.strict_insert(Address::new(1, 0), Account::new_empty(2, 0, UseCaseKey::Platform));
    assert_eq!(table.get(&Address::new(0, 1)).unwrap().try_delay_till, 1);
    assert_eq!(table.get(&Address::new(1, 0)).unwrap().try_delay_till, 2);
    assert!(table.get(&Address::new(1, 1)).is_none());
    assert_eq!(table.strict_remove(&Address::new(0, 1)).try_delay_till, 1);
    assert!(table.get(&Address::new(0, 1)).is_none());
    assert!(table.get(&Address::new(1, 0)).is_some());
}

#[test]
fn use_case_table_keeps_keys_apart() {
    let mut table = UseCaseTable::new();
    table.strict_insert(UseCaseKey::Platform, UseCase::new_empty(1, 0));
    table.strict_insert(UseCaseKey::Other(Address::new(0, 0)), UseCase::new_empty(2, 0));
    table.strict_insert(UseCaseKey::Other(Address::new(0, 1)), UseCase::new_empty(3, 0));
    assert_eq!(table.get(&UseCaseKey::Platform).unwrap().try_delay_till, 1);
    assert_eq!(
        table.get(&UseCaseKey::Other(Address::new(0, 0))).unwrap().try_delay_till,
        2
    );
    assert_eq!(
        table.strict_remove(&UseCaseKey::Other(Address::new(0, 1))).try_delay_till,
        3
    );
    assert!(table.get(&UseCaseKey::Other(Address::new(0, 1))).is_none());
    assert!(table.get(&UseCaseKey::Platform).is_some());
}

fn located(peer: u128, country: &str) -> transaction_shuffler::PeerLocation {
    transaction_shuffler::PeerLocation {
        peer_id: Address::new(0, peer),
        country: Some(country.to_string()),
        region: None,
        geo_updated_at: None,
    }
}

#[test]
fn first_row_of_each_peer_is_kept() {
    let rows = vec![
        located(1, "a"),
        located(2, "b"),
        located(1, "c"),
        located(3, "d"),
        located(2, "e"),
        located(1, "f"),
    ];
    let kept = transaction_shuffler::peer_location::first_per_peer(rows);
    let found: Vec<(u128, String)> = kept
        .into_iter()
        .map(|row| (row.peer_id.lo, row.country.unwrap()))
        .collect();
    assert_eq!(
        found,
        vec![(1, "a".to_string()), (2, "b".to_string()), (3, "d".to_string())]
    );
    assert!(transaction_shuffler::peer_location::first_per_peer(Vec::new()).is_empty());
}

#[test]
fn peers_differ_by_either_half_of_the_address() {
    let mut rows = vec![located(1, "a"), located(1, "b")];
    rows[1].peer_id = Address::new(1, 1);
    let kept = transaction_shuffler::peer_location::first_per_peer(rows);
    assert_eq!(kept.len(), 2);
}

#[test]
fn log_schema_names_no_peer_and_no_round() {
    let schema = transaction_shuffler::LogSchema::new(LogEvent::NewRound);
    assert_eq!(schema.event, LogEvent::NewRound);
    assert_eq!(schema.remote_peer, None);
    assert_eq!(schema.round, None);
}

#[test]
fn function_info_holds_address_and_names() {
    let info = transaction_shuffler::FunctionInfo::new(
        Address::new(0, 1),
        "coin".to_string(),
        "transfer".to_string(),
    );
    assert_eq!(info.module_address, Address::new(0, 1));
    assert_eq!(info.module_name, "coin");
    assert_eq!(info.function_name, "transfer");
}
