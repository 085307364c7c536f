//! One account on its own.
use balance_withdraw_scheduler::account_state::AccountState;
use balance_withdraw_scheduler::balance_read::AccountBalanceRead;
use balance_withdraw_scheduler::registration::{RegistrationTable, TxWithdrawRegistration};
use balance_withdraw_scheduler::types::{
    ObjectID, RegistrationId, ScheduleResult, SequenceNumber,
};
use std::collections::BTreeMap;

struct MockBalanceRead {
    version: SequenceNumber,
    balances: BTreeMap<ObjectID, BTreeMap<SequenceNumber, u64>>,
}

impl MockBalanceRead {
    fn new(version: SequenceNumber) -> Self {
        MockBalanceRead { version, balances: BTreeMap::new() }
    }

    fn set_balance(&mut self, account_id: ObjectID, balance: u64) {
        let version = self.version;
        self.balances.entry(account_id).or_default().insert(version, balance);
    }

    fn settle_balance_changes(
        &mut self,
        version: SequenceNumber,
        balance_changes: BTreeMap<ObjectID, i128>,
    ) {
        self.version = version;
        for (account_id, change) in balance_changes {
            let balance = self.get_account_balance(&account_id, version) as i128 + change;
            self.set_balance(account_id, balance as u64);
        }
    }
}

impl AccountBalanceRead for MockBalanceRead {
    fn account_balance(&self, account_id: ObjectID, version: SequenceNumber) -> u64 {
        self.get_account_balance(&account_id, version)
    }

    fn get_accumulator_version(&self) -> SequenceNumber {
        self.version
    }

    fn get_account_balance(&self, account_id: &ObjectID, version: SequenceNumber) -> u64 {
        match self.balances.get(account_id) {
            Some(balances) => balances.range(..=version).next_back().map_or(0, |entry| *entry.1),
            None => 0,
        }
    }
}

fn result_of(registrations: &RegistrationTable, id: RegistrationId) -> ScheduleResult {
    registrations.get(&id).unwrap().result
}

#[test]
fn test_account_state_new() {
    let account_id: ObjectID = (11, 12);
    let balance: i128 = 1000;
    let version: SequenceNumber = 1;

    let mut mock_balance_read = MockBalanceRead::new(version);
    mock_balance_read.settle_balance_changes(version, BTreeMap::from([(account_id, balance)]));

    let account_state = AccountState::new(&mock_balance_read, &account_id, version);
    assert_eq!(account_state.last_known_min_balance, balance);
    assert!(account_state.enqueued.is_empty());
    assert!(account_state.reserved.is_empty());
}

#[test]
fn test_non_existent_account() {
    let account_id: ObjectID = (11, 12);
    let version: SequenceNumber = 1;
    let mock_balance_read = MockBalanceRead::new(version);
    let account_state = AccountState::new(&mock_balance_read, &account_id, version);
    assert_eq!(account_state.last_known_min_balance, 0);
}

#[test]
fn test_account_state_add_registrations() {
    let account_id: ObjectID = (11, 12);
    let version: SequenceNumber = 1;
    let mock_balance_read = MockBalanceRead::new(version);

    let mut account_state = AccountState::new(&mock_balance_read, &account_id, version);

    let mut registrations = RegistrationTable::new();
    let mut accounts = BTreeMap::new();
    accounts.insert(account_id, 100);
    let registration = registrations.register(TxWithdrawRegistration::new(version, accounts));

    account_state.add_registrations(vec![registration]);
    assert_eq!(account_state.enqueued.len(), 1);
}

#[test]
fn test_account_state_try_schedule_next_reservation() {
    let account_id: ObjectID = (11, 12);
    let version: SequenceNumber = 1;
    let mut mock_balance_read = MockBalanceRead::new(version);
    mock_balance_read.set_balance(account_id, 1000);

    let mut account_state = AccountState::new(&mock_balance_read, &account_id, version);

    // Add a registration with withdraw amount less than balance
    let mut registrations = RegistrationTable::new();
    let mut accounts = BTreeMap::new();
    accounts.insert(account_id, 500);
    let registration = registrations.register(TxWithdrawRegistration::new(version, accounts));
    account_state.add_registrations(vec![registration]);

    // Should be able to schedule the reservation
    let result =
        account_state.try_schedule_next_reservation(&account_id, version, &mut registrations);
    assert!(result.is_some());
    assert_eq!(account_state.last_known_min_balance, 500);
    assert_eq!(*account_state.reserved.get(&version).unwrap(), 500);

    // The registration should be completed
    assert_eq!(result_of(&registrations, registration), ScheduleResult::ReadyForExecution);
}

#[test]
fn test_account_state_multi_account_registration() {
    let version: SequenceNumber = 1;
    let mut mock_balance_read = MockBalanceRead::new(version);

    // Set up multiple accounts
    let account1: ObjectID = (11, 12);
    let account2: ObjectID = (21, 22);
    mock_balance_read.set_balance(account1, 1000);
    mock_balance_read.set_balance(account2, 2000);

    // Create a registration that involves both accounts
    let mut registrations = RegistrationTable::new();
    let mut accounts = BTreeMap::new();
    accounts.insert(account1, 500);
    accounts.insert(account2, 1500);
    let registration = registrations.register(TxWithdrawRegistration::new(version, accounts));

    // Test account1's state
    let mut account1_state = AccountState::new(&mock_balance_read, &account1, version);
    account1_state.add_registrations(vec![registration]);

    // Should be able to schedule the reservation for account1
    let result =
        account1_state.try_schedule_next_reservation(&account1, version, &mut registrations);
    assert!(result.is_some());
    assert_eq!(account1_state.last_known_min_balance, 500); // 1000 - 500
    assert_eq!(*account1_state.reserved.get(&version).unwrap(), 500);

    // The registration should still be pending because account2 hasn't been processed
    assert_eq!(result_of(&registrations, registration), ScheduleResult::Init);

    // Test account2's state
    let mut account2_state = AccountState::new(&mock_balance_read, &account2, version);
    account2_state.add_registrations(vec![registration]);

    // Should be able to schedule the reservation for account2
    let result =
        account2_state.try_schedule_next_reservation(&account2, version, &mut registrations);
    assert!(result.is_some());
    assert_eq!(account2_state.last_known_min_balance, 500); // 2000 - 1500
    assert_eq!(*account2_state.reserved.get(&version).unwrap(), 1500);

    // Now the registration should be complete since both accounts are processed
    assert_eq!(result_of(&registrations, registration), ScheduleResult::ReadyForExecution);

    // Test settlement
    account1_state.settle_accumulator_version(version);
    assert_eq!(account1_state.last_known_min_balance, 1000);
    assert!(account1_state.reserved.is_empty());

    account2_state.settle_accumulator_version(version);
    assert_eq!(account2_state.last_known_min_balance, 2000);
    assert!(account2_state.reserved.is_empty());
}

/// An account with a balance of 100 at version 1 and a queue of requests, each with the version
/// that it depends on.
fn account_with(requests: &[(SequenceNumber, u64)]) -> (AccountState, RegistrationTable) {
    let account_id: ObjectID = (11, 12);
    let mut mock_balance_read = MockBalanceRead::new(1);
    mock_balance_read.set_balance(account_id, 100);
    let mut account_state = AccountState::new(&mock_balance_read, &account_id, 1);
    let mut registrations = RegistrationTable::new();
    let mut ids = Vec::new();
    for (version, amount) in requests {
        ids.push(registrations.register(TxWithdrawRegistration::new(
            *version,
            BTreeMap::from([(account_id, *amount)]),
        )));
    }
    account_state.add_registrations(ids);
    (account_state, registrations)
}

fn settled_balance(account_state: &AccountState) -> i128 {
    let reserved: i128 = account_state.reserved.values().map(|amount| *amount as i128).sum();
    account_state.last_known_min_balance + reserved
}

#[test]
fn request_beyond_the_balance_waits_for_its_version() {
    let (mut account_state, mut registrations) = account_with(&[(2, 500)]);

    let result = account_state.try_schedule_next_reservation(&(11, 12), 1, &mut registrations);
    assert!(result.is_none());
    assert_eq!(account_state.last_known_min_balance, 100);
    assert!(account_state.reserved.is_empty());
    assert_eq!(result_of(&registrations, 0), ScheduleResult::Init);

    let result = account_state.try_schedule_next_reservation(&(11, 12), 2, &mut registrations);
    assert_eq!(result, Some(0));
    assert_eq!(account_state.last_known_min_balance, -400);
    assert_eq!(account_state.reserved.get(&2), Some(&500));
    assert_eq!(result_of(&registrations, 0), ScheduleResult::ReadyForExecution);
}

#[test]
fn request_for_the_whole_balance_is_covered() {
    let (mut account_state, mut registrations) = account_with(&[(2, 100), (2, 1)]);
    assert_eq!(
        account_state.try_schedule_next_reservation(&(11, 12), 1, &mut registrations),
        Some(0)
    );
    assert_eq!(account_state.last_known_min_balance, 0);
    assert_eq!(account_state.try_schedule_next_reservation(&(11, 12), 1, &mut registrations), None);
}

#[test]
fn empty_queue_schedules_nothing() {
    let (mut account_state, mut registrations) = account_with(&[]);
    assert!(account_state.is_empty());
    assert_eq!(account_state.try_schedule_next_reservation(&(11, 12), 9, &mut registrations), None);
}

#[test]
fn small_request_does_not_overtake_a_large_one() {
    let (mut account_state, mut registrations) = account_with(&[(2, 101), (2, 1)]);
    assert_eq!(account_state.try_schedule_next_reservation(&(11, 12), 1, &mut registrations), None);
    assert_eq!(account_state.enqueued.len(), 2);
}

#[test]
fn served_queue_grants_nothing_more() {
    let (mut account_state, mut registrations) = account_with(&[(2, 60), (2, 40), (3, 1), (2, 0)]);
    let mut scheduled = Vec::new();
    while let Some(id) =
        account_state.try_schedule_next_reservation(&(11, 12), 1, &mut registrations)
    {
        scheduled.push(id);
    }
    assert_eq!(scheduled, vec![0, 1]);
    assert_eq!(account_state.last_known_min_balance, 0);
    assert_eq!(account_state.try_schedule_next_reservation(&(11, 12), 1, &mut registrations), None);
    assert_eq!(account_state.try_schedule_next_reservation(&(11, 12), 2, &mut registrations), None);
    assert_eq!(account_state.last_known_min_balance, 0);
    assert_eq!(account_state.enqueued.len(), 2);
}

#[test]
fn reservations_at_one_version_add_up() {
    let (mut account_state, mut registrations) = account_with(&[(2, 30), (3, 5), (2, 40)]);
    for id in 0..3 {
        let scheduled =
            account_state.try_schedule_next_reservation(&(11, 12), 1, &mut registrations);
        assert_eq!(scheduled, Some(id));
        assert_eq!(settled_balance(&account_state), 100);
    }
    assert_eq!(account_state.reserved, BTreeMap::from([(2, 70), (3, 5)]));
    assert_eq!(account_state.last_known_min_balance, 25);

    account_state.settle_accumulator_version(2);
    assert_eq!(settled_balance(&account_state), 100);
    assert_eq!(account_state.last_known_min_balance, 95);
    account_state.settle_balance_change(-70);
    assert_eq!(settled_balance(&account_state), 30);
    assert_eq!(account_state.last_known_min_balance, 25);
    assert!(!account_state.is_empty());
    account_state.settle_accumulator_version(3);
    assert!(account_state.is_empty());
    assert_eq!(account_state.last_known_min_balance, 30);
}

#[test]
fn settling_undoes_reserving() {
    let (mut account_state, mut registrations) = account_with(&[(2, 60)]);
    account_state.try_schedule_next_reservation(&(11, 12), 1, &mut registrations);
    assert_eq!(account_state.last_known_min_balance, 40);
    account_state.settle_accumulator_version(2);
    assert_eq!(account_state.last_known_min_balance, 100);
    assert!(account_state.reserved.is_empty());
}

#[test]
fn settling_undoes_all_reservations_at_a_version() {
    let (mut account_state, mut registrations) = account_with(&[(2, 60), (2, 30), (2, 10), (2, 1)]);
    while account_state
        .try_schedule_next_reservation(&(11, 12), 1, &mut registrations)
        .is_some()
    {}
    assert_eq!(account_state.reserved, BTreeMap::from([(2, 100)]));
    account_state.settle_accumulator_version(2);
    assert_eq!(account_state.last_known_min_balance, 100);
    assert!(account_state.reserved.is_empty());
    assert_eq!(account_state.enqueued.len(), 1);
}

#[test]
fn later_settled_version_grants_more() {
    let requests = [(2, 60), (2, 60), (3, 60), (4, 60)];
    for (settled, count) in [(1, 1), (2, 2), (3, 3), (4, 4)] {
        let (mut account_state, mut registrations) = account_with(&requests);
        let mut granted = 0;
        while account_state
            .try_schedule_next_reservation(&(11, 12), settled, &mut registrations)
            .is_some()
        {
            granted += 1;
        }
        assert_eq!(granted, count);
    }
}

#[test]
fn registrations_are_taken_back_from_the_end() {
    let (mut account_state, mut registrations) = account_with(&[(2, 1), (2, 2), (2, 3)]);
    account_state.take_back(1);
    assert_eq!(account_state.enqueued.len(), 1);
    account_state.take_back(1);
    assert_eq!(account_state.enqueued.len(), 1);
    assert_eq!(registrations.waiting_accounts().len(), 1);
    registrations.take_back(1);
    assert!(registrations.get(&0).is_some());
    assert!(registrations.get(&1).is_none());
    assert!(registrations.get(&2).is_none());
    assert_eq!(registrations.upcoming_id(), 1);
    registrations.take_back(0);
    assert!(registrations.waiting_accounts().is_empty());
}

#[test]
fn account_knows_what_it_can_settle() {
    let (mut account_state, mut registrations) = account_with(&[(2, 60), (3, u64::MAX)]);
    let account_id: ObjectID = (11, 12);
    assert!(!account_state.can_settle(Some(2), 0, &account_id, 2, &registrations));
    account_state.try_schedule_next_reservation(&account_id, 1, &mut registrations);
    assert!(account_state.can_settle(Some(2), -60, &account_id, 3, &registrations));
    assert!(account_state.can_settle(None, 0, &account_id, 2, &registrations));
    assert!(!account_state.can_settle(Some(2), i128::MAX, &account_id, 2, &registrations));
    assert!(!account_state.can_settle(None, i128::MIN, &account_id, 3, &registrations));
}

#[test]
fn registrations_get_identifiers_of_their_own() {
    let mut registrations = RegistrationTable::new();
    assert!(registrations.has_room(usize::MAX));
    let one = registrations.register(TxWithdrawRegistration::new(1, BTreeMap::new()));
    assert!(registrations.remove(&one).is_some());
    assert!(registrations.remove(&one).is_none());
    let other = registrations.register(TxWithdrawRegistration::new(4, BTreeMap::new()));
    assert_ne!(one, other);
    assert!(registrations.get(&one).is_none());
    assert_eq!(registrations.get(&other).unwrap().accumulator_version, 4);
}
