//! The scheduler as a whole.
use balance_withdraw_scheduler::balance_read::AccountBalanceRead;
use balance_withdraw_scheduler::scheduler::{SettlementProgress, WithdrawScheduler};
use balance_withdraw_scheduler::types::{
    BalanceSettlement, ObjectID, RegistrationId, ScheduleReceiver, ScheduleResult, SequenceNumber,
    TransactionDigest, TxBalanceWithdraw,
};
use std::collections::{BTreeMap, BTreeSet};

const ACCOUNT: ObjectID = (1, 0);
const OTHER: ObjectID = (2, 0);

/// Balances that no settlement has changed yet, by account.
struct Balances {
    version: SequenceNumber,
    balances: BTreeMap<ObjectID, u64>,
}

impl AccountBalanceRead for Balances {
    fn account_balance(&self, account_id: ObjectID, version: SequenceNumber) -> u64 {
        self.get_account_balance(&account_id, version)
    }

    fn get_accumulator_version(&self) -> SequenceNumber {
        self.version
    }

    fn get_account_balance(&self, account_id: &ObjectID, _version: SequenceNumber) -> u64 {
        self.balances.get(account_id).copied().unwrap_or(0)
    }
}

fn balances(entries: &[(ObjectID, u64)]) -> Balances {
    Balances { version: 0, balances: entries.iter().copied().collect() }
}

fn withdraw(digest: u128, reservations: &[(ObjectID, u64)]) -> TxBalanceWithdraw {
    TxBalanceWithdraw {
        tx_digest: (digest, 0),
        reservations: reservations.iter().copied().collect(),
    }
}

fn settlement(
    old: SequenceNumber,
    new: SequenceNumber,
    changes: &[(ObjectID, i128)],
) -> BalanceSettlement {
    BalanceSettlement {
        old_accumulator_version: old,
        new_accumulator_version: new,
        balance_changes: changes.iter().copied().collect(),
    }
}

const READY: ScheduleReceiver =
    ScheduleReceiver { result: ScheduleResult::ReadyForExecution, registration: None };

fn waiting(id: RegistrationId) -> ScheduleReceiver {
    ScheduleReceiver { result: ScheduleResult::Init, registration: Some(id) }
}

fn receiver(
    enqueued: &BTreeMap<TransactionDigest, ScheduleReceiver>,
    digest: u128,
) -> ScheduleReceiver {
    let digest: TransactionDigest = (digest, 0);
    *enqueued.get(&digest).unwrap()
}

fn ids(list: &[RegistrationId]) -> BTreeSet<RegistrationId> {
    list.iter().copied().collect()
}

fn settle(
    scheduler: &mut WithdrawScheduler,
    old: SequenceNumber,
    new: SequenceNumber,
    changes: &[(ObjectID, i128)],
) -> BTreeSet<RegistrationId> {
    let progress: SettlementProgress =
        scheduler.try_handle_balance_settlement(settlement(old, new, changes));
    assert!(!progress.stuck);
    progress.ready
}

#[test]
fn scheduler_starts_at_the_version_of_the_balances() {
    let mut read = balances(&[]);
    read.version = 7;
    let scheduler = WithdrawScheduler::new(&read);
    assert_eq!(scheduler.last_known_settled_version(), 7);
    assert_eq!(WithdrawScheduler::with_settled_version(3).last_known_settled_version(), 3);
}

#[test]
fn covered_transaction_is_ready_at_once() {
    let read = balances(&[(ACCOUNT, 100)]);
    let mut scheduler = WithdrawScheduler::new(&read);
    let enqueued =
        scheduler.enqueue_withdraw_reservations(4, vec![withdraw(1, &[(ACCOUNT, 100)])], &read);
    assert_eq!(enqueued.len(), 1);
    assert_eq!(receiver(&enqueued, 1), READY);
}

#[test]
fn uncovered_transaction_waits_for_its_version() {
    let read = balances(&[(ACCOUNT, 100)]);
    let mut scheduler = WithdrawScheduler::new(&read);
    let enqueued =
        scheduler.enqueue_withdraw_reservations(0, vec![withdraw(1, &[(ACCOUNT, 80)])], &read);
    assert_eq!(receiver(&enqueued, 1), READY);
    let enqueued = scheduler.enqueue_withdraw_reservations(
        1,
        vec![withdraw(2, &[(ACCOUNT, 50)]), withdraw(3, &[(ACCOUNT, 1)])],
        &read,
    );
    assert_eq!(receiver(&enqueued, 2), waiting(1));
    assert_eq!(receiver(&enqueued, 3), waiting(2));

    assert_eq!(settle(&mut scheduler, 0, 1, &[(ACCOUNT, -80)]), ids(&[1, 2]));
    assert_eq!(scheduler.last_known_settled_version(), 1);
}

#[test]
fn settlement_that_gives_back_makes_room_ahead_of_time() {
    let read = balances(&[(ACCOUNT, 100)]);
    let mut scheduler = WithdrawScheduler::new(&read);
    scheduler.enqueue_withdraw_reservations(0, vec![withdraw(1, &[(ACCOUNT, 80)])], &read);
    let enqueued =
        scheduler.enqueue_withdraw_reservations(2, vec![withdraw(2, &[(ACCOUNT, 50)])], &read);
    assert_eq!(receiver(&enqueued, 2), waiting(1));
    // Only half of what was reserved has been withdrawn: 100 - 40 covers the 50 of version 2.
    assert_eq!(settle(&mut scheduler, 0, 1, &[(ACCOUNT, -40)]), ids(&[1]));
}

#[test]
fn settlement_that_leaves_too_little_lets_a_later_version_wait() {
    let read = balances(&[(ACCOUNT, 100)]);
    let mut scheduler = WithdrawScheduler::new(&read);
    scheduler.enqueue_withdraw_reservations(0, vec![withdraw(1, &[(ACCOUNT, 80)])], &read);
    scheduler.enqueue_withdraw_reservations(2, vec![withdraw(2, &[(ACCOUNT, 50)])], &read);
    assert_eq!(settle(&mut scheduler, 0, 1, &[(ACCOUNT, -80)]), ids(&[]));
    assert_eq!(settle(&mut scheduler, 1, 2, &[]), ids(&[1]));
}

#[test]
fn transaction_at_the_settled_version_needs_no_balance() {
    let read = balances(&[]);
    let mut scheduler = WithdrawScheduler::new(&read);
    let enqueued =
        scheduler.enqueue_withdraw_reservations(0, vec![withdraw(1, &[(ACCOUNT, 5)])], &read);
    assert_eq!(receiver(&enqueued, 1), READY);
}

#[test]
fn transaction_waits_for_all_of_its_accounts() {
    let read = balances(&[(ACCOUNT, 100), (OTHER, 10)]);
    let mut scheduler = WithdrawScheduler::new(&read);
    let enqueued = scheduler.enqueue_withdraw_reservations(
        1,
        vec![
            withdraw(1, &[(ACCOUNT, 60), (OTHER, 20)]),
            withdraw(2, &[(ACCOUNT, 40)]),
            withdraw(3, &[(ACCOUNT, 1)]),
        ],
        &read,
    );
    assert_eq!(receiver(&enqueued, 1), waiting(0));
    assert_eq!(receiver(&enqueued, 2), READY);
    assert_eq!(receiver(&enqueued, 3), waiting(2));
    // The settlement touches neither of the two accounts.
    assert_eq!(settle(&mut scheduler, 0, 1, &[]), ids(&[0, 2]));
}

#[test]
fn executed_transactions_are_told_so() {
    let read = balances(&[(ACCOUNT, 100)]);
    let mut scheduler = WithdrawScheduler::with_settled_version(5);
    let enqueued = scheduler.enqueue_withdraw_reservations(
        4,
        vec![withdraw(1, &[(ACCOUNT, 100)]), withdraw(2, &[]), withdraw(1, &[])],
        &read,
    );
    assert_eq!(enqueued.len(), 2);
    for digest in [1, 2] {
        assert_eq!(
            receiver(&enqueued, digest),
            ScheduleReceiver { result: ScheduleResult::AlreadyExecuted, registration: None }
        );
    }
    // Nothing was reserved: the whole balance is still there.
    let enqueued =
        scheduler.enqueue_withdraw_reservations(6, vec![withdraw(1, &[(ACCOUNT, 100)])], &read);
    assert_eq!(receiver(&enqueued, 1), READY);
}

#[test]
fn transaction_is_scheduled_once() {
    let read = balances(&[(ACCOUNT, 100)]);
    let mut scheduler = WithdrawScheduler::new(&read);
    let enqueued = scheduler.enqueue_withdraw_reservations(
        1,
        vec![withdraw(1, &[(ACCOUNT, 60)]), withdraw(1, &[(ACCOUNT, 60)])],
        &read,
    );
    assert_eq!(enqueued.len(), 1);
    assert_eq!(receiver(&enqueued, 1), READY);
    let again =
        scheduler.enqueue_withdraw_reservations(1, vec![withdraw(1, &[(ACCOUNT, 60)])], &read);
    assert!(again.is_empty());
    // 40 are left: the transaction was counted once.
    let enqueued =
        scheduler.enqueue_withdraw_reservations(1, vec![withdraw(2, &[(ACCOUNT, 40)])], &read);
    assert_eq!(receiver(&enqueued, 2), READY);
    let enqueued =
        scheduler.enqueue_withdraw_reservations(1, vec![withdraw(3, &[(ACCOUNT, 1)])], &read);
    assert_eq!(receiver(&enqueued, 3), waiting(2));
}

#[test]
fn empty_list_is_nothing_to_do() {
    let read = balances(&[]);
    let mut scheduler = WithdrawScheduler::new(&read);
    let enqueued = scheduler.enqueue_withdraw_reservations(3, vec![], &read);
    assert!(enqueued.is_empty());
}

#[test]
fn transaction_without_reservations_is_never_told() {
    let read = balances(&[]);
    let mut scheduler = WithdrawScheduler::new(&read);
    let enqueued = scheduler.enqueue_withdraw_reservations(0, vec![withdraw(1, &[])], &read);
    assert_eq!(
        receiver(&enqueued, 1),
        ScheduleReceiver { result: ScheduleResult::Init, registration: None }
    );
    assert!(settle(&mut scheduler, 0, 1, &[]).is_empty());
}

#[test]
fn settlements_are_processed_in_turn() {
    let changes: [&[(ObjectID, i128)]; 3] = [&[(ACCOUNT, -10)], &[(ACCOUNT, 20)], &[(ACCOUNT, 5)]];
    let orders = [[0, 1, 2], [0, 2, 1], [1, 0, 2], [1, 2, 0], [2, 0, 1], [2, 1, 0]];
    for order in orders {
        let read = balances(&[(ACCOUNT, 10)]);
        let mut scheduler = WithdrawScheduler::new(&read);
        scheduler.enqueue_withdraw_reservations(0, vec![withdraw(1, &[(ACCOUNT, 10)])], &read);
        let enqueued = scheduler.enqueue_withdraw_reservations(
            9,
            vec![withdraw(2, &[(ACCOUNT, 20)]), withdraw(3, &[(ACCOUNT, 5)])],
            &read,
        );
        assert_eq!(receiver(&enqueued, 2), waiting(1));
        assert_eq!(receiver(&enqueued, 3), waiting(2));
        let mut ready = BTreeSet::new();
        for step in order {
            let old = step as SequenceNumber;
            ready.extend(settle(&mut scheduler, old, old + 1, changes[step]));
        }
        assert_eq!(ready, ids(&[1, 2]));
        assert_eq!(scheduler.last_known_settled_version(), 3);
    }
}

#[test]
fn early_settlement_changes_nothing_yet() {
    let read = balances(&[]);
    let mut scheduler = WithdrawScheduler::new(&read);
    let enqueued =
        scheduler.enqueue_withdraw_reservations(2, vec![withdraw(1, &[(ACCOUNT, 5)])], &read);
    assert_eq!(receiver(&enqueued, 1), waiting(0));
    assert!(settle(&mut scheduler, 1, 2, &[(ACCOUNT, 5)]).is_empty());
    assert_eq!(scheduler.last_known_settled_version(), 0);
    assert_eq!(scheduler.handle_balance_settlement(settlement(0, 1, &[])), ids(&[0]));
    assert_eq!(scheduler.last_known_settled_version(), 2);
}

#[test]
fn transaction_that_was_told_is_not_told_again() {
    let read = balances(&[(ACCOUNT, 10)]);
    let mut scheduler = WithdrawScheduler::new(&read);
    let enqueued =
        scheduler.enqueue_withdraw_reservations(1, vec![withdraw(1, &[(ACCOUNT, 11)])], &read);
    assert_eq!(receiver(&enqueued, 1), waiting(0));
    assert_eq!(settle(&mut scheduler, 0, 1, &[(ACCOUNT, 1)]), ids(&[0]));
    assert!(settle(&mut scheduler, 1, 2, &[(ACCOUNT, -11)]).is_empty());
    let enqueued =
        scheduler.enqueue_withdraw_reservations(2, vec![withdraw(2, &[(ACCOUNT, 1)])], &read);
    assert_eq!(receiver(&enqueued, 2), READY);
}

#[test]
fn settlement_asks_accounts_that_it_does_not_touch() {
    let mut read = balances(&[(ACCOUNT, 100)]);
    read.version = 1;
    let mut scheduler = WithdrawScheduler::new(&read);
    let enqueued =
        scheduler.enqueue_withdraw_reservations(2, vec![withdraw(1, &[(ACCOUNT, 500)])], &read);
    assert_eq!(receiver(&enqueued, 1), waiting(0));
    assert_eq!(settle(&mut scheduler, 1, 2, &[]), ids(&[0]));
    // 500 are reserved of the 100: nothing is left for a version that is not settled yet.
    let enqueued =
        scheduler.enqueue_withdraw_reservations(3, vec![withdraw(2, &[(ACCOUNT, 1)])], &read);
    assert_eq!(receiver(&enqueued, 2), waiting(1));
    // The settlement of version 2 gives the 500 back: the 1 of version 4 is covered.
    scheduler.enqueue_withdraw_reservations(4, vec![withdraw(3, &[(ACCOUNT, 1)])], &read);
    assert_eq!(settle(&mut scheduler, 2, 3, &[]), ids(&[1, 2]));
}

#[test]
fn transactions_that_wait_are_left_alone_by_later_lists() {
    let read = balances(&[(ACCOUNT, 10), (OTHER, 10)]);
    let mut scheduler = WithdrawScheduler::new(&read);
    let enqueued =
        scheduler.enqueue_withdraw_reservations(1, vec![withdraw(1, &[(ACCOUNT, 11)])], &read);
    assert_eq!(receiver(&enqueued, 1), waiting(0));
    let enqueued = scheduler.enqueue_withdraw_reservations(
        1,
        vec![withdraw(2, &[(ACCOUNT, 1)]), withdraw(3, &[(OTHER, 1)])],
        &read,
    );
    assert_eq!(receiver(&enqueued, 2), waiting(1));
    assert_eq!(receiver(&enqueued, 3), READY);
    assert_eq!(settle(&mut scheduler, 0, 1, &[]), ids(&[0, 1]));
}

#[test]
fn settlement_is_processed_once() {
    let read = balances(&[(ACCOUNT, 10)]);
    let mut scheduler = WithdrawScheduler::new(&read);
    scheduler.enqueue_withdraw_reservations(9, vec![withdraw(1, &[(ACCOUNT, 10)])], &read);
    assert!(settle(&mut scheduler, 0, 1, &[(ACCOUNT, 5)]).is_empty());
    assert!(settle(&mut scheduler, 0, 1, &[(ACCOUNT, 5)]).is_empty());
    assert_eq!(scheduler.last_known_settled_version(), 1);
    let enqueued = scheduler.enqueue_withdraw_reservations(
        9,
        vec![withdraw(2, &[(ACCOUNT, 5)]), withdraw(3, &[(ACCOUNT, 1)])],
        &read,
    );
    assert_eq!(receiver(&enqueued, 2), READY);
    assert_eq!(receiver(&enqueued, 3), waiting(2));
}

#[test]
fn settled_account_is_forgotten_and_read_again() {
    let mut read = balances(&[(ACCOUNT, 10)]);
    let mut scheduler = WithdrawScheduler::new(&read);
    scheduler.enqueue_withdraw_reservations(0, vec![withdraw(1, &[(ACCOUNT, 10)])], &read);
    assert!(settle(&mut scheduler, 0, 1, &[(ACCOUNT, -10)]).is_empty());
    read.balances.insert(ACCOUNT, 30);
    let enqueued = scheduler.enqueue_withdraw_reservations(
        5,
        vec![withdraw(2, &[(ACCOUNT, 30)]), withdraw(3, &[(ACCOUNT, 1)])],
        &read,
    );
    assert_eq!(receiver(&enqueued, 2), READY);
    assert_eq!(receiver(&enqueued, 3), waiting(2));
}

#[test]
fn account_that_is_kept_is_not_read_again() {
    let mut read = balances(&[(ACCOUNT, 10)]);
    let mut scheduler = WithdrawScheduler::new(&read);
    scheduler.enqueue_withdraw_reservations(1, vec![withdraw(1, &[(ACCOUNT, 10)])], &read);
    read.balances.insert(ACCOUNT, 30);
    let enqueued =
        scheduler.enqueue_withdraw_reservations(1, vec![withdraw(2, &[(ACCOUNT, 1)])], &read);
    assert_eq!(receiver(&enqueued, 2), waiting(1));
}

#[test]
fn settlement_without_a_reservation_to_give_back_is_stuck() {
    let read = balances(&[]);
    let mut scheduler = WithdrawScheduler::new(&read);
    // The transaction of version 1 is queued behind one of version 3.
    scheduler.enqueue_withdraw_reservations(3, vec![withdraw(1, &[(ACCOUNT, 5)])], &read);
    scheduler.enqueue_withdraw_reservations(1, vec![withdraw(2, &[(ACCOUNT, 5)])], &read);
    assert!(settle(&mut scheduler, 0, 1, &[]).is_empty());
    let progress = scheduler.try_handle_balance_settlement(settlement(1, 2, &[]));
    assert!(progress.stuck);
    assert!(progress.ready.is_empty());
    assert_eq!(scheduler.last_known_settled_version(), 1);
    // Those behind it wait for it.
    let progress = scheduler.try_handle_balance_settlement(settlement(2, 3, &[]));
    assert!(progress.stuck);
    assert_eq!(scheduler.last_known_settled_version(), 1);
}

#[test]
fn settlement_that_overflows_a_balance_is_stuck() {
    let read = balances(&[(ACCOUNT, 10)]);
    let mut scheduler = WithdrawScheduler::new(&read);
    scheduler.enqueue_withdraw_reservations(1, vec![withdraw(1, &[(ACCOUNT, 1)])], &read);
    let progress =
        scheduler.try_handle_balance_settlement(settlement(0, 1, &[(ACCOUNT, i128::MAX)]));
    assert!(progress.stuck);
    assert_eq!(scheduler.last_known_settled_version(), 0);
    // An account that is not kept has no balance to overflow.
    let mut scheduler = WithdrawScheduler::new(&read);
    assert!(settle(&mut scheduler, 0, 1, &[(ACCOUNT, i128::MAX)]).is_empty());
}

#[test]
fn list_that_overflows_a_reservation_is_refused() {
    let read = balances(&[]);
    let mut scheduler = WithdrawScheduler::new(&read);
    let enqueued = scheduler.try_enqueue_withdraw_reservations(
        0,
        vec![withdraw(1, &[(ACCOUNT, u64::MAX)]), withdraw(2, &[(ACCOUNT, 1)])],
        &read,
    );
    assert!(enqueued.is_none());
    // Nothing was done: the transaction can still be scheduled, under the first identifier.
    let enqueued =
        scheduler.try_enqueue_withdraw_reservations(1, vec![withdraw(1, &[(ACCOUNT, 1)])], &read);
    assert_eq!(receiver(&enqueued.unwrap(), 1), waiting(0));
    let enqueued =
        scheduler.try_enqueue_withdraw_reservations(0, vec![withdraw(3, &[(OTHER, 1)])], &read);
    assert_eq!(receiver(&enqueued.unwrap(), 3), READY);
    // The same amounts at a version that is not settled wait and overflow nothing.
    let mut scheduler = WithdrawScheduler::new(&read);
    let enqueued = scheduler.try_enqueue_withdraw_reservations(
        1,
        vec![withdraw(1, &[(ACCOUNT, u64::MAX)]), withdraw(2, &[(ACCOUNT, 1)])],
        &read,
    );
    let enqueued = enqueued.unwrap();
    assert_eq!(receiver(&enqueued, 1), waiting(0));
    assert_eq!(receiver(&enqueued, 2), waiting(1));
}

#[test]
fn refused_list_leaves_queues_and_notes_as_they_were() {
    let read = balances(&[(ACCOUNT, 3)]);
    let mut scheduler = WithdrawScheduler::new(&read);
    scheduler.enqueue_withdraw_reservations(0, vec![withdraw(1, &[(ACCOUNT, 2)])], &read);
    let enqueued = scheduler.try_enqueue_withdraw_reservations(
        0,
        vec![withdraw(2, &[(ACCOUNT, u64::MAX), (OTHER, 1)])],
        &read,
    );
    assert!(enqueued.is_none());
    let enqueued = scheduler.enqueue_withdraw_reservations(
        0,
        vec![withdraw(1, &[(ACCOUNT, 2)]), withdraw(2, &[(ACCOUNT, 1)])],
        &read,
    );
    assert_eq!(enqueued.len(), 1);
    assert_eq!(receiver(&enqueued, 2), READY);
    assert!(settle(&mut scheduler, 0, 1, &[(ACCOUNT, -3)]).is_empty());
}

#[test]
fn other_accounts_stay_as_they_are() {
    let read = balances(&[(ACCOUNT, 10), (OTHER, 10)]);
    let mut scheduler = WithdrawScheduler::new(&read);
    scheduler.enqueue_withdraw_reservations(3, vec![withdraw(1, &[(ACCOUNT, 10)])], &read);
    scheduler.enqueue_withdraw_reservations(3, vec![withdraw(2, &[(OTHER, 4)])], &read);
    assert!(settle(&mut scheduler, 0, 1, &[(ACCOUNT, -3)]).is_empty());
    let enqueued = scheduler.enqueue_withdraw_reservations(
        3,
        vec![withdraw(3, &[(OTHER, 6)]), withdraw(4, &[(OTHER, 1)])],
        &read,
    );
    assert_eq!(receiver(&enqueued, 3), READY);
    assert_eq!(receiver(&enqueued, 4), waiting(3));
}
